//! Paths that a traversal leaves out: file systems that hold no files on disk.
use crate::text::{same_text, starts_with};
use vstd::prelude::*;
use vstd::string::*;

verus! {

/// The roots that a traversal leaves out.
pub open spec fn skip_paths() -> Seq<Seq<char>> {
    seq!["/proc"@, "/sys"@, "/dev"@, "/run"@, "/snap"@, "/var/run"@, "/var/lock"@]
}

/// Whether a path is `root` or lies below it.
pub open spec fn at_or_below(path: Seq<char>, root: Seq<char>) -> bool {
    path == root || (root + "/"@).is_prefix_of(path)
}

/// Whether a traversal leaves a path out.
pub open spec fn skipped(path: Seq<char>) -> bool {
    exists|i: int| 0 <= i < skip_paths().len() && at_or_below(path, #[trigger] skip_paths()[i])
}

/// Whether a traversal leaves a path out.
pub fn should_skip(path: &str) -> (r: bool)
    ensures
        r == skipped(path@),
{
    let roots: Vec<&str> = vec![
        "/proc",
        "/sys",
        "/dev",
        "/run",
        "/snap",
        "/var/run",
        "/var/lock",
    ];
    assert(forall|i: int| 0 <= i < roots.len() ==> roots@[i]@ == #[trigger] skip_paths()[i]);
    let mut i: usize = 0;
    while i < roots.len()
        invariant
            i <= roots.len(),
            roots.len() == skip_paths().len(),
            forall|j: int| 0 <= j < roots.len() ==> roots@[j]@ == #[trigger] skip_paths()[j],
            forall|j: int| 0 <= j < i ==> !at_or_below(path@, #[trigger] skip_paths()[j]),
        decreases roots.len() - i,
    {
        let root: &str = roots[i];
        let below = root.to_owned().concat("/");
        if same_text(path, root) || starts_with(path, below.as_str()) {
            assert(at_or_below(path@, skip_paths()[i as int]));
            return true;
        }
        i = i + 1;
    }
    false
}

/// Whether a traversal goes on with an entry of a directory, by its path where it
/// could be read.
pub open spec fn kept(no_skip: bool, path: Option<Seq<char>>) -> bool {
    no_skip || (path matches Some(p) && !skipped(p))
}

/// A traversal that leaves nothing out goes on with every entry; any other leaves
/// out the virtual file systems and what cannot be read, and nothing else.
pub proof fn law_traversal_leaves_out_what_is_skipped(path: Seq<char>)
    ensures
        kept(true, None),
        kept(true, Some(path)),
        !kept(false, None),
        kept(false, Some(path)) <==> !skipped(path),
{
}

/// Whether a traversal goes on with an entry of a directory: with every one
/// where nothing is left out, else with those that could be read and that are
/// not to be skipped.
pub fn keep_entry(no_skip: bool, path: Option<&str>) -> (r: bool)
    ensures
        r == kept(
            no_skip,
            match path {
                Some(p) => Some(p@),
                None => None,
            },
        ),
        r == (no_skip || (path matches Some(p) && !skipped(p@))),
{
    if no_skip {
        return true;
    }
    match path {
        Some(p) => !should_skip(p),
        None => false,
    }
}

/// What lies below a path that is left out is left out too.
pub proof fn law_skip_covers_below(path: Seq<char>, rest: Seq<char>)
    requires
        skipped(path),
    ensures
        skipped(path + "/"@ + rest),
{
    let i = choose|i: int|
        0 <= i < skip_paths().len() && at_or_below(path, #[trigger] skip_paths()[i]);
    let root = skip_paths()[i];
    let below = path + "/"@ + rest;
    if path == root {
        assert((root + "/"@) =~= below.subrange(0, (root + "/"@).len() as int));
    } else {
        let head = root + "/"@;
        assert(head =~= below.subrange(0, head.len() as int)) by {
            assert(head =~= path.subrange(0, head.len() as int));
        }
    }
    assert(at_or_below(below, skip_paths()[i]));
}

/// A path is left out exactly where it is, or begins with and goes on behind a
/// slash, one of the virtual file systems.
pub proof fn law_virtual_systems_are_skipped(path: Seq<char>)
    ensures
        skipped(path) <==> {
            ||| path == "/proc"@
            ||| "/proc/"@.is_prefix_of(path)
            ||| path == "/sys"@
            ||| "/sys/"@.is_prefix_of(path)
            ||| path == "/dev"@
            ||| "/dev/"@.is_prefix_of(path)
            ||| path == "/run"@
            ||| "/run/"@.is_prefix_of(path)
            ||| path == "/snap"@
            ||| "/snap/"@.is_prefix_of(path)
            ||| path == "/var/run"@
            ||| "/var/run/"@.is_prefix_of(path)
            ||| path == "/var/lock"@
            ||| "/var/lock/"@.is_prefix_of(path)
        },
{
    reveal_strlit("/");
    reveal_strlit("/proc");
    reveal_strlit("/proc/");
    reveal_strlit("/sys");
    reveal_strlit("/sys/");
    reveal_strlit("/dev");
    reveal_strlit("/dev/");
    reveal_strlit("/run");
    reveal_strlit("/run/");
    reveal_strlit("/snap");
    reveal_strlit("/snap/");
    reveal_strlit("/var/run");
    reveal_strlit("/var/run/");
    reveal_strlit("/var/lock");
    reveal_strlit("/var/lock/");
    let all = skip_paths();
    assert("/proc"@ + "/"@ =~= "/proc/"@);
    assert("/sys"@ + "/"@ =~= "/sys/"@);
    assert("/dev"@ + "/"@ =~= "/dev/"@);
    assert("/run"@ + "/"@ =~= "/run/"@);
    assert("/snap"@ + "/"@ =~= "/snap/"@);
    assert("/var/run"@ + "/"@ =~= "/var/run/"@);
    assert("/var/lock"@ + "/"@ =~= "/var/lock/"@);
    assert(skipped(path) <==> {
        ||| at_or_below(path, all[0])
        ||| at_or_below(path, all[1])
        ||| at_or_below(path, all[2])
        ||| at_or_below(path, all[3])
        ||| at_or_below(path, all[4])
        ||| at_or_below(path, all[5])
        ||| at_or_below(path, all[6])
    });
}

} // verus!
