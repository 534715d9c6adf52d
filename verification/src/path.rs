//! The file name of a path, as Unix paths have it.
use crate::lines::{last_position, lemma_last_position};
use crate::text::{chars, substring};
use vstd::prelude::*;
use vstd::string::*;

verus! {

/// What stands behind the last slash, once slashes and `.` components at the
/// end are set aside. A `.` that begins the path stays.
pub open spec fn final_component(s: Seq<char>) -> Seq<char>
    decreases s.len(),
{
    let i = last_position(s, '/');
    let c = s.skip(i + 1);
    if 0 <= i < s.len() && (c.len() == 0 || c == seq!['.']) {
        final_component(s.take(i))
    } else {
        c
    }
}

/// The name of the file that a path leads to. A path that ends in `..`, the
/// root, `.` and the empty path have none.
pub open spec fn file_name_of(s: Seq<char>) -> Option<Seq<char>> {
    let c = final_component(s);
    if c.len() == 0 || c == seq!['.'] || c == seq!['.', '.'] {
        None
    } else {
        Some(c)
    }
}

/// The name of the file that a path leads to.
pub fn file_name(path: &str) -> (r: Option<String>)
    ensures
        match r {
            Some(name) => file_name_of(path@) == Some(name@),
            None => file_name_of(path@) is None,
        },
{
    let v = chars(path);
    let mut end: usize = v.len();
    assert(v@.take(end as int) =~= path@);
    loop
        invariant
            v@ == path@,
            end <= v.len(),
            final_component(path@) == final_component(path@.take(end as int)),
        decreases end,
    {
        let ghost s = path@.take(end as int);
        let mut start: usize = end;
        while start > 0 && v[start - 1] != '/'
            invariant
                v@ == path@,
                start <= end <= v.len(),
                forall|j: int| start <= j < end ==> v@[j] != '/',
            decreases start,
        {
            start = start - 1;
        }
        proof {
            lemma_last_position(s, '/', start - 1);
            assert(s.skip(start as int) =~= v@.subrange(start as int, end as int));
        }
        let ghost c = v@.subrange(start as int, end as int);
        let empty = start == end;
        let dot = end - start == 1 && v[start] == '.';
        let dots = end - start == 2 && v[start] == '.' && v[start + 1] == '.';
        proof {
            assert(empty == (c.len() == 0));
            assert(dot == (c == seq!['.'])) by {
                if dot {
                    assert(c =~= seq!['.']);
                }
                if c == seq!['.'] {
                    assert(c[0] == '.');
                }
            }
            assert(dots == (c == seq!['.', '.'])) by {
                if dots {
                    assert(c =~= seq!['.', '.']);
                }
                if c == seq!['.', '.'] {
                    assert(c[0] == '.' && c[1] == '.');
                }
            }
        }
        if start > 0 && (empty || dot) {
            assert(s.take(start - 1) =~= path@.take(start - 1));
            end = start - 1;
        } else if empty || dot || dots {
            return None;
        } else {
            return Some(substring(&v, start, end));
        }
    }
}

// ── Laws ─────────────────────────────────────────────────────────────

/// The file name of a path is what stands behind its last slash. Slashes at the
/// end of a path and components of a single dot there change nothing, and a path
/// that ends in two dots has no file name.
pub proof fn law_file_name_is_last(dir: Seq<char>, name: Seq<char>)
    requires
        forall|i: int| 0 <= i < name.len() ==> name[i] != '/',
    ensures
        name.len() > 0 && name != seq!['.'] && name != seq!['.', '.'] ==> file_name_of(name)
            == Some(name) && file_name_of(dir + seq!['/'] + name) == Some(name),
        file_name_of(dir + seq!['/']) == file_name_of(dir),
        file_name_of(dir + seq!['/'] + seq!['.']) == file_name_of(dir),
        file_name_of(dir + seq!['/'] + seq!['.', '.']) is None,
        file_name_of(Seq::empty()) is None,
        file_name_of(seq!['.']) is None,
        file_name_of(seq!['.', '.']) is None,
{
    lemma_component(dir, name);
    lemma_component(dir, Seq::empty());
    lemma_component(dir, seq!['.']);
    lemma_component(dir, seq!['.', '.']);
    assert(dir + seq!['/'] + Seq::<char>::empty() =~= dir + seq!['/']);
    assert(seq!['.', '.'].len() != seq!['.'].len());
}

/// The last component of a path without slashes, and of one that ends in it.
proof fn lemma_component(dir: Seq<char>, name: Seq<char>)
    requires
        forall|i: int| 0 <= i < name.len() ==> name[i] != '/',
    ensures
        final_component(name) == name,
        final_component(dir + seq!['/'] + name) == if name.len() == 0 || name == seq!['.'] {
            final_component(dir)
        } else {
            name
        },
{
    lemma_last_position(name, '/', -1);
    assert(name.skip(0) =~= name);
    let whole = dir + seq!['/'] + name;
    let n = dir.len() as int;
    assert forall|j: int| n < j < whole.len() implies whole[j] != '/' by {
        assert(whole[j] == name[j - n - 1]);
    }
    lemma_last_position(whole, '/', n);
    assert(whole.skip(n + 1) =~= name);
    assert(whole.take(n) =~= dir);
}

} // verus!
