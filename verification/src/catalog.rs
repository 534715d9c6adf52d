//! Where snapshots are kept, how their files are named, and which is the latest.
use crate::lines::{last_position, lemma_last_position};
use crate::localtime::{
    format_timestamp, law_timestamps_sort_by_time, lemma_padded_shape, lemma_stamp_total,
    lemma_stamp_transitive, lemma_timestamp_len, lemma_year_width, stamp_at_most, stamp_le,
    timestamp, year_width, LocalTime,
};
use crate::number::{all_digits, lemma_decimal, zero_padded};
use crate::order::{
    lemma_text_antisymmetric, lemma_text_total, lemma_text_transitive, text_at_most, text_le,
};
use crate::text::{
    chars, ends_with, law_trimming_ignores_the_ends, lemma_trimmed_end, lemma_trimmed_start, replace,
    replaced, starts_with, substring, trim_char, trimmed, trimmed_end, trimmed_start,
};
use vstd::arithmetic::power::pow;
use vstd::prelude::*;
use vstd::string::*;

verus! {

// ── Names ────────────────────────────────────────────────────────────

/// The directory of snapshots below a home directory; `/root` stands in for a
/// home that is not known.
pub open spec fn dir_below(home: Option<Seq<char>>) -> Seq<char> {
    match home {
        Some(h) => h + "/.ff"@,
        None => "/root"@ + "/.ff"@,
    }
}

/// The directory of snapshots is the directory `.ff` in the home directory, and in
/// that of the superuser where none is known.
pub proof fn law_snapshots_lie_below_home(home: Seq<char>)
    ensures
        dir_below(Some(home)) == home + seq!['/', '.', 'f', 'f'],
        dir_below(None) == dir_below(Some("/root"@)),
{
    reveal_strlit("/.ff");
    assert("/.ff"@ =~= seq!['/', '.', 'f', 'f']);
}

/// Gives the directory of snapshots below a home directory.
pub fn snapshot_dir(home: Option<&str>) -> (r: String)
    ensures
        r@ == dir_below(
            match home {
                Some(h) => Some(h@),
                None => None,
            },
        ),
        r@ == match home {
            Some(h) => h@ + "/.ff"@,
            None => "/root"@ + "/.ff"@,
        },
{
    let h = match home {
        Some(h) => h,
        None => "/root",
    };
    h.to_owned().concat("/.ff")
}

/// A path as the beginning of a file name: without the slashes at its ends and
/// with underscores for the others. The root directory is called `root`.
pub open spec fn sanitized(path: Seq<char>) -> Seq<char> {
    let t = trimmed(path, |c: char| c == '/');
    if t.len() == 0 {
        "root"@
    } else {
        replaced(t, '/', '_')
    }
}

/// Turns a path into a safe prefix for snapshot filenames.
pub fn sanitize_path(canonical: &str) -> (r: String)
    ensures
        r@ == sanitized(canonical@),
{
    let t = trim_char(canonical, '/');
    if t.as_str().is_empty() {
        "root".to_owned()
    } else {
        replace(t.as_str(), '/', '_')
    }
}

/// A prefix can stand in a file name: it is not empty and holds no slash.
pub proof fn law_sanitized_is_a_name(path: Seq<char>)
    ensures
        sanitized(path).len() > 0,
        forall|i: int| 0 <= i < sanitized(path).len() ==> sanitized(path)[i] != '/',
{
    reveal_strlit("root");
}

/// The name of a snapshot file.
pub open spec fn snapshot_name(prefix: Seq<char>, stamp: Seq<char>) -> Seq<char> {
    prefix + "_"@ + stamp + ".tsv"@
}

/// The path of the snapshot of a target that is made at a time.
pub fn snapshot_filename(dir: &str, canonical: &str, time: &LocalTime) -> (r: String)
    requires
        time.countable(),
    ensures
        r@ == dir@ + "/"@ + snapshot_name(sanitized(canonical@), timestamp(*time)),
{
    let prefix = sanitize_path(canonical);
    let stamp = format_timestamp(time);
    let r = dir.to_owned().concat("/").concat(prefix.as_str()).concat("_").concat(
        stamp.as_str(),
    ).concat(".tsv");
    assert(r@ =~= dir@ + "/"@ + snapshot_name(sanitized(canonical@), timestamp(*time)));
    r
}

// ── Timestamps in names ──────────────────────────────────────────────

/// Whether a text has the form `YYYYMMDD_HHMMSS`. A year may have more than four
/// digits; it then has no zero in front.
pub open spec fn is_stamp(s: Seq<char>) -> bool {
    &&& s.len() >= 15
    &&& s.len() > 15 ==> s[0] != '0'
    &&& s[s.len() - 7] == '_'
    &&& forall|i: int|
        0 <= i < s.len() && i != s.len() - 7 ==> 48 <= (#[trigger] s[i]) as u32 <= 57
}

/// Where the timestamp at the end of a text is set off by an underscore; -1 where
/// the text does not end in one. It is the last underscore but one, as the last
/// stands in the timestamp.
pub open spec fn stamp_place(stem: Seq<char>) -> int {
    let last = last_position(stem, '_');
    let place = last_position(stem.take(last), '_');
    if 0 <= place < last < stem.len() && is_stamp(stem.skip(place + 1)) {
        place
    } else {
        -1
    }
}

/// A text that a timestamp was put behind ends in that timestamp.
pub proof fn lemma_stamp_place(before: Seq<char>, stamp: Seq<char>)
    requires
        is_stamp(stamp),
    ensures
        stamp_place(before + seq!['_'] + stamp) == before.len(),
        (before + seq!['_'] + stamp).skip(before.len() as int + 1) == stamp,
        (before + seq!['_'] + stamp).take(before.len() as int) == before,
{
    let stem = before + seq!['_'] + stamp;
    let n = before.len() as int;
    let last = stem.len() - 7;
    assert(stem[last] == stamp[stamp.len() - 7]);
    assert forall|j: int| last < j < stem.len() implies stem[j] != '_' by {
        assert(stem[j] == stamp[j - n - 1]);
    }
    lemma_last_position(stem, '_', last);
    let head = stem.take(last);
    assert(head[n] == '_');
    assert forall|j: int| n < j < head.len() implies head[j] != '_' by {
        assert(head[j] == stamp[j - n - 1]);
    }
    lemma_last_position(head, '_', n);
    assert(stem.skip(n + 1) =~= stamp);
    assert(stem.take(n) =~= before);
}

/// Whether the characters from a place to another are a timestamp.
fn stamp_between(v: &Vec<char>, from: usize, to: usize) -> (r: bool)
    requires
        from <= to <= v.len(),
    ensures
        r == is_stamp(v@.subrange(from as int, to as int)),
{
    let ghost s = v@.subrange(from as int, to as int);
    let n: usize = to - from;
    if n < 15 {
        return false;
    }
    assert(s[0] == v@[from as int]);
    if n > 15 && v[from] == '0' {
        return false;
    }
    let gap: usize = n - 7;
    let mut i: usize = 0;
    while i < n
        invariant
            i <= n,
            15 <= n == to - from,
            gap == n - 7,
            from <= to <= v.len(),
            s == v@.subrange(from as int, to as int),
            i > gap ==> s[gap as int] == '_',
            forall|j: int| 0 <= j < i && j != gap ==> 48 <= (#[trigger] s[j]) as u32 <= 57,
        decreases n - i,
    {
        let c: char = v[from + i];
        assert(s[i as int] == c);
        let fits = if i == gap {
            c == '_'
        } else {
            48 <= c as u32 && c as u32 <= 57
        };
        if !fits {
            return false;
        }
        i = i + 1;
    }
    true
}

/// Finds where an underscore last stands before a place.
pub fn underscore_before(v: &Vec<char>, end: usize) -> (r: Option<usize>)
    requires
        end <= v.len(),
    ensures
        match r {
            Some(i) => i < end && last_position(v@.take(end as int), '_') == i,
            None => last_position(v@.take(end as int), '_') == -1,
        },
{
    let ghost s = v@.take(end as int);
    let mut i: usize = end;
    while i > 0 && v[i - 1] != '_'
        invariant
            i <= end <= v.len(),
            s == v@.take(end as int),
            forall|j: int| i <= j < end ==> s[j] != '_',
        decreases i,
    {
        i = i - 1;
    }
    proof {
        lemma_last_position(s, '_', i - 1);
    }
    if i > 0 {
        Some(i - 1)
    } else {
        None
    }
}

/// Finds the timestamp at the end of the first characters.
pub fn find_stamp(v: &Vec<char>, end: usize) -> (r: Option<usize>)
    requires
        end <= v.len(),
    ensures
        match r {
            Some(i) => i < end && stamp_place(v@.take(end as int)) == i,
            None => stamp_place(v@.take(end as int)) == -1,
        },
{
    let ghost stem = v@.take(end as int);
    let last: usize = match underscore_before(v, end) {
        Some(i) => i,
        None => {
            return None;
        },
    };
    assert(stem.take(last as int) =~= v@.take(last as int));
    match underscore_before(v, last) {
        Some(place) => {
            assert(stem.skip(place + 1) =~= v@.subrange(place + 1, end as int));
            if stamp_between(v, place + 1, end) {
                Some(place)
            } else {
                None
            }
        },
        None => None,
    }
}

// ── The latest snapshot ──────────────────────────────────────────────

/// A name without its extension.
pub open spec fn stem_of(name: Seq<char>) -> Seq<char> {
    name.take(name.len() - 4)
}

/// Whether a name has the form `<prefix>_*.tsv`.
pub open spec fn named_for(name: Seq<char>, prefix: Seq<char>) -> bool {
    (prefix + seq!['_']).is_prefix_of(name) && ".tsv"@.is_suffix_of(name)
}

/// The timestamp in the name of a snapshot with a given prefix. Where the
/// timestamp stands behind a longer prefix, the snapshot is of another target.
pub open spec fn stamp_in(name: Seq<char>, prefix: Seq<char>) -> Option<Seq<char>> {
    if named_for(name, prefix) && stamp_place(stem_of(name)) == prefix.len() {
        Some(stem_of(name).skip(prefix.len() as int + 1))
    } else {
        None
    }
}

/// Whether a name with a given prefix ends in no timestamp at all, as that of a
/// snapshot which was given its name by hand.
pub open spec fn undated(name: Seq<char>, prefix: Seq<char>) -> bool {
    named_for(name, prefix) && stamp_place(stem_of(name)) == -1
}

/// Whether a name holds a timestamp behind the prefix, and none of the names that
/// do has a later one.
pub open spec fn is_latest(names: Seq<Seq<char>>, prefix: Seq<char>, name: Seq<char>) -> bool {
    &&& names.contains(name)
    &&& stamp_in(name, prefix) is Some
    &&& forall|i: int|
        0 <= i < names.len() ==> (stamp_in(#[trigger] names[i], prefix) matches Some(s) ==> stamp_le(
            s,
            stamp_in(name, prefix)->0,
        ))
}

/// Whether none of the names holds a timestamp behind the prefix, and a name is
/// the last, as a text, of those without one.
pub open spec fn is_last_undated(names: Seq<Seq<char>>, prefix: Seq<char>, name: Seq<char>) -> bool {
    &&& names.contains(name)
    &&& undated(name, prefix)
    &&& forall|i: int|
        0 <= i < names.len() ==> {
            &&& stamp_in(#[trigger] names[i], prefix) is None
            &&& undated(names[i], prefix) ==> text_le(names[i], name)
        }
}

/// Whether a name is that of the most recent snapshot: the one with the latest
/// timestamp, or where none has one, the last without.
pub open spec fn most_recent(names: Seq<Seq<char>>, prefix: Seq<char>, name: Seq<char>) -> bool {
    is_latest(names, prefix, name) || is_last_undated(names, prefix, name)
}

/// What the name of a file says of a snapshot with a given prefix.
pub enum NameKind {
    Dated(String),
    Undated,
    Foreign,
}

/// Reads what the name of a file says of a snapshot with a given prefix.
pub fn read_name(name: &str, prefix: &str) -> (r: NameKind)
    ensures
        match r {
            NameKind::Dated(s) => stamp_in(name@, prefix@) == Some(s@) && !undated(name@, prefix@),
            NameKind::Undated => undated(name@, prefix@) && stamp_in(name@, prefix@) is None,
            NameKind::Foreign => !undated(name@, prefix@) && stamp_in(name@, prefix@) is None,
        },
{
    let head = prefix.to_owned().concat("_");
    proof {
        reveal_strlit("_");
        reveal_strlit(".tsv");
        assert("_"@ =~= seq!['_']);
    }
    if !starts_with(name, head.as_str()) || !ends_with(name, ".tsv") {
        return NameKind::Foreign;
    }
    let v = chars(name);
    let n: usize = chars(prefix).len();
    let end: usize = v.len() - 4;
    match find_stamp(&v, end) {
        Some(i) => if i == n {
            let s = substring(&v, i + 1, end);
            assert(s@ =~= stem_of(name@).skip(n + 1));
            NameKind::Dated(s)
        } else {
            NameKind::Foreign
        },
        None => NameKind::Undated,
    }
}

/// The names of files, as their models.
pub open spec fn names_of(names: Seq<String>) -> Seq<Seq<char>> {
    crate::lines::texts(names)
}

/// Finds the most recent snapshot of a target among the names in the directory
/// of snapshots, and gives its path. Names with a timestamp come before those
/// without; the snapshots of other targets are left out.
pub fn find_latest_snapshot(dir: &str, canonical: &str, names: &Vec<String>) -> (r: Option<String>)
    ensures
        match r {
            Some(path) => exists|name: Seq<char>|
                most_recent(names_of(names@), sanitized(canonical@), name) && path@ == dir@ + "/"@
                    + name,
            None => forall|i: int|
                0 <= i < names.len() ==> {
                    &&& stamp_in((#[trigger] names@[i])@, sanitized(canonical@)) is None
                    &&& !undated(names@[i]@, sanitized(canonical@))
                },
        },
{
    let prefix = sanitize_path(canonical);
    let mut best: Option<(usize, String)> = None;
    let mut plain: Option<usize> = None;
    let mut i: usize = 0;
    while i < names.len()
        invariant
            i <= names.len(),
            prefix@ == sanitized(canonical@),
            match best {
                Some((b, s)) => {
                    &&& b < i
                    &&& stamp_in(names@[b as int]@, prefix@) == Some(s@)
                    &&& forall|j: int|
                        0 <= j < i ==> (stamp_in((#[trigger] names@[j])@, prefix@) matches Some(
                            t,
                        ) ==> stamp_le(t, s@))
                },
                None => forall|j: int|
                    0 <= j < i ==> stamp_in((#[trigger] names@[j])@, prefix@) is None,
            },
            match plain {
                Some(b) => {
                    &&& b < i
                    &&& undated(names@[b as int]@, prefix@)
                    &&& forall|j: int|
                        0 <= j < i && undated((#[trigger] names@[j])@, prefix@) ==> text_le(
                            names@[j]@,
                            names@[b as int]@,
                        )
                },
                None => forall|j: int| 0 <= j < i ==> !undated((#[trigger] names@[j])@, prefix@),
            },
        decreases names.len() - i,
    {
        let name: &String = &names[i];
        match read_name(name.as_str(), prefix.as_str()) {
            NameKind::Dated(s) => {
                let take = match &best {
                    Some((_, t)) => stamp_at_most(t.as_str(), s.as_str()),
                    None => true,
                };
                proof {
                    lemma_stamp_total(s@, s@);
                    if let Some((_, t)) = &best {
                        lemma_stamp_total(s@, t@);
                        if take {
                            assert forall|j: int| 0 <= j < i implies (stamp_in(
                                (#[trigger] names@[j])@,
                                prefix@,
                            ) matches Some(u) ==> stamp_le(u, s@)) by {
                                if let Some(u) = stamp_in(names@[j]@, prefix@) {
                                    lemma_stamp_transitive(u, t@, s@);
                                }
                            }
                        }
                    }
                }
                if take {
                    best = Some((i, s));
                }
            },
            NameKind::Undated => {
                let take = match plain {
                    Some(b) => text_at_most(names[b].as_str(), name.as_str()),
                    None => true,
                };
                proof {
                    lemma_text_total(name@, name@);
                    if let Some(b) = plain {
                        let t = names@[b as int]@;
                        lemma_text_total(name@, t);
                        if take {
                            assert forall|j: int|
                                0 <= j < i && undated((#[trigger] names@[j])@, prefix@) implies text_le(
                                names@[j]@,
                                name@,
                            ) by {
                                lemma_text_transitive(names@[j]@, t, name@);
                            }
                        }
                    }
                }
                if take {
                    plain = Some(i);
                }
            },
            NameKind::Foreign => {},
        }
        i = i + 1;
    }
    let ghost all = names_of(names@);
    assert(forall|j: int| 0 <= j < all.len() ==> (#[trigger] all[j]) == names@[j]@);
    match best {
        Some((b, s)) => {
            let path = dir.to_owned().concat("/").concat(names[b].as_str());
            proof {
                assert(all[b as int] == names@[b as int]@);
                assert(is_latest(all, sanitized(canonical@), names@[b as int]@));
            }
            Some(path)
        },
        None => match plain {
            Some(b) => {
                let path = dir.to_owned().concat("/").concat(names[b].as_str());
                proof {
                    assert(all[b as int] == names@[b as int]@);
                    assert(is_last_undated(all, sanitized(canonical@), names@[b as int]@));
                }
                Some(path)
            },
            None => None,
        },
    }
}

/// A name that is made of a prefix and a timestamp holds that timestamp.
pub proof fn lemma_stamp_in_name(prefix: Seq<char>, stamp: Seq<char>)
    requires
        is_stamp(stamp),
    ensures
        stem_of(snapshot_name(prefix, stamp)) == prefix + seq!['_'] + stamp,
        stamp_in(snapshot_name(prefix, stamp), prefix) == Some(stamp),
{
    reveal_strlit("_");
    reveal_strlit(".tsv");
    let name = snapshot_name(prefix, stamp);
    let n = prefix.len() as int;
    assert("_"@ =~= seq!['_']);
    assert(stem_of(name) =~= prefix + seq!['_'] + stamp);
    assert(prefix + seq!['_'] =~= name.subrange(0, n + 1));
    assert(".tsv"@ =~= name.subrange(name.len() - 4, name.len() as int));
    lemma_stamp_place(prefix, stamp);
}

/// The timestamp of a time has the form of one.
#[verifier::rlimit(40)]
pub proof fn lemma_timestamp_is_stamp(t: LocalTime)
    requires
        t.common(),
    ensures
        is_stamp(timestamp(t)),
{
    assert(pow(10, 2) == 100) by {
        reveal_with_fuel(pow, 3);
    }
    let w = year_width(t) as int;
    let y = zero_padded((t.year + 1900) as nat, year_width(t));
    let m = zero_padded((t.month + 1) as nat, 2);
    let d = zero_padded(t.day as nat, 2);
    let h = zero_padded(t.hour as nat, 2);
    let n = zero_padded(t.minute as nat, 2);
    let s = zero_padded(t.second as nat, 2);
    lemma_year_width(t);
    lemma_timestamp_len(t);
    lemma_padded_shape((t.year + 1900) as nat, year_width(t));
    lemma_padded_shape((t.month + 1) as nat, 2);
    lemma_padded_shape(t.day as nat, 2);
    lemma_padded_shape(t.hour as nat, 2);
    lemma_padded_shape(t.minute as nat, 2);
    lemma_padded_shape(t.second as nat, 2);
    lemma_decimal((t.year + 1900) as nat);
    let stamp = timestamp(t);
    assert(stamp == y + m + d + seq!['_'] + h + n + s);
    assert forall|i: int| 0 <= i < stamp.len() && i != stamp.len() - 7 implies 48 <= (
    #[trigger] stamp[i]) as u32 <= 57 by {
        if i < w {
            assert(stamp[i] == y[i]);
        } else if i < w + 2 {
            assert(stamp[i] == m[i - w]);
        } else if i < w + 4 {
            assert(stamp[i] == d[i - w - 2]);
        } else if i < w + 7 {
            assert(stamp[i] == h[i - w - 5]);
        } else if i < w + 9 {
            assert(stamp[i] == n[i - w - 7]);
        } else {
            assert(stamp[i] == s[i - w - 9]);
        }
    }
}

/// A time that is not after another has no later timestamp.
proof fn lemma_not_after(a: LocalTime, b: LocalTime)
    requires
        a.common(),
        b.common(),
        !b.before(a),
    ensures
        stamp_le(timestamp(a), timestamp(b)),
{
    if a.before(b) {
        law_timestamps_sort_by_time(a, b);
    } else {
        assert(a == b);
        lemma_stamp_total(timestamp(a), timestamp(a));
    }
}

/// The names of the snapshots of a target that were made at some times.
pub open spec fn names_at(path: Seq<char>, times: Seq<LocalTime>) -> Seq<Seq<char>> {
    Seq::new(
        times.len(),
        |i: int| snapshot_name(sanitized(path), timestamp(times[i])),
    )
}

/// Among snapshots of one target, whatever other files there are, the most
/// recent is the one that no other was made after.
pub proof fn law_latest_is_newest(
    path: Seq<char>,
    times: Seq<LocalTime>,
    i: int,
    others: Seq<Seq<char>>,
)
    requires
        forall|j: int| 0 <= j < times.len() ==> (#[trigger] times[j]).common(),
        0 <= i < times.len(),
        forall|j: int| 0 <= j < times.len() ==> !times[i].before(#[trigger] times[j]),
        forall|j: int|
            0 <= j < others.len() ==> stamp_in(#[trigger] others[j], sanitized(path)) is None,
    ensures
        most_recent(names_at(path, times) + others, sanitized(path), names_at(path, times)[i]),
{
    let prefix = sanitized(path);
    let made = names_at(path, times);
    let names = made + others;
    lemma_timestamp_is_stamp(times[i]);
    lemma_stamp_in_name(prefix, timestamp(times[i]));
    assert(names[i] == made[i]);
    assert(names.contains(made[i]));
    assert forall|j: int| 0 <= j < names.len() implies (stamp_in(
        #[trigger] names[j],
        prefix,
    ) matches Some(s) ==> stamp_le(s, stamp_in(made[i], prefix)->0)) by {
        if j < made.len() {
            assert(names[j] == snapshot_name(prefix, timestamp(times[j])));
            lemma_timestamp_is_stamp(times[j]);
            lemma_stamp_in_name(prefix, timestamp(times[j]));
            lemma_not_after(times[j], times[i]);
        } else {
            assert(names[j] == others[j - made.len()]);
        }
    }
    assert(is_latest(names, prefix, made[i]));
}

/// The snapshot of a target with another prefix is never taken for one of this.
pub proof fn law_other_targets_are_not_taken(
    names: Seq<Seq<char>>,
    prefix: Seq<char>,
    other: Seq<char>,
    stamp: Seq<char>,
)
    requires
        prefix != other,
        is_stamp(stamp),
    ensures
        !most_recent(names, prefix, snapshot_name(other, stamp)),
{
    let name = snapshot_name(other, stamp);
    lemma_stamp_in_name(other, stamp);
    lemma_stamp_place(other, stamp);
    if stamp_in(name, prefix) is Some {
        assert(other.len() == prefix.len());
        let head = prefix + seq!['_'];
        assert forall|i: int| 0 <= i < prefix.len() implies prefix[i] == other[i] by {
            assert(head[i] == name.subrange(0, head.len() as int)[i]);
            assert(name[i] == other[i]);
        }
        assert(prefix =~= other);
    }
}

/// There is one most recent snapshot.
pub proof fn law_latest_is_unique(
    names: Seq<Seq<char>>,
    prefix: Seq<char>,
    a: Seq<char>,
    b: Seq<char>,
)
    requires
        most_recent(names, prefix, a),
        most_recent(names, prefix, b),
    ensures
        a == b,
{
    let i = choose|i: int| 0 <= i < names.len() && names[i] == a;
    let j = choose|j: int| 0 <= j < names.len() && names[j] == b;
    assert(names[i] == a && names[j] == b);
    if is_last_undated(names, prefix, a) {
        lemma_text_antisymmetric(a, b);
    } else {
        let s = stamp_in(a, prefix)->0;
        let t = stamp_in(b, prefix)->0;
        lemma_stamp_total(s, t);
        lemma_name_parts(a, prefix);
        lemma_name_parts(b, prefix);
    }
}

/// A name that holds a timestamp behind a prefix is made of the two.
proof fn lemma_name_parts(name: Seq<char>, prefix: Seq<char>)
    requires
        stamp_in(name, prefix) is Some,
    ensures
        name == snapshot_name(prefix, stamp_in(name, prefix)->0),
{
    reveal_strlit("_");
    reveal_strlit(".tsv");
    let s = stamp_in(name, prefix)->0;
    let head = prefix + seq!['_'];
    let n = name.len() as int;
    let h = head.len() as int;
    let end = ".tsv"@;
    let made = snapshot_name(prefix, s);
    assert("_"@ =~= seq!['_']);
    assert(head == name.subrange(0, h));
    assert(end == name.subrange(n - 4, n));
    assert(made.len() == n);
    assert forall|k: int| 0 <= k < n implies name[k] == made[k] by {
        if k < h {
            assert(name.subrange(0, h)[k] == name[k]);
            assert(made[k] == head[k]);
        } else if k < n - 4 {
            assert(s[k - h] == name[k]);
        } else {
            assert(name.subrange(n - 4, n)[k - (n - 4)] == name[k]);
        }
    }
    assert(name =~= made);
}

// ── Laws on names ────────────────────────────────────────────────────

/// Slashes at the ends of a path change nothing of its prefix, and a path of
/// nothing else is the root.
pub proof fn law_slashes_at_the_ends_do_not_count(before: Seq<char>, path: Seq<char>, after: Seq<char>)
    requires
        forall|i: int| 0 <= i < before.len() ==> before[i] == '/',
        forall|i: int| 0 <= i < after.len() ==> after[i] == '/',
    ensures
        sanitized(before + path + after) == sanitized(path),
        sanitized(before) == "root"@,
{
    let p = |c: char| c == '/';
    law_trimming_ignores_the_ends(before, path, after, p);
    law_trimming_ignores_the_ends(before, Seq::empty(), Seq::empty(), p);
    assert(before + Seq::<char>::empty() + Seq::<char>::empty() =~= before);
    reveal_with_fuel(trimmed_start, 2);
    reveal_with_fuel(trimmed_end, 2);
    assert(trimmed(Seq::<char>::empty(), p) =~= Seq::<char>::empty());
}

/// The prefix of a path that neither begins nor ends with a slash is as long as
/// the path, and agrees with it in every place, but for underscores in place of
/// slashes.
pub proof fn law_prefix_keeps_the_path(path: Seq<char>)
    requires
        path.len() > 0,
        path[0] != '/',
        path.last() != '/',
    ensures
        sanitized(path).len() == path.len(),
        forall|i: int|
            0 <= i < path.len() ==> (#[trigger] sanitized(path)[i]) == if path[i] == '/' {
                '_'
            } else {
                path[i]
            },
{
    let p = |c: char| c == '/';
    lemma_trimmed_start(path, p, 0);
    assert(path.skip(0) =~= path);
    lemma_trimmed_end(path, p, path.len() as int);
    assert(path.take(path.len() as int) =~= path);
}

/// Paths that hold no underscore and neither begin nor end with a slash have the
/// same prefix only where they are the same.
pub proof fn law_prefix_tells_the_path(a: Seq<char>, b: Seq<char>)
    requires
        a.len() > 0,
        a[0] != '/',
        a.last() != '/',
        b.len() > 0,
        b[0] != '/',
        b.last() != '/',
        forall|i: int| 0 <= i < a.len() ==> a[i] != '_',
        forall|i: int| 0 <= i < b.len() ==> b[i] != '_',
        sanitized(a) == sanitized(b),
    ensures
        a == b,
{
    law_prefix_keeps_the_path(a);
    law_prefix_keeps_the_path(b);
    assert(a.len() == b.len());
    assert forall|i: int| 0 <= i < a.len() implies a[i] == b[i] by {
        let x = sanitized(a)[i];
        let y = sanitized(b)[i];
        assert(x == y);
        assert(a[i] != '_' && b[i] != '_');
        assert(x == if a[i] == '/' {
            '_'
        } else {
            a[i]
        });
        assert(y == if b[i] == '/' {
            '_'
        } else {
            b[i]
        });
    }
    assert(a =~= b);
}

/// A snapshot file is named by its prefix, its timestamp and its extension.
pub proof fn law_name_is_prefix_and_stamp(prefix: Seq<char>, stamp: Seq<char>)
    ensures
        snapshot_name(prefix, stamp) == prefix + seq!['_'] + stamp + seq!['.', 't', 's', 'v'],
{
    reveal_strlit("_");
    reveal_strlit(".tsv");
    assert(snapshot_name(prefix, stamp) =~= prefix + seq!['_'] + stamp + seq!['.', 't', 's', 'v']);
}

/// A timestamp is a date of eight digits or more, an underscore, and a time of
/// six digits; a date of more than eight digits has no zero in front.
pub proof fn law_stamp_is_date_and_time(date: Seq<char>, time: Seq<char>, s: Seq<char>)
    ensures
        date.len() >= 8 && time.len() == 6 && all_digits(date) && all_digits(time) && (date.len()
            == 8 || date[0] != '0') ==> is_stamp(date + seq!['_'] + time),
        is_stamp(s) ==> s.len() >= 15 && s[s.len() - 7] == '_' && all_digits(
            s.take(s.len() - 7),
        ) && all_digits(s.skip(s.len() - 6)) && (s.len() == 15 || s[0] != '0'),
{
    if date.len() >= 8 && time.len() == 6 && all_digits(date) && all_digits(time) && (date.len() == 8
        || date[0] != '0') {
        let t = date + seq!['_'] + time;
        assert forall|i: int| 0 <= i < t.len() && i != t.len() - 7 implies 48 <= (
        #[trigger] t[i]) as u32 <= 57 by {
            if i < date.len() {
                assert(t[i] == date[i]);
            } else {
                assert(t[i] == time[i - date.len() - 1]);
            }
        }
    }
    if is_stamp(s) {
        assert forall|i: int| 0 <= i < s.len() - 7 implies 48 <= (#[trigger] s.take(
            s.len() - 7,
        )[i]) as u32 <= 57 by {
            assert(s.take(s.len() - 7)[i] == s[i]);
        }
        assert forall|i: int| 0 <= i < 6 implies 48 <= (#[trigger] s.skip(s.len() - 6)[i]) as u32
            <= 57 by {
            assert(s.skip(s.len() - 6)[i] == s[s.len() - 6 + i]);
        }
    }
}

/// Where no name holds a timestamp behind the prefix, the most recent snapshot is
/// the one with the last name of those that were given by hand.
#[verifier::rlimit(40)]
pub proof fn law_undated_names_stand_in(
    names: Seq<Seq<char>>,
    prefix: Seq<char>,
    given: Seq<char>,
    other: Seq<char>,
)
    requires
        forall|i: int| 0 <= i < given.len() ==> given[i] != '_',
        exists|i: int| 0 <= i < given.len() && !(48 <= #[trigger] (given[i] as u32) <= 57),
        names.contains(snapshot_name(prefix, given)),
        forall|i: int| 0 <= i < names.len() ==> stamp_in(#[trigger] names[i], prefix) is None,
        forall|i: int|
            0 <= i < names.len() && (prefix + seq!['_']).is_prefix_of(#[trigger] names[i])
                ==> text_le(names[i], snapshot_name(prefix, given)),
    ensures
        most_recent(names, prefix, snapshot_name(prefix, given)),
{
    reveal_strlit("_");
    reveal_strlit(".tsv");
    let name = snapshot_name(prefix, given);
    let stem = stem_of(name);
    let n = prefix.len() as int;
    assert("_"@ =~= seq!['_']);
    assert(stem =~= prefix + seq!['_'] + given);
    assert(prefix + seq!['_'] =~= name.subrange(0, n + 1));
    assert(".tsv"@ =~= name.subrange(name.len() - 4, name.len() as int));
    assert forall|j: int| n < j < stem.len() implies stem[j] != '_' by {
        assert(stem[j] == given[j - n - 1]);
    }
    lemma_last_position(stem, '_', n);
    let place = last_position(stem.take(n), '_');
    if 0 <= place < n && is_stamp(stem.skip(place + 1)) {
        let s = stem.skip(place + 1);
        let gap = n - place - 1;
        assert(s[gap] == '_');
        assert(gap == s.len() - 7);
        let i = choose|i: int|
            0 <= i < given.len() && !(48 <= #[trigger] (given[i] as u32) <= 57);
        assert(s[gap + 1 + i] == given[i]);
        assert(false);
    }
    assert(undated(name, prefix));
    assert(is_last_undated(names, prefix, name));
}

/// The most recent snapshot is one of the names, begins with the prefix and an
/// underscore, and has the extension of snapshots; with a timestamp behind the
/// prefix where any of the names has one.
pub proof fn law_most_recent_is_named_for_the_target(
    names: Seq<Seq<char>>,
    prefix: Seq<char>,
    name: Seq<char>,
    stamp: Seq<char>,
)
    requires
        most_recent(names, prefix, name),
    ensures
        names.contains(name),
        (prefix + seq!['_']).is_prefix_of(name),
        seq!['.', 't', 's', 'v'].is_suffix_of(name),
        is_stamp(stamp) && names.contains(snapshot_name(prefix, stamp)) ==> exists|s: Seq<char>|
            #[trigger] is_stamp(s) && name == snapshot_name(prefix, s) && stamp_le(stamp, s),
{
    reveal_strlit(".tsv");
    assert(".tsv"@ =~= seq!['.', 't', 's', 'v']);
    if is_stamp(stamp) && names.contains(snapshot_name(prefix, stamp)) {
        lemma_stamp_in_name(prefix, stamp);
        let i = choose|i: int| 0 <= i < names.len() && names[i] == snapshot_name(prefix, stamp);
        assert(stamp_in(names[i], prefix) is Some);
        lemma_name_parts(name, prefix);
        let s = stamp_in(name, prefix)->0;
        assert(is_stamp(s)) by {
            assert(stamp_place(stem_of(name)) == prefix.len());
        }
        assert(stamp_le(stamp, s));
    }
}

} // verus!
