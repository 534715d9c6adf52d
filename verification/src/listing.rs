//! The list of all snapshots.
use crate::catalog::{
    find_stamp, is_stamp, lemma_stamp_in_name, lemma_stamp_place, snapshot_name, stamp_place,
    underscore_before,
};
use crate::lines::{
    last_position, law_lines_are_the_text, lemma_last_position, lines, one_line, read_text, readable,
};
use crate::localtime::{format_timestamp, timestamp, LocalTime};
use crate::order::{
    is_sorted_order, lemma_text_antisymmetric, lemma_text_total, lemma_text_transitive, precedes,
    sort_order, text_at_most, text_le, Sortable,
};
use crate::snapshot::{
    all_one_line, count_entries, entry_count, find_header, first_header, law_snapshot_round_trip,
    law_written_files_are_listed, snapshot_text, HashedFile,
};
use crate::text::{chars, ends_with, replace, replaced, substring};
use vstd::prelude::*;
use vstd::string::*;
use vstd::utf8::{
    decode_utf8, encode_utf8, encode_utf8_decode_utf8, encode_utf8_valid_utf8, valid_utf8,
};

verus! {

/// A file in the directory of snapshots: its name and path, its content where it
/// could be read, and the time in its header as local time.
pub struct SnapshotFile {
    pub name: String,
    pub path: String,
    pub content: Option<Vec<u8>>,
    pub time: LocalTime,
}

/// A snapshot in the list: what it is of, where it is, when it was made, and how
/// many files it holds.
pub struct ListedSnapshot {
    pub display: String,
    pub file_path: String,
    pub stamp: String,
    pub count: u64,
}

/// A snapshot in the list, as its model.
pub struct ListedView {
    pub display: Seq<char>,
    pub file_path: Seq<char>,
    pub stamp: Seq<char>,
    pub count: u64,
}

impl View for ListedSnapshot {
    type V = ListedView;

    open spec fn view(&self) -> ListedView {
        ListedView {
            display: self.display@,
            file_path: self.file_path@,
            stamp: self.stamp@,
            count: self.count,
        }
    }
}

// ── What a snapshot is of ────────────────────────────────────────────

/// A text without a suffix, as often as it ends with it.
pub open spec fn without_suffix(s: Seq<char>, suffix: Seq<char>) -> Seq<char>
    decreases s.len(),
{
    if 0 < suffix.len() <= s.len() && suffix.is_suffix_of(s) {
        without_suffix(s.take(s.len() - suffix.len()), suffix)
    } else {
        s
    }
}

/// What stands before the last underscore, or all where there is none.
pub open spec fn before_last(s: Seq<char>, c: char) -> Seq<char> {
    let i = last_position(s, c);
    if 0 <= i < s.len() {
        s.take(i)
    } else {
        s
    }
}

/// The target in the name of a snapshot: what stands before the timestamp, or
/// before the last underscore where there is no timestamp.
pub open spec fn target_part(stem: Seq<char>) -> Seq<char> {
    if stamp_place(stem) >= 0 {
        stem.take(stamp_place(stem))
    } else {
        before_last(stem, '_')
    }
}

/// What a snapshot is of: its scope, or where it has none the target in its name,
/// with slashes for underscores.
pub open spec fn display_of(name: Seq<char>, scope: Seq<char>) -> Seq<char> {
    if scope.len() > 0 {
        scope
    } else {
        replaced(target_part(without_suffix(name, ".tsv"@)), '_', '/')
    }
}

/// Without a scope, a snapshot is of what its name was made of, whenever it was
/// made: all snapshots of a target are shown as one.
pub proof fn law_display_is_the_target(prefix: Seq<char>, s: Seq<char>, t: Seq<char>)
    requires
        is_stamp(s),
        is_stamp(t),
    ensures
        display_of(snapshot_name(prefix, s), Seq::empty()) == replaced(prefix, '_', '/'),
        display_of(snapshot_name(prefix, s), Seq::empty()) == display_of(
            snapshot_name(prefix, t),
            Seq::empty(),
        ),
{
    lemma_target_in_name(prefix, s);
    lemma_target_in_name(prefix, t);
}

/// The target in a name that was made of a prefix and a timestamp is the prefix.
proof fn lemma_target_in_name(prefix: Seq<char>, stamp: Seq<char>)
    requires
        is_stamp(stamp),
    ensures
        target_part(without_suffix(snapshot_name(prefix, stamp), ".tsv"@)) == prefix,
{
    reveal_strlit(".tsv");
    let name = snapshot_name(prefix, stamp);
    let stem = prefix + seq!['_'] + stamp;
    let end = ".tsv"@;
    lemma_stamp_in_name(prefix, stamp);
    lemma_stamp_place(prefix, stamp);
    assert(end =~= name.subrange(name.len() - 4, name.len() as int));
    assert(stem.last() == stamp.last());
    if end.is_suffix_of(stem) {
        assert(stem.subrange(stem.len() - 4, stem.len() as int)[3] == stem.last());
        assert(end[3] == 'v');
    }
    assert(without_suffix(stem, end) == stem);
}

/// Says what a snapshot is of.
pub fn display_path(name: &str, scope: &str) -> (r: String)
    ensures
        r@ == display_of(name@, scope@),
{
    if !scope.is_empty() {
        return scope.to_owned();
    }
    let v = chars(name);
    let mut end: usize = v.len();
    proof {
        reveal_strlit(".tsv");
        assert(name@.take(name@.len() as int) =~= name@);
    }
    let mut trimming = true;
    while trimming
        invariant
            v@ == name@,
            end <= v.len(),
            ".tsv"@.len() == 4,
            without_suffix(name@, ".tsv"@) == without_suffix(name@.take(end as int), ".tsv"@),
            !trimming ==> without_suffix(name@, ".tsv"@) == name@.take(end as int),
        decreases
                end,
                if trimming {
                    1int
                } else {
                    0int
                },
    {
        let t = substring(&v, 0, end);
        assert(t@ =~= name@.take(end as int));
        if end >= 4 && ends_with(t.as_str(), ".tsv") {
            assert(t@.take(end - 4) =~= name@.take(end - 4));
            end = end - 4;
        } else {
            trimming = false;
        }
    }
    let ghost stem = name@.take(end as int);
    let cut: usize = match find_stamp(&v, end) {
        Some(i) => i,
        None => match underscore_before(&v, end) {
            Some(i) => i,
            None => end,
        },
    };
    let head = substring(&v, 0, cut);
    assert(head@ =~= target_part(stem));
    replace(head.as_str(), '_', '/')
}

// ── The list ─────────────────────────────────────────────────────────

/// A content, as its model.
pub open spec fn content_view(content: Option<Vec<u8>>) -> Option<Seq<u8>> {
    match content {
        Some(b) => Some(b@),
        None => None,
    }
}

/// The header that can be read in the content of a file, line by line up to it;
/// zeros and no scope where all lines can be read and none is a header.
pub open spec fn header_in(content: Option<Seq<u8>>) -> Option<(u64, u64, Seq<char>)> {
    match content {
        Some(b) => {
            let (text, whole) = readable(b);
            match first_header(lines(text)) {
                Some(h) => Some(h),
                None => if whole {
                    Some((0, 0, Seq::empty()))
                } else {
                    None
                },
            }
        },
        None => None,
    }
}

/// How many files the content of a file lists; none where it is not a text as a
/// whole.
pub open spec fn count_in(content: Option<Seq<u8>>) -> u64 {
    match content {
        Some(b) => {
            let (text, whole) = readable(b);
            if whole {
                entry_count(lines(text)) as u64
            } else {
                0
            }
        },
        None => 0,
    }
}

/// The header and the number of files that a content lists.
fn read_content(content: &Option<Vec<u8>>) -> (r: (Option<(u64, u64, String)>, u64))
    ensures
        match r.0 {
            Some((timestamp, count, scope)) => header_in(content_view(*content)) == Some(
                (timestamp, count, scope@),
            ),
            None => header_in(content_view(*content)) is None,
        },
        r.1 == count_in(content_view(*content)),
{
    match content {
        Some(b) => {
            let (text, whole) = read_text(b.as_slice());
            let count: u64 = if whole {
                count_entries(text.as_str())
            } else {
                0
            };
            match find_header(text.as_str()) {
                Some(h) => (Some(h), count),
                None => if whole {
                    let none = String::new();
                    assert(none@ =~= Seq::<char>::empty());
                    (Some((0, 0, none)), count)
                } else {
                    (None, count)
                },
            }
        },
        None => (None, 0),
    }
}

/// Reads the header in the content of a file: the timestamp, the file count and
/// the path.
pub fn snapshot_header(content: &Option<Vec<u8>>) -> (r: Option<(u64, u64, String)>)
    ensures
        match r {
            Some((timestamp, count, scope)) => header_in(content_view(*content)) == Some(
                (timestamp, count, scope@),
            ),
            None => header_in(content_view(*content)) is None,
        },
{
    read_content(content).0
}

/// The entry of a file in the list: none unless it is named as a snapshot and
/// its header can be read.
pub open spec fn listed(f: SnapshotFile) -> Option<ListedView> {
    match header_in(content_view(f.content)) {
        Some((_, _, scope)) if ".tsv"@.is_suffix_of(f.name@) => Some(
            ListedView {
                display: display_of(f.name@, scope),
                file_path: f.path@,
                stamp: timestamp(f.time),
                count: count_in(content_view(f.content)),
            },
        ),
        _ => None,
    }
}

/// The entries of files, in the files' order.
pub open spec fn listing(files: Seq<SnapshotFile>) -> Seq<ListedView>
    decreases files.len(),
{
    if files.len() == 0 {
        Seq::empty()
    } else {
        let before = listing(files.drop_last());
        match listed(files.last()) {
            Some(e) => before.push(e),
            None => before,
        }
    }
}

/// The order of the list: by what a snapshot is of, then path, time and count.
pub open spec fn listed_le(a: ListedView, b: ListedView) -> bool {
    if a.display != b.display {
        text_le(a.display, b.display)
    } else if a.file_path != b.file_path {
        text_le(a.file_path, b.file_path)
    } else if a.stamp != b.stamp {
        text_le(a.stamp, b.stamp)
    } else {
        a.count <= b.count
    }
}

impl Sortable for ListedSnapshot {
    open spec fn le(&self, other: &Self) -> bool {
        listed_le(self@, other@)
    }

    proof fn lemma_total(a: &Self, b: &Self) {
        lemma_text_total(a.display@, b.display@);
        lemma_text_total(a.file_path@, b.file_path@);
        lemma_text_total(a.stamp@, b.stamp@);
    }

    proof fn lemma_transitive(a: &Self, b: &Self, c: &Self) {
        lemma_chain(a.display@, b.display@, c.display@);
        lemma_chain(a.file_path@, b.file_path@, c.file_path@);
        lemma_chain(a.stamp@, b.stamp@, c.stamp@);
    }

    fn at_most(&self, other: &Self) -> (r: bool) {
        if self.display != other.display {
            text_at_most(self.display.as_str(), other.display.as_str())
        } else if self.file_path != other.file_path {
            text_at_most(self.file_path.as_str(), other.file_path.as_str())
        } else if self.stamp != other.stamp {
            text_at_most(self.stamp.as_str(), other.stamp.as_str())
        } else {
            self.count <= other.count
        }
    }
}

/// Texts in order stay in order over a third, and come back only when equal.
proof fn lemma_chain(a: Seq<char>, b: Seq<char>, c: Seq<char>)
    ensures
        text_le(a, b) && text_le(b, c) ==> text_le(a, c),
        text_le(a, b) && text_le(b, c) && a == c ==> a == b,
{
    if text_le(a, b) && text_le(b, c) {
        lemma_text_transitive(a, b, c);
        if a == c {
            lemma_text_antisymmetric(a, b);
        }
    }
}

/// Whether `order` takes each place of `all` once, and `out` holds what stands
/// there.
pub open spec fn rearranged(all: Seq<ListedView>, out: Seq<ListedView>, order: Seq<usize>) -> bool {
    &&& order.len() == all.len()
    &&& out.len() == all.len()
    &&& forall|x: usize| x < all.len() ==> #[trigger] order.contains(x)
    &&& forall|i: int|
        0 <= i < out.len() ==> (#[trigger] order[i]) < all.len() && out[i] == all[order[i] as int]
}

/// Whether `out` is `all`, sorted.
pub open spec fn sorted_listing(all: Seq<ListedView>, out: Seq<ListedView>) -> bool {
    &&& exists|order: Seq<usize>| rearranged(all, out, order)
    &&& forall|i: int, j: int|
        0 <= i < j < out.len() ==> listed_le(#[trigger] out[i], #[trigger] out[j])
}

/// Entries of the list, as their models.
pub open spec fn listed_views(v: Seq<ListedSnapshot>) -> Seq<ListedView> {
    v.map_values(|e: ListedSnapshot| e@)
}

/// Lists all snapshots, grouped by what they are of.
pub fn list_snapshots(files: &Vec<SnapshotFile>) -> (r: Vec<ListedSnapshot>)
    requires
        forall|i: int|
            0 <= i < files.len() && listed(#[trigger] files@[i]) is Some
                ==> files@[i].time.countable(),
    ensures
        sorted_listing(listing(files@), listed_views(r@)),
{
    let mut all: Vec<ListedSnapshot> = Vec::new();
    let mut i: usize = 0;
    proof {
        assert(files@.take(0) =~= Seq::<SnapshotFile>::empty());
        assert(listed_views(all@) =~= Seq::<ListedView>::empty());
    }
    while i < files.len()
        invariant
            i <= files.len(),
            forall|j: int|
                0 <= j < files.len() && listed(#[trigger] files@[j]) is Some
                    ==> files@[j].time.countable(),
            listed_views(all@) == listing(files@.take(i as int)),
        decreases files.len() - i,
    {
        let f: &SnapshotFile = &files[i];
        proof {
            assert(files@.take(i + 1).drop_last() =~= files@.take(i as int));
            assert(files@.take(i + 1).last() == *f);
        }
        let (header, count): (Option<(u64, u64, String)>, u64) = read_content(&f.content);
        if let Some((_, _, scope)) = header {
            if ends_with(f.name.as_str(), ".tsv") {
                let e = ListedSnapshot {
                    display: display_path(f.name.as_str(), scope.as_str()),
                    file_path: f.path.clone(),
                    stamp: format_timestamp(&f.time),
                    count,
                };
                let ghost before = all@;
                proof {
                    assert(listed_views(before.push(e)) =~= listed_views(before).push(e@));
                }
                all.push(e);
            }
        }
        i = i + 1;
    }
    assert(files@.take(i as int) =~= files@);
    let order = sort_order(&all);
    let mut r: Vec<ListedSnapshot> = Vec::new();
    let mut k: usize = 0;
    while k < order.len()
        invariant
            k <= order.len(),
            r.len() == k,
            is_sorted_order(all@, order@),
            forall|j: int| 0 <= j < k ==> (#[trigger] r@[j])@ == all@[order@[j] as int]@,
        decreases order.len() - k,
    {
        assert(order@[k as int] < all.len());
        let e: &ListedSnapshot = &all[order[k]];
        r.push(
            ListedSnapshot {
                display: e.display.clone(),
                file_path: e.file_path.clone(),
                stamp: e.stamp.clone(),
                count: e.count,
            },
        );
        k = k + 1;
    }
    proof {
        let out = listed_views(r@);
        let from = listing(files@);
        assert(forall|j: int| 0 <= j < out.len() ==> out[j] == r@[j]@);
        assert(forall|j: int| 0 <= j < from.len() ==> from[j] == all@[j]@);
        assert(rearranged(from, out, order@));
        assert forall|a: int, b: int| 0 <= a < b < out.len() implies listed_le(
            #[trigger] out[a],
            #[trigger] out[b],
        ) by {
            assert(precedes(all@, order@[a], order@[b]));
        }
    }
    r
}

/// The list is grouped by what snapshots are of: between two that are of the same
/// stand only such.
pub proof fn law_list_is_grouped(
    all: Seq<ListedView>,
    out: Seq<ListedView>,
    i: int,
    j: int,
    k: int,
)
    requires
        sorted_listing(all, out),
        0 <= i <= j <= k < out.len(),
        out[i].display == out[k].display,
    ensures
        out[j].display == out[i].display,
{
    if i < j && j < k && out[j].display != out[i].display {
        assert(listed_le(out[i], out[j]));
        assert(listed_le(out[j], out[k]));
        lemma_text_antisymmetric(out[i].display, out[j].display);
    }
}

// ── Laws ─────────────────────────────────────────────────────────────

/// A snapshot is of its scope where it has one, however its file is named.
pub proof fn law_scope_is_displayed(name: Seq<char>, scope: Seq<char>)
    requires
        scope.len() > 0,
    ensures
        display_of(name, scope) == scope,
{
}

/// A snapshot without a scope whose name was given by hand is of what stands
/// before the last underscore of its name, with slashes for underscores.
#[verifier::rlimit(40)]
pub proof fn law_given_name_is_displayed(before: Seq<char>, given: Seq<char>)
    requires
        forall|i: int| 0 <= i < given.len() ==> given[i] != '_',
        exists|i: int| 0 <= i < given.len() && !(48 <= #[trigger] (given[i] as u32) <= 57),
        given.last() != 'v',
    ensures
        display_of(before + seq!['_'] + given + seq!['.', 't', 's', 'v'], Seq::empty()) == replaced(
            before,
            '_',
            '/',
        ),
{
    reveal_strlit(".tsv");
    let end = ".tsv"@;
    assert(end =~= seq!['.', 't', 's', 'v']);
    let stem = before + seq!['_'] + given;
    let name = stem + end;
    let n = before.len() as int;
    assert(before + seq!['_'] + given + seq!['.', 't', 's', 'v'] =~= name);
    assert(end =~= name.subrange(name.len() - 4, name.len() as int));
    assert(name.take(name.len() - 4) =~= stem);
    assert(stem.last() == given.last());
    if end.is_suffix_of(stem) {
        assert(stem.subrange(stem.len() - 4, stem.len() as int)[3] == stem.last());
    }
    assert(without_suffix(stem, end) == stem);
    assert(without_suffix(name, end) == stem);
    assert forall|j: int| n < j < stem.len() implies stem[j] != '_' by {
        assert(stem[j] == given[j - n - 1]);
    }
    lemma_last_position(stem, '_', n);
    let place = last_position(stem.take(n), '_');
    if 0 <= place < n && is_stamp(stem.skip(place + 1)) {
        let s = stem.skip(place + 1);
        let gap = n - place - 1;
        assert(s[gap] == '_');
        assert(gap == s.len() - 7);
        let i = choose|i: int|
            0 <= i < given.len() && !(48 <= #[trigger] (given[i] as u32) <= 57);
        assert(s[gap + 1 + i] == given[i]);
        assert(false);
    }
    assert(stem.take(n) =~= before);
}

/// A file is listed exactly where its name ends in `.tsv` and a header can be
/// read in it; it is then listed by its own path, with its time.
pub proof fn law_snapshots_are_listed(files: Seq<SnapshotFile>, i: int)
    requires
        0 <= i < files.len(),
    ensures
        ({
            let f = files[i];
            let readable_header = header_in(content_view(f.content));
            &&& listed(f) is Some <==> ".tsv"@.is_suffix_of(f.name@) && readable_header is Some
            &&& ".tsv"@.is_suffix_of(f.name@) ==> (readable_header matches Some((_, _, scope)) ==> {
                let e = ListedView {
                    display: display_of(f.name@, scope),
                    file_path: f.path@,
                    stamp: timestamp(f.time),
                    count: count_in(content_view(f.content)),
                };
                listing(files).contains(e)
            })
        }),
        listing(files).len() == files.filter(|f: SnapshotFile| listed(f) is Some).len(),
    decreases files.len(),
{
    reveal(Seq::filter);
    let front = files.drop_last();
    let now = listing(files);
    let before = listing(front);
    if i < front.len() {
        law_snapshots_are_listed(front, i);
        assert(front[i] == files[i]);
        if let Some(e) = listed(files[i]) {
            assert(before.contains(e));
            let k = choose|k: int| 0 <= k < before.len() && before[k] == e;
            assert(now[k] == e);
        }
    } else {
        if front.len() > 0 {
            law_snapshots_are_listed(front, 0);
        } else {
            assert(front.filter(|f: SnapshotFile| listed(f) is Some).len() == 0);
        }
        if let Some(e) = listed(files[i]) {
            assert(now[before.len() as int] == e);
        }
    }
}

/// A snapshot that was written is read for the list as it was made: its time, how
/// many files it was made for, its scope, and how many it holds.
pub proof fn law_written_snapshot_is_read_for_the_list(
    timestamp: u64,
    scope: Seq<char>,
    results: Seq<Option<HashedFile>>,
)
    requires
        one_line(scope),
        all_one_line(results),
        results.len() <= u64::MAX,
    ensures
        ({
            let content = Some(encode_utf8(snapshot_text(timestamp, scope, results)));
            &&& header_in(content) == Some((timestamp, results.len() as u64, scope))
            &&& count_in(content) == results.filter(|r: Option<HashedFile>| r is Some).len()
        }),
{
    let text = snapshot_text(timestamp, scope, results);
    let bytes = encode_utf8(text);
    encode_utf8_valid_utf8(text);
    encode_utf8_decode_utf8(text);
    law_lines_are_the_text(bytes);
    law_snapshot_round_trip(timestamp, scope, results);
    law_written_files_are_listed(timestamp, scope, results);
    results.lemma_filter_len(|r: Option<HashedFile>| r is Some);
}

/// The header of a content is the first of the lines that can be read. Without
/// one, a content that is a text as a whole counts as one without time and scope,
/// and any other is not read, nor is what is no text counted.
pub proof fn law_header_is_in_the_readable_lines(bytes: Seq<u8>)
    ensures
        ({
            let (text, whole) = readable(bytes);
            &&& first_header(lines(text)) is Some ==> header_in(Some(bytes)) == first_header(
                lines(text),
            )
            &&& first_header(lines(text)) is None && valid_utf8(bytes) ==> header_in(Some(bytes))
                == Some((0u64, 0u64, Seq::<char>::empty()))
            &&& first_header(lines(text)) is None && !valid_utf8(bytes) ==> header_in(
                Some(bytes),
            ) is None
            &&& valid_utf8(bytes) ==> count_in(Some(bytes)) == entry_count(
                lines(decode_utf8(bytes)),
            ) as u64
            &&& !valid_utf8(bytes) ==> count_in(Some(bytes)) == 0
        }),
        header_in(None) is None,
        count_in(None) == 0,
{
    law_lines_are_the_text(bytes);
}

/// The list goes by what snapshots are of, then by path, then by time, then by
/// count.
pub proof fn law_list_goes_by_its_columns(a: ListedView, b: ListedView)
    ensures
        a.display != b.display ==> (listed_le(a, b) <==> text_le(a.display, b.display)),
        a.display == b.display && a.file_path != b.file_path ==> (listed_le(a, b) <==> text_le(
            a.file_path,
            b.file_path,
        )),
        a.display == b.display && a.file_path == b.file_path && a.stamp != b.stamp ==> (listed_le(
            a,
            b,
        ) <==> text_le(a.stamp, b.stamp)),
        a.display == b.display && a.file_path == b.file_path && a.stamp == b.stamp ==> (listed_le(
            a,
            b,
        ) <==> a.count <= b.count),
{
}

/// Sorting loses no entry and adds none, and puts them in order.
pub proof fn law_sorting_keeps_entries(all: Seq<ListedView>, out: Seq<ListedView>)
    requires
        sorted_listing(all, out),
        all.len() <= usize::MAX,
    ensures
        out.len() == all.len(),
        forall|e: ListedView| all.contains(e) <==> out.contains(e),
        forall|i: int, j: int|
            0 <= i < j < out.len() ==> listed_le(#[trigger] out[i], #[trigger] out[j]),
{
    let order = choose|order: Seq<usize>| rearranged(all, out, order);
    assert forall|e: ListedView| all.contains(e) <==> out.contains(e) by {
        if all.contains(e) {
            let k = choose|k: int| 0 <= k < all.len() && all[k] == e;
            assert(order.contains(k as usize));
            let i = choose|i: int| 0 <= i < order.len() && order[i] == k as usize;
            assert(order[i] < all.len() && out[i] == all[order[i] as int]);
        }
        if out.contains(e) {
            let i = choose|i: int| 0 <= i < out.len() && out[i] == e;
            assert(order[i] < all.len());
        }
    }
}

} // verus!
