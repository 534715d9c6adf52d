//! The snapshot file: a header and one line per file, tab-separated.
//!
//! ```text
//! # ff snapshot <timestamp> <file_count> <scoped_path>
//! # hash    size    mtime    path
//! <xxh3-128 hex>    <size>    <mtime_epoch>    <path>
//! ```
use crate::lines::{
    cut_lines, law_fields_end_at_separators, lemma_one_more_line, lemma_splitn_field, lines,
    one_line, split_fields, split_lines, splitn, texts,
};
use crate::number::{
    decimal, hex, lemma_decimal, lemma_hex_shape, lemma_parse_decimal, parse_u64, parsed_u64,
    push_decimal, push_hex,
};
use crate::pathmap::PathMap;
use crate::text::starts_with;
use vstd::prelude::*;
use vstd::string::*;

verus! {

// ── Reading ──────────────────────────────────────────────────────────

/// What a snapshot says of a file.
pub struct FileRecord {
    pub hash: String,
    pub size: u64,
    pub mtime: u64,
}

/// What a snapshot says of a file, as its model.
pub struct RecordView {
    pub hash: Seq<char>,
    pub size: u64,
    pub mtime: u64,
}

impl View for FileRecord {
    type V = RecordView;

    open spec fn view(&self) -> RecordView {
        RecordView { hash: self.hash@, size: self.size, mtime: self.mtime }
    }
}

/// A snapshot that was read: when it was made, of what, and its files.
pub struct Snapshot {
    pub timestamp: u64,
    pub scope: String,
    pub files: PathMap<FileRecord>,
}

/// A snapshot, as its model.
#[verifier::ext_equal]
pub struct SnapshotView {
    pub timestamp: u64,
    pub scope: Seq<char>,
    pub files: Map<Seq<char>, RecordView>,
}

/// File records, as their models.
pub open spec fn records(files: Map<Seq<char>, FileRecord>) -> Map<Seq<char>, RecordView> {
    files.map_values(|r: FileRecord| r@)
}

impl View for Snapshot {
    type V = SnapshotView;

    open spec fn view(&self) -> SnapshotView {
        SnapshotView {
            timestamp: self.timestamp,
            scope: self.scope@,
            files: records(self.files@),
        }
    }
}

impl Snapshot {
    /// The files can be looked up.
    pub open spec fn wf(&self) -> bool {
        self.files.wf()
    }
}

/// The number in a field; zero where the field is missing or holds none.
pub open spec fn number_in(fields: Seq<Seq<char>>, i: int) -> u64 {
    if i < fields.len() {
        match parsed_u64(fields[i]) {
            Some(n) => n,
            None => 0,
        }
    } else {
        0
    }
}

/// The timestamp, the file count and the path of a header line.
pub open spec fn header_of(line: Seq<char>) -> Option<(u64, u64, Seq<char>)> {
    if "# ff snapshot "@.is_prefix_of(line) {
        let fields = splitn(line, ' ', 6);
        let scope = if fields.len() > 5 {
            fields[5]
        } else {
            Seq::empty()
        };
        Some((number_in(fields, 3), number_in(fields, 4), scope))
    } else {
        None
    }
}

/// The path and the record of a line that has all four fields.
pub open spec fn entry_of(line: Seq<char>) -> Option<(Seq<char>, RecordView)> {
    let fields = splitn(line, '\t', 4);
    if line.len() == 0 || line[0] == '#' || fields.len() != 4 {
        None
    } else {
        Some(
            (
                fields[3],
                RecordView {
                    hash: fields[0],
                    size: number_in(fields, 1),
                    mtime: number_in(fields, 2),
                },
            ),
        )
    }
}

/// What a further line makes of a snapshot: a header sets its time and scope, an
/// entry sets the record of its path, and any other line changes nothing.
pub open spec fn with_line(s: SnapshotView, line: Seq<char>) -> SnapshotView {
    match header_of(line) {
        Some((timestamp, _, scope)) => SnapshotView { timestamp, scope, files: s.files },
        None => match entry_of(line) {
            Some((path, record)) => SnapshotView {
                timestamp: s.timestamp,
                scope: s.scope,
                files: s.files.insert(path, record),
            },
            None => s,
        },
    }
}

/// The snapshot that lines hold.
pub open spec fn with_lines(ls: Seq<Seq<char>>) -> SnapshotView
    decreases ls.len(),
{
    if ls.len() == 0 {
        SnapshotView { timestamp: 0, scope: Seq::empty(), files: Map::empty() }
    } else {
        with_line(with_lines(ls.drop_last()), ls.last())
    }
}

/// The snapshot that a text holds.
pub open spec fn loaded(content: Seq<char>) -> SnapshotView {
    with_lines(lines(content))
}

/// Reads the number in a field.
fn read_number(fields: &Vec<String>, i: usize) -> (n: u64)
    ensures
        n == number_in(texts(fields@), i as int),
{
    if i < fields.len() {
        match parse_u64(fields[i].as_str()) {
            Some(n) => n,
            None => 0,
        }
    } else {
        0
    }
}

/// Reads a header line.
pub fn parse_header_line(line: &str) -> (r: Option<(u64, u64, String)>)
    ensures
        match r {
            Some((timestamp, count, scope)) => header_of(line@) == Some(
                (timestamp, count, scope@),
            ),
            None => header_of(line@) is None,
        },
{
    if !starts_with(line, "# ff snapshot ") {
        return None;
    }
    let fields = split_fields(line, ' ', 6);
    let timestamp: u64 = read_number(&fields, 3);
    let count: u64 = read_number(&fields, 4);
    let scope = if fields.len() > 5 {
        fields[5].clone()
    } else {
        String::new()
    };
    Some((timestamp, count, scope))
}

/// Whether a line holds anything but a comment.
pub open spec fn has_entry(line: Seq<char>) -> bool {
    line.len() > 0 && line[0] != '#'
}

/// Whether a line holds anything but a comment.
fn is_entry_line(line: &str) -> (r: bool)
    ensures
        r == has_entry(line@),
{
    proof {
        reveal_strlit("#");
    }
    let comment = starts_with(line, "#");
    proof {
        if line@.len() > 0 && line@[0] == '#' {
            assert("#"@ =~= line@.subrange(0, 1));
        }
        if comment {
            assert("#"@[0] == line@.subrange(0, 1)[0]);
        }
    }
    !comment && !line.is_empty()
}

/// Loads a snapshot from the text of its file.
pub fn load_snapshot(content: &str) -> (s: Snapshot)
    ensures
        s.wf(),
        s@ == loaded(content@),
{
    let ls = split_lines(content);
    let mut s = Snapshot { timestamp: 0, scope: String::new(), files: PathMap::new() };
    let mut i: usize = 0;
    proof {
        assert(texts(ls@).take(0) =~= Seq::<Seq<char>>::empty());
        assert(s@ =~= with_lines(Seq::empty()));
    }
    while i < ls.len()
        invariant
            i <= ls.len(),
            s.wf(),
            s@ == with_lines(texts(ls@).take(i as int)),
        decreases ls.len() - i,
    {
        let line: &str = ls[i].as_str();
        let ghost before = s@;
        proof {
            assert(texts(ls@).take(i + 1).drop_last() =~= texts(ls@).take(i as int));
            assert(texts(ls@).take(i + 1).last() == line@);
        }
        match parse_header_line(line) {
            Some((timestamp, _, scope)) => {
                s.timestamp = timestamp;
                s.scope = scope;
            },
            None => {
                if is_entry_line(line) {
                    let fields = split_fields(line, '\t', 4);
                    if fields.len() == 4 {
                        let record = FileRecord {
                            hash: fields[0].clone(),
                            size: read_number(&fields, 1),
                            mtime: read_number(&fields, 2),
                        };
                        let ghost files = s.files@;
                        let path = fields[3].clone();
                        proof {
                            assert(records(files.insert(path@, record)) =~= records(files).insert(
                                path@,
                                record@,
                            ));
                        }
                        s.files.insert(path, record);
                    }
                }
            },
        }
        assert(s@ =~= with_line(before, line@));
        i = i + 1;
    }
    assert(texts(ls@).take(i as int) =~= texts(ls@));
    s
}

/// The first header among lines.
pub open spec fn first_header(ls: Seq<Seq<char>>) -> Option<(u64, u64, Seq<char>)>
    decreases ls.len(),
{
    if ls.len() == 0 {
        None
    } else {
        match header_of(ls[0]) {
            Some(h) => Some(h),
            None => first_header(ls.skip(1)),
        }
    }
}

/// Finds the first header in the text of a snapshot file.
pub fn find_header(content: &str) -> (r: Option<(u64, u64, String)>)
    ensures
        match r {
            Some((timestamp, count, scope)) => first_header(lines(content@)) == Some(
                (timestamp, count, scope@),
            ),
            None => first_header(lines(content@)) is None,
        },
{
    let ls = split_lines(content);
    let mut i: usize = 0;
    assert(texts(ls@).skip(0) =~= texts(ls@));
    while i < ls.len()
        invariant
            i <= ls.len(),
            texts(ls@) == lines(content@),
            first_header(lines(content@)) == first_header(texts(ls@).skip(i as int)),
        decreases ls.len() - i,
    {
        assert(texts(ls@).skip(i as int)[0] == ls@[i as int]@);
        assert(texts(ls@).skip(i as int).skip(1) =~= texts(ls@).skip(i + 1));
        match parse_header_line(ls[i].as_str()) {
            Some(h) => {
                return Some(h);
            },
            None => {},
        }
        i = i + 1;
    }
    None
}

/// Loads the header alone: the timestamp, the file count and the path; zeros and
/// no path where there is none.
pub fn load_snapshot_header(content: &str) -> (r: (u64, u64, String))
    ensures
        match first_header(lines(content@)) {
            Some((timestamp, count, scope)) => r.0 == timestamp && r.1 == count && r.2@ == scope,
            None => r.0 == 0 && r.1 == 0 && r.2@.len() == 0,
        },
{
    match find_header(content) {
        Some(h) => h,
        None => (0, 0, String::new()),
    }
}

/// How many lines hold anything but a comment.
pub open spec fn entry_count(ls: Seq<Seq<char>>) -> nat {
    ls.filter(|line: Seq<char>| has_entry(line)).len()
}

/// Counts the lines of a snapshot file that hold anything but a comment.
pub fn count_entries(content: &str) -> (n: u64)
    ensures
        n == entry_count(lines(content@)),
{
    let ls = split_lines(content);
    let ghost p = |line: Seq<char>| has_entry(line);
    let mut n: usize = 0;
    let mut i: usize = 0;
    proof {
        reveal(Seq::filter);
        assert(texts(ls@).take(0) =~= Seq::<Seq<char>>::empty());
    }
    while i < ls.len()
        invariant
            i <= ls.len(),
            n <= i,
            p == (|line: Seq<char>| has_entry(line)),
            n == texts(ls@).take(i as int).filter(p).len(),
        decreases ls.len() - i,
    {
        proof {
            reveal(Seq::filter);
            assert(texts(ls@).take(i + 1).drop_last() =~= texts(ls@).take(i as int));
            assert(texts(ls@).take(i + 1).last() == ls@[i as int]@);
        }
        if is_entry_line(ls[i].as_str()) {
            n = n + 1;
        }
        i = i + 1;
    }
    assert(texts(ls@).take(i as int) =~= texts(ls@));
    n as u64
}

// ── Writing ──────────────────────────────────────────────────────────

/// A file that was hashed.
pub struct HashedFile {
    pub path: String,
    pub hash: u128,
    pub size: u64,
    pub mtime: u64,
}

/// The header line.
pub open spec fn header_line(timestamp: u64, total: u64, scope: Seq<char>) -> Seq<char> {
    "# ff snapshot "@ + decimal(timestamp as nat) + " "@ + decimal(total as nat) + " "@ + scope
}

/// The line that names the columns.
pub open spec fn columns_line() -> Seq<char> {
    "# hash\tsize\tmtime\tpath"@
}

/// A hash as text: 32 hexadecimal digits.
pub open spec fn hash_text(hash: u128) -> Seq<char> {
    hex(hash as nat, 32)
}

/// The line of a file.
pub open spec fn file_line(f: HashedFile) -> Seq<char> {
    hash_text(f.hash) + "\t"@ + decimal(f.size as nat) + "\t"@ + decimal(f.mtime as nat) + "\t"@
        + f.path@
}

/// The lines of the files that could be hashed, each with its newline.
pub open spec fn body_text(results: Seq<Option<HashedFile>>) -> Seq<char>
    decreases results.len(),
{
    if results.len() == 0 {
        Seq::empty()
    } else {
        let before = body_text(results.drop_last());
        match results.last() {
            Some(f) => (before + file_line(f)).push('\n'),
            None => before,
        }
    }
}

/// The two lines above the files.
pub open spec fn head_text(timestamp: u64, total: u64, scope: Seq<char>) -> Seq<char> {
    (header_line(timestamp, total, scope).push('\n') + columns_line()).push('\n')
}

/// The text of a snapshot file. Its count is of all files, those that could not
/// be hashed among them.
pub open spec fn snapshot_text(
    timestamp: u64,
    scope: Seq<char>,
    results: Seq<Option<HashedFile>>,
) -> Seq<char> {
    head_text(timestamp, results.len() as u64, scope) + body_text(results)
}

/// How many files could be hashed.
pub open spec fn written_count(results: Seq<Option<HashedFile>>) -> nat
    decreases results.len(),
{
    if results.len() == 0 {
        0
    } else {
        written_count(results.drop_last()) + if results.last() is Some {
            1nat
        } else {
            0nat
        }
    }
}

/// Writes the line of a file.
fn push_file_line(out: &mut String, f: &HashedFile)
    ensures
        final(out)@ == old(out)@ + file_line(*f),
{
    push_hex(out, f.hash, 32);
    out.append("\t");
    push_decimal(out, f.size as u128);
    out.append("\t");
    push_decimal(out, f.mtime as u128);
    out.append("\t");
    out.append(f.path.as_str());
    assert(out@ =~= old(out)@ + file_line(*f));
}

/// Writes the text of a snapshot file, and counts the files in it.
pub fn render_snapshot(timestamp: u64, scope: &str, results: &Vec<Option<HashedFile>>) -> (r: (
    String,
    u64,
))
    ensures
        r.0@ == snapshot_text(timestamp, scope@, results@),
        r.1 == written_count(results@),
{
    let mut out = String::new();
    let total: u64 = results.len() as u64;
    out.append("# ff snapshot ");
    push_decimal(&mut out, timestamp as u128);
    out.append(" ");
    push_decimal(&mut out, total as u128);
    out.append(" ");
    out.append(scope);
    out.push('\n');
    out.append("# hash\tsize\tmtime\tpath");
    out.push('\n');
    let ghost head = head_text(timestamp, total, scope@);
    assert(out@ =~= head);
    let mut written: usize = 0;
    let mut i: usize = 0;
    proof {
        assert(results@.take(0) =~= Seq::<Option<HashedFile>>::empty());
        assert(out@ =~= head + body_text(results@.take(0)));
    }
    while i < results.len()
        invariant
            i <= results.len(),
            written <= i,
            written == written_count(results@.take(i as int)),
            out@ == head + body_text(results@.take(i as int)),
        decreases results.len() - i,
    {
        proof {
            assert(results@.take(i + 1).drop_last() =~= results@.take(i as int));
            assert(results@.take(i + 1).last() == results@[i as int]);
        }
        let ghost before = out@;
        match &results[i] {
            Some(f) => {
                push_file_line(&mut out, f);
                out.push('\n');
                written = written + 1;
                assert(out@ =~= head + body_text(results@.take(i + 1)));
            },
            None => {},
        }
        i = i + 1;
    }
    assert(results@.take(i as int) =~= results@);
    (out, written as u64)
}

// ── What is read back ────────────────────────────────────────────────

/// The records of the files that could be hashed; the last of a path counts.
pub open spec fn recorded(results: Seq<Option<HashedFile>>) -> Map<Seq<char>, RecordView>
    decreases results.len(),
{
    if results.len() == 0 {
        Map::empty()
    } else {
        let before = recorded(results.drop_last());
        match results.last() {
            Some(f) => before.insert(
                f.path@,
                RecordView { hash: hash_text(f.hash), size: f.size, mtime: f.mtime },
            ),
            None => before,
        }
    }
}

/// Digits hold neither spaces nor tabs.
proof fn lemma_digits_plain(n: nat, c: char)
    requires
        c == ' ' || c == '\t' || c == '\n' || c == '\r' || c == '#',
    ensures
        forall|i: int| 0 <= i < decimal(n).len() ==> decimal(n)[i] != c,
{
    lemma_decimal(n);
    assert forall|i: int| 0 <= i < decimal(n).len() implies decimal(n)[i] != c by {
        assert(48 <= decimal(n)[i] as u32 <= 57);
    }
}

/// A hash holds none either, and is not empty.
proof fn lemma_hash_plain(h: u128, c: char)
    requires
        c == ' ' || c == '\t' || c == '\n' || c == '\r' || c == '#',
    ensures
        hash_text(h).len() == 32,
        forall|i: int| 0 <= i < hash_text(h).len() ==> hash_text(h)[i] != c,
{
    lemma_hex_shape(h as nat, 32);
    let s = hash_text(h);
    assert forall|i: int| 0 <= i < s.len() implies s[i] != c by {
        assert(48 <= s[i] as u32 <= 57 || 97 <= s[i] as u32 <= 102);
    }
}

/// A header line reads back as what it was made of.
proof fn lemma_header_read(timestamp: u64, total: u64, scope: Seq<char>)
    ensures
        header_of(header_line(timestamp, total, scope)) == Some((timestamp, total, scope)),
{
    let line = header_line(timestamp, total, scope);
    let ts = decimal(timestamp as nat);
    let n = decimal(total as nat);
    reveal_strlit("# ff snapshot ");
    reveal_strlit(" ");
    let a = seq!['#'];
    let b = seq!['f', 'f'];
    let c = seq!['s', 'n', 'a', 'p', 's', 'h', 'o', 't'];
    let sp = seq![' '];
    assert("# ff snapshot "@ =~= a + sp + (b + sp + (c + sp)));
    assert(" "@ =~= sp);
    let rest5 = scope;
    let rest4 = n + sp + rest5;
    let rest3 = ts + sp + rest4;
    let rest2 = c + sp + rest3;
    let rest1 = b + sp + rest2;
    assert(line =~= a + sp + rest1);
    assert("# ff snapshot "@ =~= line.subrange(0, "# ff snapshot "@.len() as int));
    lemma_digits_plain(timestamp as nat, ' ');
    lemma_digits_plain(total as nat, ' ');
    lemma_splitn_field(a, ' ', rest1, 6);
    lemma_splitn_field(b, ' ', rest2, 5);
    lemma_splitn_field(c, ' ', rest3, 4);
    lemma_splitn_field(ts, ' ', rest4, 3);
    lemma_splitn_field(n, ' ', rest5, 2);
    assert(splitn(scope, ' ', 1) == seq![scope]);
    let fields = splitn(line, ' ', 6);
    assert(fields =~= seq![a, b, c, ts, n, scope]);
    lemma_parse_decimal(timestamp);
    lemma_parse_decimal(total);
}

/// The line of a file reads back as its path and its record.
proof fn lemma_file_read(f: HashedFile)
    ensures
        header_of(file_line(f)) is None,
        entry_of(file_line(f)) == Some(
            (f.path@, RecordView { hash: hash_text(f.hash), size: f.size, mtime: f.mtime }),
        ),
{
    let line = file_line(f);
    let h = hash_text(f.hash);
    let size = decimal(f.size as nat);
    let mtime = decimal(f.mtime as nat);
    reveal_strlit("# ff snapshot ");
    reveal_strlit("\t");
    let tab = seq!['\t'];
    assert("\t"@ =~= tab);
    lemma_hash_plain(f.hash, '\t');
    lemma_hash_plain(f.hash, '#');
    lemma_digits_plain(f.size as nat, '\t');
    lemma_digits_plain(f.mtime as nat, '\t');
    let rest2 = mtime + tab + f.path@;
    let rest1 = size + tab + rest2;
    assert(line =~= h + tab + rest1);
    assert(line[0] == h[0]);
    assert("# ff snapshot "@[0] == '#');
    assert(!"# ff snapshot "@.is_prefix_of(line)) by {
        if "# ff snapshot "@.is_prefix_of(line) {
            assert(line.subrange(0, "# ff snapshot "@.len() as int)[0] == line[0]);
        }
    }
    lemma_splitn_field(h, '\t', rest1, 4);
    lemma_splitn_field(size, '\t', rest2, 3);
    lemma_splitn_field(mtime, '\t', f.path@, 2);
    assert(splitn(f.path@, '\t', 1) == seq![f.path@]);
    let fields = splitn(line, '\t', 4);
    assert(fields =~= seq![h, size, mtime, f.path@]);
    lemma_parse_decimal(f.size);
    lemma_parse_decimal(f.mtime);
}

/// The line of a file is one line where its path is.
proof fn lemma_file_one_line(f: HashedFile)
    requires
        one_line(f.path@),
    ensures
        one_line(file_line(f)),
{
    let line = file_line(f);
    reveal_strlit("\t");
    lemma_hash_plain(f.hash, '\n');
    lemma_digits_plain(f.size as nat, '\n');
    lemma_digits_plain(f.mtime as nat, '\n');
    let head = hash_text(f.hash) + "\t"@ + decimal(f.size as nat) + "\t"@ + decimal(f.mtime as nat)
        + "\t"@;
    assert(line =~= head + f.path@);
    assert forall|i: int| 0 <= i < line.len() implies line[i] != '\n' by {
        if i >= head.len() {
            assert(line[i] == f.path@[i - head.len()]);
        } else {
            assert(line[i] == head[i]);
        }
    }
    assert(line.last() == if f.path@.len() > 0 {
        f.path@.last()
    } else {
        '\t'
    });
}

/// Whether a name of a file or a scope can be written on one line.
pub open spec fn all_one_line(results: Seq<Option<HashedFile>>) -> bool {
    forall|i: int|
        0 <= i < results.len() ==> ((#[trigger] results[i]) matches Some(f) ==> one_line(f.path@))
}

/// The head is two lines, and what they hold.
proof fn lemma_head_read(timestamp: u64, total: u64, scope: Seq<char>)
    requires
        one_line(scope),
    ensures
        cut_lines(head_text(timestamp, total, scope)) == (
            seq![header_line(timestamp, total, scope), columns_line()],
            Seq::<char>::empty(),
        ),
        with_lines(seq![header_line(timestamp, total, scope), columns_line()]) == (SnapshotView {
            timestamp,
            scope,
            files: Map::empty(),
        }),
{
    let h = header_line(timestamp, total, scope);
    let c = columns_line();
    reveal_strlit("# ff snapshot ");
    reveal_strlit(" ");
    reveal_strlit("# hash\tsize\tmtime\tpath");
    lemma_digits_plain(timestamp as nat, '\n');
    lemma_digits_plain(total as nat, '\n');
    let head = "# ff snapshot "@ + decimal(timestamp as nat) + " "@ + decimal(total as nat) + " "@;
    assert(h =~= head + scope);
    assert forall|i: int| 0 <= i < h.len() implies h[i] != '\n' by {
        if i >= head.len() {
            assert(h[i] == scope[i - head.len()]);
        } else {
            assert(h[i] == head[i]);
        }
    }
    assert(h.last() == if scope.len() > 0 {
        scope.last()
    } else {
        ' '
    });
    let none = Seq::<char>::empty();
    assert(cut_lines(none) == (Seq::<Seq<char>>::empty(), none));
    lemma_one_more_line(none, h);
    assert(none + h =~= h);
    lemma_one_more_line(h.push('\n'), c);
    let both = seq![h, c];
    assert(Seq::<Seq<char>>::empty().push(h).push(c) =~= both);
    lemma_header_read(timestamp, total, scope);
    assert(both.drop_last() =~= seq![h]);
    assert(seq![h].drop_last() =~= Seq::<Seq<char>>::empty());
    assert(seq![h].last() == h);
    assert(!"# ff snapshot "@.is_prefix_of(c)) by {
        if "# ff snapshot "@.is_prefix_of(c) {
            assert("# ff snapshot "@[2] == c.subrange(0, "# ff snapshot "@.len() as int)[2]);
        }
    }
    assert(c[0] == '#');
    reveal_with_fuel(with_lines, 3);
}

/// The lines of the files, behind those of a head, add their records.
#[verifier::rlimit(40)]
proof fn lemma_body_read(head: Seq<char>, results: Seq<Option<HashedFile>>)
    requires
        cut_lines(head).1.len() == 0,
        with_lines(cut_lines(head).0).files == Map::<Seq<char>, RecordView>::empty(),
        all_one_line(results),
    ensures
        cut_lines(head + body_text(results)).1.len() == 0,
        with_lines(cut_lines(head + body_text(results)).0) == (SnapshotView {
            timestamp: with_lines(cut_lines(head).0).timestamp,
            scope: with_lines(cut_lines(head).0).scope,
            files: recorded(results),
        }),
    decreases results.len(),
{
    if results.len() == 0 {
        assert(head + body_text(results) =~= head);
    } else {
        let front = results.drop_last();
        assert(all_one_line(front)) by {
            assert forall|i: int| 0 <= i < front.len() implies ((#[trigger] front[i]) matches Some(
                f,
            ) ==> one_line(f.path@)) by {
                assert(front[i] == results[i]);
            }
        }
        lemma_body_read(head, front);
        let before = head + body_text(front);
        match results.last() {
            Some(f) => {
                assert(results[results.len() - 1] == Some(f));
                lemma_file_one_line(f);
                lemma_file_read(f);
                lemma_one_more_line(before, file_line(f));
                assert(head + body_text(results) =~= (before + file_line(f)).push('\n'));
                let ls = cut_lines(before).0.push(file_line(f));
                assert(ls.drop_last() =~= cut_lines(before).0);
                assert(ls.last() == file_line(f));
            },
            None => {},
        }
    }
}

/// Loading a snapshot that was written gives back its timestamp, its scope and
/// the records of its files, as long as no path among them breaks its line.
pub proof fn law_snapshot_round_trip(
    timestamp: u64,
    scope: Seq<char>,
    results: Seq<Option<HashedFile>>,
)
    requires
        one_line(scope),
        all_one_line(results),
    ensures
        loaded(snapshot_text(timestamp, scope, results)) == (SnapshotView {
            timestamp,
            scope,
            files: recorded(results),
        }),
        first_header(lines(snapshot_text(timestamp, scope, results))) == Some(
            (timestamp, results.len() as u64, scope),
        ),
{
    let total = results.len() as u64;
    let head = head_text(timestamp, total, scope);
    lemma_head_read(timestamp, total, scope);
    lemma_body_read(head, results);
    lemma_header_read(timestamp, total, scope);
    lemma_first_line(head, results);
}

/// The lines of the files follow those of the head.
proof fn lemma_first_line(head: Seq<char>, results: Seq<Option<HashedFile>>)
    requires
        cut_lines(head).1.len() == 0,
        cut_lines(head).0.len() > 0,
        all_one_line(results),
    ensures
        cut_lines(head + body_text(results)).1.len() == 0,
        cut_lines(head + body_text(results)).0.len() > 0,
        cut_lines(head + body_text(results)).0[0] == cut_lines(head).0[0],
    decreases results.len(),
{
    if results.len() == 0 {
        assert(head + body_text(results) =~= head);
    } else {
        let front = results.drop_last();
        assert(all_one_line(front)) by {
            assert forall|i: int| 0 <= i < front.len() implies ((#[trigger] front[i]) matches Some(
                f,
            ) ==> one_line(f.path@)) by {
                assert(front[i] == results[i]);
            }
        }
        lemma_first_line(head, front);
        let before = head + body_text(front);
        match results.last() {
            Some(f) => {
                assert(results[results.len() - 1] == Some(f));
                lemma_file_one_line(f);
                lemma_one_more_line(before, file_line(f));
                assert(head + body_text(results) =~= (before + file_line(f)).push('\n'));
            },
            None => {},
        }
    }
}

// ── Laws on lines ────────────────────────────────────────────────────

/// A header line gives the number in its first field, the number in its second,
/// and all that follows as the scope; a field that is no number counts as zero,
/// as does one that is missing. A line that begins otherwise is no header.
#[verifier::rlimit(40)]
pub proof fn law_header_gives_its_fields(a: Seq<char>, b: Seq<char>, scope: Seq<char>)
    requires
        forall|i: int| 0 <= i < a.len() ==> a[i] != ' ',
        forall|i: int| 0 <= i < b.len() ==> b[i] != ' ',
    ensures
        ({
            let value = |s: Seq<char>|
                match parsed_u64(s) {
                    Some(n) => n,
                    None => 0u64,
                };
            let start = "# ff snapshot "@;
            let none = Seq::<char>::empty();
            &&& header_of(start + a + seq![' '] + b + seq![' '] + scope) == Some(
                (value(a), value(b), scope),
            )
            &&& header_of(start + a + seq![' '] + b) == Some((value(a), value(b), none))
            &&& header_of(start + a) == Some((value(a), 0u64, none))
            &&& !start.is_prefix_of(scope) ==> header_of(scope) is None
        }),
{
    reveal_strlit("# ff snapshot ");
    let x = seq!['#'];
    let y = seq!['f', 'f'];
    let z = seq!['s', 'n', 'a', 'p', 's', 'h', 'o', 't'];
    let sp = seq![' '];
    let start = "# ff snapshot "@;
    assert(start =~= x + sp + (y + sp + (z + sp)));
    lemma_header_start(a + sp + (b + sp + scope));
    lemma_header_start(a + sp + b);
    lemma_header_start(a);
    assert(start + a + sp + b + sp + scope =~= start + (a + sp + (b + sp + scope)));
    assert(start + a + sp + b =~= start + (a + sp + b));
    law_fields_end_at_separators(a, ' ', b + sp + scope, 3);
    law_fields_end_at_separators(b, ' ', scope, 2);
    law_fields_end_at_separators(a, ' ', b, 3);
    law_fields_end_at_separators(b, ' ', scope, 2);
    let l1 = start + (a + sp + (b + sp + scope));
    let l2 = start + (a + sp + b);
    let l3 = start + a;
    assert(splitn(l1, ' ', 6) =~= seq![x, y, z, a, b, scope]);
    assert(splitn(l2, ' ', 6) =~= seq![x, y, z, a, b]);
    assert(splitn(l3, ' ', 6) =~= seq![x, y, z, a]);
}

/// The first three fields of a header line are always the same.
#[verifier::rlimit(40)]
proof fn lemma_header_start(rest: Seq<char>)
    ensures
        "# ff snapshot "@.is_prefix_of("# ff snapshot "@ + rest),
        splitn("# ff snapshot "@ + rest, ' ', 6) == seq![
            seq!['#'],
            seq!['f', 'f'],
            seq!['s', 'n', 'a', 'p', 's', 'h', 'o', 't'],
        ] + splitn(rest, ' ', 3),
{
    reveal_strlit("# ff snapshot ");
    let x = seq!['#'];
    let y = seq!['f', 'f'];
    let z = seq!['s', 'n', 'a', 'p', 's', 'h', 'o', 't'];
    let sp = seq![' '];
    let start = "# ff snapshot "@;
    let line = start + rest;
    assert(start =~= x + sp + (y + sp + (z + sp)));
    assert(start =~= line.subrange(0, start.len() as int));
    assert(line =~= x + sp + (y + sp + (z + sp + rest)));
    law_fields_end_at_separators(x, ' ', y + sp + (z + sp + rest), 6);
    law_fields_end_at_separators(y, ' ', z + sp + rest, 5);
    law_fields_end_at_separators(z, ' ', rest, 4);
    let tail = splitn(rest, ' ', 3);
    assert(seq![x] + (seq![y] + (seq![z] + tail)) =~= seq![x, y, z] + tail);
}

/// The line of a file gives its hash, its size and its time, and all that follows
/// as its path, tabs and spaces among it. A field that is no number counts as
/// zero. Comments, empty lines and lines of fewer fields are of no file.
#[verifier::rlimit(40)]
pub proof fn law_entry_gives_its_fields(
    hash: Seq<char>,
    size: Seq<char>,
    mtime: Seq<char>,
    path: Seq<char>,
)
    requires
        forall|i: int| 0 <= i < hash.len() ==> hash[i] != '\t',
        forall|i: int| 0 <= i < size.len() ==> size[i] != '\t',
        forall|i: int| 0 <= i < mtime.len() ==> mtime[i] != '\t',
    ensures
        ({
            let value = |s: Seq<char>|
                match parsed_u64(s) {
                    Some(n) => n,
                    None => 0u64,
                };
            let tab = seq!['\t'];
            let line = hash + tab + size + tab + mtime + tab + path;
            &&& hash.len() == 0 || hash[0] != '#' ==> entry_of(line) == Some(
                (path, RecordView { hash, size: value(size), mtime: value(mtime) }),
            )
            &&& entry_of(seq!['#'] + path) is None
            &&& entry_of(Seq::empty()) is None
            &&& entry_of(hash) is None
            &&& entry_of(hash + tab + size) is None
            &&& entry_of(hash + tab + size + tab + mtime) is None
        }),
{
    let tab = seq!['\t'];
    let line = hash + tab + size + tab + mtime + tab + path;
    assert(line =~= hash + tab + (size + tab + (mtime + tab + path)));
    assert(hash + tab + size + tab + mtime =~= hash + tab + (size + tab + mtime));
    law_fields_end_at_separators(hash, '\t', size + tab + (mtime + tab + path), 4);
    law_fields_end_at_separators(size, '\t', mtime + tab + path, 3);
    law_fields_end_at_separators(mtime, '\t', path, 2);
    law_fields_end_at_separators(hash, '\t', size + tab + mtime, 4);
    law_fields_end_at_separators(size, '\t', mtime, 3);
    law_fields_end_at_separators(mtime, '\t', path, 2);
    law_fields_end_at_separators(hash, '\t', size, 4);
    law_fields_end_at_separators(size, '\t', path, 3);
    assert(splitn(line, '\t', 4) =~= seq![hash, size, mtime, path]);
    assert(splitn(hash + tab + (size + tab + mtime), '\t', 4) =~= seq![hash, size, mtime]);
    assert(splitn(hash + tab + size, '\t', 4) =~= seq![hash, size]);
    assert(line[0] == if hash.len() > 0 {
        hash[0]
    } else {
        '\t'
    });
    assert((seq!['#'] + path)[0] == '#');
}

/// A snapshot is built line by line. A header sets the time and the scope and no
/// file; the line of a file sets what is known of its path, in place of what was
/// known, and nothing else; any other line changes nothing.
pub proof fn law_lines_build_the_snapshot(ls: Seq<Seq<char>>, line: Seq<char>, other: Seq<char>)
    ensures
        ({
            let before = with_lines(ls);
            let after = with_lines(ls.push(line));
            &&& header_of(line) matches Some((timestamp, _, scope)) ==> after.timestamp == timestamp
                && after.scope == scope && after.files == before.files
            &&& header_of(line) is None ==> after.timestamp == before.timestamp && after.scope
                == before.scope
            &&& header_of(line) is None ==> (entry_of(line) matches Some((path, record)) ==> {
                &&& after.files.contains_key(path)
                &&& after.files[path] == record
                &&& other != path ==> (after.files.contains_key(other)
                    <==> before.files.contains_key(other))
                &&& other != path && before.files.contains_key(other) ==> after.files[other]
                    == before.files[other]
            })
            &&& header_of(line) is None && entry_of(line) is None ==> after.files == before.files
        }),
        with_lines(Seq::empty()).timestamp == 0,
        with_lines(Seq::empty()).scope.len() == 0,
        !with_lines(Seq::empty()).files.contains_key(other),
{
    assert(ls.push(line).drop_last() =~= ls);
}

/// What a text holds is what its lines build.
pub proof fn law_text_holds_its_lines(content: Seq<char>)
    ensures
        loaded(content) == with_lines(lines(content)),
{
}

/// The header of a file is the first of its lines that is one.
pub proof fn law_first_header_counts(ls: Seq<Seq<char>>, i: int)
    requires
        0 <= i <= ls.len(),
        forall|j: int| 0 <= j < i ==> header_of(#[trigger] ls[j]) is None,
    ensures
        i < ls.len() && header_of(ls[i]) is Some ==> first_header(ls) == header_of(ls[i]),
        i == ls.len() ==> first_header(ls) is None,
    decreases i,
{
    if i > 0 {
        let rest = ls.skip(1);
        assert forall|j: int| 0 <= j < i - 1 implies header_of(#[trigger] rest[j]) is None by {
            assert(rest[j] == ls[j + 1]);
        }
        assert(header_of(ls[0]) is None);
        law_first_header_counts(rest, i - 1);
    }
}

/// A file lists as many files as it has lines that are neither empty nor comments,
/// and of files that were hashed as many are written as could be.
pub proof fn law_entries_are_counted(ls: Seq<Seq<char>>, results: Seq<Option<HashedFile>>)
    ensures
        entry_count(ls) == ls.filter(|l: Seq<char>| l.len() > 0 && l[0] != '#').len(),
        written_count(results) == results.filter(|r: Option<HashedFile>| r is Some).len(),
    decreases results.len(),
{
    let p = |l: Seq<char>| has_entry(l);
    let q = |l: Seq<char>| l.len() > 0 && l[0] != '#';
    assert(p =~= q);
    reveal(Seq::filter);
    if results.len() > 0 {
        law_entries_are_counted(ls, results.drop_last());
    }
}

// ── Laws on what is written ──────────────────────────────────────────

/// The lines behind a head are those of the files that could be hashed.
#[verifier::rlimit(40)]
proof fn lemma_body_lines(head: Seq<char>, results: Seq<Option<HashedFile>>)
    requires
        cut_lines(head).1.len() == 0,
        all_one_line(results),
        forall|i: int| 0 <= i < results.len() ==> (#[trigger] results[i]) is Some,
    ensures
        ({
            let (done, open) = cut_lines(head + body_text(results));
            let first = cut_lines(head).0;
            &&& open.len() == 0
            &&& done.len() == first.len() + results.len()
            &&& forall|i: int| 0 <= i < first.len() ==> (#[trigger] done[i]) == first[i]
            &&& forall|i: int|
                0 <= i < results.len() ==> #[trigger] done[first.len() + i] == file_line(
                    results[i]->0,
                )
        }),
    decreases results.len(),
{
    let first = cut_lines(head).0;
    if results.len() == 0 {
        assert(head + body_text(results) =~= head);
    } else {
        let front = results.drop_last();
        let f = results.last()->0;
        assert(results[results.len() - 1] is Some);
        assert forall|i: int| 0 <= i < front.len() implies (#[trigger] front[i]) is Some && one_line(
            front[i]->0.path@,
        ) by {
            assert(front[i] == results[i]);
        }
        lemma_body_lines(head, front);
        let before = head + body_text(front);
        lemma_file_one_line(f);
        lemma_one_more_line(before, file_line(f));
        assert(head + body_text(results) =~= (before + file_line(f)).push('\n'));
        let done = cut_lines(before).0;
        let now = done.push(file_line(f));
        assert forall|i: int| 0 <= i < results.len() implies #[trigger] now[first.len() + i]
            == file_line(results[i]->0) by {
            if i < front.len() {
                assert(now[first.len() + i] == done[first.len() + i]);
                assert(front[i] == results[i]);
            }
        }
    }
}

/// A snapshot file has two comment lines, the first with the time, the number of
/// files and the scope, and the second with the names of the columns; and behind
/// them a line for each file, with its hash in 32 hexadecimal digits, its size,
/// its time of modification and its path, between tabs.
#[verifier::rlimit(40)]
pub proof fn law_snapshot_file_is_as_documented(
    timestamp: u64,
    scope: Seq<char>,
    results: Seq<Option<HashedFile>>,
)
    requires
        one_line(scope),
        all_one_line(results),
        results.len() <= u64::MAX,
        forall|i: int| 0 <= i < results.len() ==> (#[trigger] results[i]) is Some,
    ensures
        ({
            let ls = lines(snapshot_text(timestamp, scope, results));
            let tab = seq!['\t'];
            &&& ls.len() == results.len() + 2
            &&& ls[0] == "# ff snapshot "@ + decimal(timestamp as nat) + seq![' '] + decimal(
                results.len(),
            ) + seq![' '] + scope
            &&& ls[1] == "# hash\tsize\tmtime\tpath"@
            &&& forall|i: int|
                0 <= i < results.len() ==> #[trigger] ls[2 + i] == hash_text(results[i]->0.hash)
                    + tab + decimal(results[i]->0.size as nat) + tab + decimal(
                    results[i]->0.mtime as nat,
                ) + tab + results[i]->0.path@
        }),
{
    let total = results.len() as u64;
    let head = head_text(timestamp, total, scope);
    reveal_strlit(" ");
    reveal_strlit("\t");
    assert(" "@ =~= seq![' ']);
    assert("\t"@ =~= seq!['\t']);
    lemma_head_read(timestamp, total, scope);
    lemma_body_lines(head, results);
    let ls = lines(snapshot_text(timestamp, scope, results));
    let (done, open) = cut_lines(head + body_text(results));
    assert(ls == done);
    assert(done[0] == header_line(timestamp, total, scope));
    assert(done[1] == columns_line());
    assert forall|i: int| 0 <= i < results.len() implies #[trigger] ls[2 + i] == file_line(
        results[i]->0,
    ) by {
        assert(done[cut_lines(head).0.len() + i] == file_line(results[i]->0));
    }
}

/// What is read back of a snapshot holds every file that could be hashed, with
/// the text of its hash, its size and its time of modification, and no other
/// file, as long as paths differ and none breaks its line.
#[verifier::rlimit(40)]
pub proof fn law_every_hashed_file_is_read_back(
    timestamp: u64,
    scope: Seq<char>,
    results: Seq<Option<HashedFile>>,
)
    requires
        forall|i: int| 0 <= i < scope.len() ==> scope[i] != '\n',
        scope.len() > 0 ==> scope.last() != '\r',
        forall|i: int, k: int|
            0 <= i < results.len() && (#[trigger] results[i]) is Some && 0 <= k
                < results[i]->0.path@.len() ==> #[trigger] results[i]->0.path@[k] != '\n',
        forall|i: int|
            0 <= i < results.len() && (#[trigger] results[i]) is Some && results[i]->0.path@.len()
                > 0 ==> results[i]->0.path@.last() != '\r',
        forall|i: int, j: int|
            0 <= i < j < results.len() && (#[trigger] results[i]) is Some && (
            #[trigger] results[j]) is Some ==> results[i]->0.path@ != results[j]->0.path@,
    ensures
        ({
            let s = loaded(snapshot_text(timestamp, scope, results));
            &&& s.timestamp == timestamp
            &&& s.scope == scope
            &&& forall|i: int|
                0 <= i < results.len() && (#[trigger] results[i]) is Some ==> {
                    let f = results[i]->0;
                    &&& s.files.contains_key(f.path@)
                    &&& s.files[f.path@].hash == hash_text(f.hash)
                    &&& s.files[f.path@].size == f.size
                    &&& s.files[f.path@].mtime == f.mtime
                }
            &&& forall|p: Seq<char>| #[trigger]
                s.files.contains_key(p) ==> exists|i: int|
                    0 <= i < results.len() && (#[trigger] results[i]) is Some
                        && results[i]->0.path@ == p
        }),
{
    assert forall|i: int| 0 <= i < results.len() implies ((#[trigger] results[i]) matches Some(f)
        ==> one_line(f.path@)) by {
        if let Some(f) = results[i] {
            assert forall|k: int| 0 <= k < f.path@.len() implies f.path@[k] != '\n' by {
                assert(results[i]->0.path@[k] != '\n');
            }
        }
    }
    law_snapshot_round_trip(timestamp, scope, results);
    lemma_recorded_files(results);
}

/// The records hold the files that were hashed, and nothing else.
#[verifier::rlimit(40)]
proof fn lemma_recorded_files(results: Seq<Option<HashedFile>>)
    requires
        forall|i: int, j: int|
            0 <= i < j < results.len() && (#[trigger] results[i]) is Some && (
            #[trigger] results[j]) is Some ==> results[i]->0.path@ != results[j]->0.path@,
    ensures
        forall|i: int|
            0 <= i < results.len() && (#[trigger] results[i]) is Some ==> {
                let f = results[i]->0;
                &&& recorded(results).contains_key(f.path@)
                &&& recorded(results)[f.path@] == (RecordView {
                    hash: hash_text(f.hash),
                    size: f.size,
                    mtime: f.mtime,
                })
            },
        forall|p: Seq<char>| #[trigger]
            recorded(results).contains_key(p) ==> exists|i: int|
                0 <= i < results.len() && (#[trigger] results[i]) is Some && results[i]->0.path@
                    == p,
    decreases results.len(),
{
    if results.len() > 0 {
        let front = results.drop_last();
        lemma_recorded_files(front);
        assert forall|i: int| 0 <= i < results.len() && (#[trigger] results[i]) is Some implies {
            let f = results[i]->0;
            &&& recorded(results).contains_key(f.path@)
            &&& recorded(results)[f.path@] == (RecordView {
                hash: hash_text(f.hash),
                size: f.size,
                mtime: f.mtime,
            })
        } by {
            if i < front.len() {
                assert(front[i] == results[i]);
                assert(results.last() is Some ==> results[results.len() - 1] is Some);
            }
        }
        assert forall|p: Seq<char>| #[trigger] recorded(results).contains_key(p) implies exists|
            i: int,
        |
            0 <= i < results.len() && (#[trigger] results[i]) is Some && results[i]->0.path@
                == p by {
            if recorded(front).contains_key(p) {
                let i = choose|i: int|
                    0 <= i < front.len() && (#[trigger] front[i]) is Some && front[i]->0.path@ == p;
                assert(results[i] == front[i]);
            } else {
                assert(results[results.len() - 1]->0.path@ == p);
            }
        }
    }
}

/// The lines behind a head list one file more for each that could be hashed.
proof fn lemma_body_count(head: Seq<char>, results: Seq<Option<HashedFile>>)
    requires
        cut_lines(head).1.len() == 0,
        all_one_line(results),
    ensures
        cut_lines(head + body_text(results)).1.len() == 0,
        entry_count(cut_lines(head + body_text(results)).0) == entry_count(cut_lines(head).0)
            + written_count(results),
    decreases results.len(),
{
    if results.len() == 0 {
        assert(head + body_text(results) =~= head);
    } else {
        let front = results.drop_last();
        assert forall|i: int| 0 <= i < front.len() implies ((#[trigger] front[i]) matches Some(f)
            ==> one_line(f.path@)) by {
            assert(front[i] == results[i]);
        }
        lemma_body_count(head, front);
        let before = head + body_text(front);
        match results.last() {
            Some(f) => {
                assert(results[results.len() - 1] == Some(f));
                lemma_file_one_line(f);
                lemma_one_more_line(before, file_line(f));
                assert(head + body_text(results) =~= (before + file_line(f)).push('\n'));
                let ls = cut_lines(before).0;
                let more = ls.push(file_line(f));
                lemma_hash_plain(f.hash, '#');
                assert(file_line(f)[0] == hash_text(f.hash)[0]);
                reveal(Seq::filter);
                assert(more.drop_last() =~= ls);
                assert(more.last() == file_line(f));
            },
            None => {},
        }
    }
}

/// A snapshot file lists as many files as were written.
pub proof fn law_written_files_are_listed(
    timestamp: u64,
    scope: Seq<char>,
    results: Seq<Option<HashedFile>>,
)
    requires
        one_line(scope),
        all_one_line(results),
    ensures
        entry_count(lines(snapshot_text(timestamp, scope, results))) == results.filter(
            |r: Option<HashedFile>| r is Some,
        ).len(),
{
    let total = results.len() as u64;
    let head = head_text(timestamp, total, scope);
    lemma_head_read(timestamp, total, scope);
    lemma_body_count(head, results);
    law_entries_are_counted(Seq::empty(), results);
    let h = header_line(timestamp, total, scope);
    let c = columns_line();
    reveal_strlit("# ff snapshot ");
    reveal_strlit("# hash\tsize\tmtime\tpath");
    assert(h[0] == '#' && c[0] == '#');
    let both = seq![h, c];
    assert(entry_count(both) == 0) by {
        reveal_with_fuel(Seq::filter, 3);
        assert(both.drop_last() =~= seq![h]);
        assert(seq![h].drop_last() =~= Seq::<Seq<char>>::empty());
        assert(seq![h].last() == h);
    }
}

} // verus!
