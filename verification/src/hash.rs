//! Hashing files, and what a run of it collects and reports.
use crate::json::HashComplete;
use crate::matcher::{accepts, description, filter_view, wanted, wants, Filter, Matcher};
use crate::number::{law_hex_digits, lemma_hex_injective, push_hex};
use crate::output::{
    bytes_text, count_text, elapsed_text, fmt_bytes, fmt_count, fmt_elapsed, print_summary,
    print_warning, rate, shown_as, throughput, Tint,
};
use crate::snapshot::{hash_text, HashedFile};
use vstd::arithmetic::power::{lemma_pow_adds, pow};
use vstd::prelude::*;
use vstd::string::*;

verus! {

/// What to hash, and how to report it.
pub struct HashOpts {
    pub path: String,
    pub output_path: Option<String>,
    pub json: bool,
    pub no_skip: bool,
    pub filter: Option<String>,
    pub filter_regex: bool,
    pub filter_ignore_case: bool,
}

// ── Hashing ──────────────────────────────────────────────────────────

/// Threshold for memory-mapping vs buffered read.
pub const MMAP_THRESHOLD: u64 = 1048576;

/// How the content of a file is read: not at all, in one go, or mapped.
#[derive(Clone, Copy)]
pub enum ReadPlan {
    Nothing,
    Buffered,
    Mapped,
}

/// How the content of a file of a given size is read.
pub fn read_plan(size: u64) -> (r: ReadPlan)
    ensures
        r == (if size == 0 {
            ReadPlan::Nothing
        } else if size >= MMAP_THRESHOLD {
            ReadPlan::Mapped
        } else {
            ReadPlan::Buffered
        }),
{
    if size == 0 {
        ReadPlan::Nothing
    } else if size >= MMAP_THRESHOLD {
        ReadPlan::Mapped
    } else {
        ReadPlan::Buffered
    }
}

/// The XXH3 hash of 128 bits of some bytes.
pub uninterp spec fn xxh3(data: Seq<u8>) -> u128;

/// `xxhash_rust::xxh3::xxh3_128` computes the XXH3 hash of 128 bits, with the
/// default seed and secret, which the bytes alone decide.
#[verifier::external_body]
fn xxh3_128(data: &[u8]) -> (h: u128)
    ensures
        h == xxh3(data@),
{
    xxhash_rust::xxh3::xxh3_128(data)
}

/// The hash and the size of a file, by its size and its content; an empty file
/// needs no content, and a file that cannot be read has neither.
pub open spec fn file_hash(size: u64, content: Option<Seq<u8>>) -> Option<(u128, u64)> {
    if size == 0 {
        Some((xxh3(Seq::empty()), size))
    } else {
        match content {
            Some(c) => Some((xxh3(c), size)),
            None => None,
        }
    }
}

/// An optional content, as its model.
pub open spec fn content_view(content: Option<&[u8]>) -> Option<Seq<u8>> {
    match content {
        Some(c) => Some(c@),
        None => None,
    }
}

/// Hashes a single file. Returns the xxh3-128 hash and file size.
pub fn hash_file(size: u64, content: Option<&[u8]>) -> (r: Option<(u128, u64)>)
    ensures
        r == file_hash(size, content_view(content)),
        size > 0 ==> (content matches Some(c) ==> r == Some((xxh3(c@), size))),
        size > 0 ==> (content is None ==> r is None),
        size == 0 ==> r == Some((xxh3(Seq::empty()), 0u64)),
{
    if size == 0 {
        let none: Vec<u8> = Vec::new();
        assert(none@ =~= Seq::<u8>::empty());
        return Some((xxh3_128(none.as_slice()), size));
    }
    match content {
        Some(c) => Some((xxh3_128(c), size)),
        None => None,
    }
}

/// A hash as text.
pub fn hash_hex(hash: u128) -> (s: String)
    ensures
        s@ == hash_text(hash),
{
    let mut s = String::new();
    push_hex(&mut s, hash, 32);
    assert(s@ =~= hash_text(hash));
    s
}

/// Hashes a single file and returns the hex string.
pub fn hash_file_hex(size: u64, content: Option<&[u8]>) -> (r: Option<String>)
    ensures
        match r {
            Some(s) => file_hash(size, content_view(content)) matches Some((h, _)) && s@
                == hash_text(h),
            None => file_hash(size, content_view(content)) is None,
        },
        size > 0 ==> (content matches Some(c) ==> (r matches Some(s) && s@ == hash_text(
            xxh3(c@),
        ))),
{
    match hash_file(size, content) {
        Some((h, _)) => Some(hash_hex(h)),
        None => None,
    }
}

/// Hashes are the same exactly when their texts are.
pub proof fn law_hash_text_tells_hash(a: u128, b: u128)
    ensures
        hash_text(a) == hash_text(b) <==> a == b,
        hash_text(a).len() == 32,
{
    crate::number::lemma_hex_shape(a as nat, 32);
    if hash_text(a) == hash_text(b) {
        assert(pow(16, 8) == 0x1_0000_0000) by {
            reveal_with_fuel(pow, 9);
        }
        lemma_pow_adds(16, 8, 8);
        assert(pow(16, 16) == 0x1_0000_0000_0000_0000) by (nonlinear_arith)
            requires
                pow(16, 16) == pow(16, 8) * pow(16, 8),
                pow(16, 8) == 0x1_0000_0000,
        ;
        lemma_pow_adds(16, 16, 16);
        assert(pow(16, 32) > u128::MAX) by (nonlinear_arith)
            requires
                pow(16, 32) == pow(16, 16) * pow(16, 16),
                pow(16, 16) == 0x1_0000_0000_0000_0000,
        ;
        lemma_hex_injective(a as nat, b as nat, 32);
    }
}

// ── Collecting ───────────────────────────────────────────────────────

/// What a traversal meets: a file, something else, or something it cannot read.
pub enum Visit<'a> {
    File(&'a str),
    Other,
    Unreadable,
}

/// Whether a run works on what its traversal meets: on files that pass the
/// filter.
pub open spec fn collected(filter: Option<Filter>, visit: Visit) -> bool {
    visit matches Visit::File(path) && wanted(filter, path@)
}

/// Whether a run works on what its traversal meets.
pub fn collects(filter: &Option<Matcher>, visit: &Visit) -> (r: bool)
    requires
        filter matches Some(m) ==> m.wf(),
    ensures
        r == collected(filter_view(*filter), *visit),
{
    match visit {
        Visit::File(path) => wants(filter, path),
        Visit::Other => false,
        Visit::Unreadable => false,
    }
}

/// How much a run of hashing has met so far that it could not read, as a counter
/// of 64 bits.
pub struct HashTally {
    pub errors: u64,
}

impl HashTally {
    /// A run that has met nothing.
    pub fn new() -> (t: Self)
        ensures
            t.errors == 0,
    {
        HashTally { errors: 0 }
    }

    /// Takes note of what the traversal meets, and says whether to hash it.
    pub fn visit(&mut self, filter: &Option<Matcher>, visit: &Visit) -> (r: bool)
        requires
            filter matches Some(m) ==> m.wf(),
        ensures
            r == collected(filter_view(*filter), *visit),
            final(self).errors == if *visit is Unreadable {
                (old(self).errors + 1) % 0x1_0000_0000_0000_0000
            } else {
                old(self).errors as int
            },
    {
        if let Visit::Unreadable = visit {
            self.errors = self.errors.wrapping_add(1);
        }
        collects(filter, visit)
    }
}

/// The record of a file to write, where it could be hashed.
pub fn hashed_file(path: &str, hashed: Option<(u128, u64)>, mtime: u64) -> (r: Option<HashedFile>)
    ensures
        match r {
            Some(f) => hashed == Some((f.hash, f.size)) && f.path@ == path@ && f.mtime == mtime,
            None => hashed is None,
        },
{
    match hashed {
        Some((hash, size)) => Some(HashedFile { path: path.to_owned(), hash, size, mtime }),
        None => None,
    }
}

/// The sizes of the files that could be hashed, added up.
pub open spec fn size_sum(results: Seq<Option<HashedFile>>) -> nat
    decreases results.len(),
{
    if results.len() == 0 {
        0
    } else {
        size_sum(results.drop_last()) + match results.last() {
            Some(f) => f.size as nat,
            None => 0nat,
        }
    }
}

/// The bytes that were hashed, counted as a counter of 64 bits does.
pub fn bytes_hashed(results: &Vec<Option<HashedFile>>) -> (n: u64)
    ensures
        n == size_sum(results@) % 0x1_0000_0000_0000_0000,
{
    let mut n: u64 = 0;
    let mut i: usize = 0;
    assert(results@.take(0) =~= Seq::<Option<HashedFile>>::empty());
    while i < results.len()
        invariant
            i <= results.len(),
            n == size_sum(results@.take(i as int)) % 0x1_0000_0000_0000_0000,
        decreases results.len() - i,
    {
        proof {
            assert(results@.take(i + 1).drop_last() =~= results@.take(i as int));
            assert(results@.take(i + 1).last() == results@[i as int]);
        }
        match &results[i] {
            Some(f) => {
                n = n.wrapping_add(f.size);
            },
            None => {},
        }
        i = i + 1;
    }
    assert(results@.take(i as int) =~= results@);
    n
}

// ── Reporting ────────────────────────────────────────────────────────

/// How often progress is shown: at every so many files.
pub const PROGRESS_STEP: u64 = 50000;

/// The message while files are being collected.
pub fn collecting_message(filter: &Option<Matcher>) -> (r: String)
    ensures
        r@ == match filter_view(*filter) {
            Some(f) => "collecting files matching "@ + description(f) + "..."@,
            None => "collecting file list..."@,
        },
{
    match filter {
        Some(m) => "collecting files matching ".to_owned().concat(m.describe().as_str()).concat(
            "...",
        ),
        None => "collecting file list...".to_owned(),
    }
}

/// The message once files have been collected.
pub fn collected_message(total: u64) -> (r: String)
    ensures
        r@ == count_text(total as nat) + "  files found, hashing..."@,
{
    fmt_count(total).concat("  files found, hashing...")
}

/// The progress after a file was gone through; none unless it could be hashed,
/// none but at every so many files, and none where events are written.
pub fn hash_progress(
    json: bool,
    hashed: bool,
    count: u64,
    total: u64,
    bytes: u64,
    secs: u64,
    nanos: u32,
) -> (r: Option<String>)
    ensures
        match r {
            Some(s) => {
                &&& !json && hashed && count % PROGRESS_STEP == 0
                &&& s@ == count_text(count as nat) + "/"@ + count_text(total as nat)
                    + "  hashed  "@ + bytes_text(
                    rate(bytes as nat, secs as nat, nanos as nat) as nat,
                ) + "/s  "@ + elapsed_text(secs as nat, nanos as nat)
            },
            None => json || !hashed || count % PROGRESS_STEP != 0,
        },
{
    if json || !hashed || count % PROGRESS_STEP != 0 {
        return None;
    }
    let speed: u64 = throughput(bytes, secs, nanos);
    Some(
        fmt_count(count).concat("/").concat(fmt_count(total).as_str()).concat("  hashed  ").concat(
            fmt_bytes(speed).as_str(),
        ).concat("/s  ").concat(fmt_elapsed(secs, nanos).as_str()),
    )
}

/// The event at the end of a run.
pub fn hash_complete(written: u64, snapshot: &str, elapsed_ms: u64, bytes: u64) -> (r: HashComplete)
    ensures
        r.event@ == "complete"@,
        r.hashed == written,
        r.snapshot@ == snapshot@,
        r.elapsed_ms == elapsed_ms,
        r.bytes_hashed == bytes,
{
    HashComplete {
        event: "complete",
        hashed: written,
        snapshot: snapshot.to_owned(),
        elapsed_ms,
        bytes_hashed: bytes,
    }
}

/// The summary at the end of a run: files, bytes, bytes per second and time.
pub open spec fn hash_summary(written: u64, bytes: u64, secs: u64, nanos: u32) -> Seq<char> {
    count_text(written as nat) + "  files hashed  "@ + bytes_text(bytes as nat) + "  processed  "@
        + bytes_text(rate(bytes as nat, secs as nat, nanos as nat) as nat) + "/s  "@ + elapsed_text(
        secs as nat,
        nanos as nat,
    )
}

/// The warning that not every path could be read.
pub open spec fn inaccessible() -> Seq<char> {
    "some paths were inaccessible (run with sudo for full coverage)"@
}

/// The lines at the end of a run: the summary, where the snapshot is, and a
/// warning where something could not be read.
pub fn hash_report(
    tty: bool,
    written: u64,
    bytes: u64,
    secs: u64,
    nanos: u32,
    snapshot: &str,
    tally: &HashTally,
) -> (r: Vec<String>)
    ensures
        r.len() == if tally.errors > 0 {
            3int
        } else {
            2int
        },
        r@[0]@ == "\n  "@ + hash_summary(written, bytes, secs, nanos),
        r@[1]@ == "  snapshot: "@ + snapshot@,
        tally.errors > 0 ==> exists|mark: Seq<char>|
            #![trigger shown_as(mark, tty, "!"@, Tint::Yellow)]
            shown_as(mark, tty, "!"@, Tint::Yellow) && r@[2]@ == "  "@ + mark + " "@
                + inaccessible(),
{
    let speed: u64 = throughput(bytes, secs, nanos);
    let summary = fmt_count(written).concat("  files hashed  ").concat(
        fmt_bytes(bytes).as_str(),
    ).concat("  processed  ").concat(fmt_bytes(speed).as_str()).concat("/s  ").concat(
        fmt_elapsed(secs, nanos).as_str(),
    );
    let mut r: Vec<String> = Vec::new();
    r.push(print_summary(summary.as_str()));
    r.push("  snapshot: ".to_owned().concat(snapshot));
    if tally.errors > 0 {
        r.push(
            print_warning(
                tty,
                "some paths were inaccessible (run with sudo for full coverage)",
            ),
        );
    }
    r
}

// ── Laws ─────────────────────────────────────────────────────────────

/// The hash of a file that is not empty is that of all the bytes that were read,
/// however many, and its size is the one it was read with. Without its bytes it
/// has no hash. An empty file has the hash of no bytes.
pub proof fn law_whole_content_is_hashed(size: u64, content: Seq<u8>, other: Option<Seq<u8>>)
    ensures
        size > 0 ==> file_hash(size, Some(content)) == Some((xxh3(content), size)),
        size > 0 ==> file_hash(size, None) is None,
        file_hash(0, other) == Some((xxh3(Seq::empty()), 0u64)),
{
}

/// Files get the same hash where their bytes have the same, whatever their sizes
/// are; so files of different hashes differ in their bytes.
pub proof fn law_hash_goes_by_content(m: u64, n: u64, a: Seq<u8>, b: Seq<u8>)
    requires
        m > 0,
        n > 0,
    ensures
        ({
            let (g, _) = file_hash(m, Some(a)).unwrap();
            let (h, _) = file_hash(n, Some(b)).unwrap();
            g == h <==> xxh3(a) == xxh3(b)
        }),
{
}

/// The text of a hash is its 32 hexadecimal digits, from the most significant on.
pub proof fn law_hash_text_is_hexadecimal(hash: u128, i: int)
    requires
        0 <= i < 32,
    ensures
        hash_text(hash).len() == 32,
        ({
            let d = (hash as nat / pow(16, (31 - i) as nat) as nat) % 16;
            hash_text(hash)[i] as u32 == if d < 10 {
                48 + d
            } else {
                87 + d
            }
        }),
{
    crate::number::lemma_hex_shape(hash as nat, 32);
    law_hex_digits(hash as nat, 32, i);
}

/// A run works on a file exactly where the filter accepts its path, on every file
/// without a filter, and on nothing else.
pub proof fn law_files_are_collected(filter: Filter, path: &str)
    ensures
        collected(None, Visit::File(path)),
        collected(Some(filter), Visit::File(path)) == accepts(filter, path@),
        forall|f: Option<Filter>| !#[trigger] collected(f, Visit::Other),
        forall|f: Option<Filter>| !#[trigger] collected(f, Visit::Unreadable),
{
}

/// The sizes of two lists of files add up; a file counts with its size, and one
/// that could not be hashed does not count.
pub proof fn law_sizes_add_up(a: Seq<Option<HashedFile>>, b: Seq<Option<HashedFile>>, f: HashedFile)
    ensures
        size_sum(a + b) == size_sum(a) + size_sum(b),
        size_sum(seq![Some(f)]) == f.size,
        size_sum(seq![None::<HashedFile>]) == 0,
    decreases b.len(),
{
    reveal_with_fuel(size_sum, 2);
    assert(seq![Some(f)].drop_last() =~= Seq::<Option<HashedFile>>::empty());
    assert(seq![None::<HashedFile>].drop_last() =~= Seq::<Option<HashedFile>>::empty());
    if b.len() == 0 {
        assert(a + b =~= a);
    } else {
        assert((a + b).drop_last() =~= a + b.drop_last());
        law_sizes_add_up(a, b.drop_last(), f);
    }
}

/// The summary shows the files, the bytes, the bytes per second and the time, in
/// this order.
pub proof fn law_hash_summary_reads(written: u64, bytes: u64, secs: u64, nanos: u32)
    ensures
        ({
            let s = hash_summary(written, bytes, secs, nanos);
            let files = count_text(written as nat) + "  files hashed  "@;
            let amount = bytes_text(bytes as nat) + "  processed  "@;
            let speed = bytes_text(rate(bytes as nat, secs as nat, nanos as nat) as nat) + "/s  "@;
            s == files + (amount + (speed + elapsed_text(secs as nat, nanos as nat)))
        }),
        inaccessible() == "some paths were inaccessible (run with sudo for full coverage)"@,
        PROGRESS_STEP == 50_000,
{
    let files = count_text(written as nat) + "  files hashed  "@;
    let amount = bytes_text(bytes as nat) + "  processed  "@;
    let speed = bytes_text(rate(bytes as nat, secs as nat, nanos as nat) as nat) + "/s  "@;
    assert(hash_summary(written, bytes, secs, nanos) =~= files + (amount + (speed + elapsed_text(
        secs as nat,
        nanos as nat,
    ))));
}

} // verus!
