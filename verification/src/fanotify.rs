//! The events that fanotify delivers: their kinds, their layout and the paths
//! they are about.
use crate::bytes::{
    bits_of, copy_bytes, law_number_round_trip, lemma_four_bytes, lemma_two_bytes, number, number_bytes,
    push_number, read_number, signed, to_signed, ByteOrder,
};
use crate::number::{integer, push_integer};
use crate::text::{decoded, ends_with, from_utf8, text_view};
use vstd::arithmetic::power::pow;
use vstd::prelude::*;
use vstd::string::*;
use vstd::utf8::{
    decode_utf8, encode_utf8, encode_utf8_decode_utf8, encode_utf8_first_scalar,
    encode_utf8_valid_utf8, valid_utf8,
};

verus! {

// ── Constants (linux/fanotify.h) ─────────────────────────────────────

pub const FAN_CLASS_NOTIF: u32 = 0x00000000;

pub const FAN_UNLIMITED_QUEUE: u32 = 0x00000010;

pub const FAN_UNLIMITED_MARKS: u32 = 0x00000020;

pub const FAN_REPORT_FID: u32 = 0x00000200;

pub const FAN_REPORT_DIR_FID: u32 = 0x00000400;

pub const FAN_REPORT_NAME: u32 = 0x00000800;

pub const FAN_MARK_ADD: u32 = 0x00000001;

pub const FAN_MARK_FILESYSTEM: u32 = 0x00000100;

pub const FAN_MODIFY: u64 = 0x00000002;

pub const FAN_CLOSE_WRITE: u64 = 0x00000008;

pub const FAN_MOVED_FROM: u64 = 0x00000040;

pub const FAN_MOVED_TO: u64 = 0x00000080;

pub const FAN_CREATE: u64 = 0x00000100;

pub const FAN_DELETE: u64 = 0x00000200;

pub const FAN_NOFD: i32 = -1;

/// The types of information records.
pub const FAN_EVENT_INFO_TYPE_FID: u8 = 1;

pub const FAN_EVENT_INFO_TYPE_DFID_NAME: u8 = 2;

pub const FAN_EVENT_INFO_TYPE_DFID: u8 = 3;

/// The version of the layout that is read here.
pub const FANOTIFY_METADATA_VERSION: u8 = 3;

/// The length of the fixed part of an event.
pub const FAN_EVENT_METADATA_LEN: usize = 24;

/// The length of the header of an information record.
pub const INFO_HEADER_LEN: usize = 4;

/// Where the handle's own bytes begin in an information record, behind its
/// header, the file system's identity, and the handle's length and type.
pub const HANDLE_OFFSET: usize = 20;

// ── Setting up ───────────────────────────────────────────────────────

/// The flags to start with: notifications without a limit, and, where the
/// kernel can, handles of directories and files with names in place of open
/// descriptors.
pub fn init_flags(use_fid: bool) -> (r: u32)
    ensures
        r == if use_fid {
            0xE30u32
        } else {
            0x30u32
        },
{
    assert(0x0u32 | 0x10 | 0x20 | (0x400u32 | 0x800u32) | 0x200 == 0xE30) by (bit_vector);
    assert(0x0u32 | 0x10 | 0x20 == 0x30) by (bit_vector);
    if use_fid {
        FAN_CLASS_NOTIF | FAN_UNLIMITED_QUEUE | FAN_UNLIMITED_MARKS | (FAN_REPORT_DIR_FID
            | FAN_REPORT_NAME) | FAN_REPORT_FID
    } else {
        FAN_CLASS_NOTIF | FAN_UNLIMITED_QUEUE | FAN_UNLIMITED_MARKS
    }
}

/// The events to ask for. Without handles only writes can be asked for.
pub fn event_mask(use_fid: bool) -> (r: u64)
    ensures
        r == if use_fid {
            0x3C2u64
        } else {
            0xAu64
        },
{
    assert(0x100u64 | 0x200 | 0x2 | 0x40 | 0x80 == 0x3C2) by (bit_vector);
    assert(0x8u64 | 0x2 == 0xA) by (bit_vector);
    if use_fid {
        FAN_CREATE | FAN_DELETE | FAN_MODIFY | FAN_MOVED_FROM | FAN_MOVED_TO
    } else {
        FAN_CLOSE_WRITE | FAN_MODIFY
    }
}

/// The flags to mark what is watched with: its whole file system, or, where
/// that is refused, the path alone.
pub fn mark_flags(filesystem: bool) -> (r: u32)
    ensures
        r == if filesystem {
            0x101u32
        } else {
            0x1u32
        },
{
    assert(0x1u32 | 0x100 == 0x101) by (bit_vector);
    if filesystem {
        FAN_MARK_ADD | FAN_MARK_FILESYSTEM
    } else {
        FAN_MARK_ADD
    }
}

// ── Kinds ────────────────────────────────────────────────────────────

/// The kind of an event: of all that its mask says, the first in this order.
pub open spec fn kind_of(mask: u64) -> Seq<char> {
    if mask & 0x100 != 0 {
        "created"@
    } else if mask & 0x200 != 0 {
        "deleted"@
    } else if mask & 0x40 != 0 {
        "moved_from"@
    } else if mask & 0x80 != 0 {
        "moved_to"@
    } else if mask & 0x2 != 0 || mask & 0x8 != 0 {
        "modified"@
    } else {
        "unknown"@
    }
}

/// The kind of an event.
pub fn mask_to_kind(mask: u64) -> (r: &'static str)
    ensures
        r@ == kind_of(mask),
{
    assert(mask & (0x2u64 | 0x8u64) != 0 <==> mask & 0x2 != 0 || mask & 0x8 != 0) by (bit_vector);
    if mask & FAN_CREATE != 0 {
        "created"
    } else if mask & FAN_DELETE != 0 {
        "deleted"
    } else if mask & FAN_MOVED_FROM != 0 {
        "moved_from"
    } else if mask & FAN_MOVED_TO != 0 {
        "moved_to"
    } else if mask & (FAN_MODIFY | FAN_CLOSE_WRITE) != 0 {
        "modified"
    } else {
        "unknown"
    }
}

/// Every event that is asked for has a kind that is known.
pub proof fn law_asked_events_are_known(mask: u64, use_fid: bool)
    requires
        mask & (if use_fid {
            0x3C2u64
        } else {
            0xAu64
        }) != 0,
    ensures
        kind_of(mask) != "unknown"@,
{
    assert(mask & 0x3C2 != 0 ==> mask & 0x100 != 0 || mask & 0x200 != 0 || mask & 0x40 != 0 || mask
        & 0x80 != 0 || mask & 0x2 != 0) by (bit_vector);
    assert(mask & 0xA != 0 ==> mask & 0x2 != 0 || mask & 0x8 != 0) by (bit_vector);
    reveal_strlit("created");
    reveal_strlit("deleted");
    reveal_strlit("moved_from");
    reveal_strlit("moved_to");
    reveal_strlit("modified");
    reveal_strlit("unknown");
    assert("created"@[0] == 'c');
    assert("deleted"@[0] == 'd');
    assert("moved_from"@[0] == 'm');
    assert("moved_to"@[0] == 'm');
    assert("modified"@[0] == 'm');
    assert("unknown"@[0] == 'u');
}

// ── Events ───────────────────────────────────────────────────────────

/// Where an event says what it is about: in the handles that follow it, in an
/// open descriptor, or nowhere.
#[derive(Clone, Copy, PartialEq, Eq, Structural)]
pub enum Source {
    Handles,
    Descriptor(i32),
    Nowhere,
}

/// An event: where it lies among the bytes that were read, and what it says.
#[derive(Clone, Copy, PartialEq, Eq, Structural)]
pub struct Event {
    pub offset: usize,
    pub len: usize,
    pub mask: u64,
    pub source: Source,
}

/// A field of an event or record.
pub open spec fn field(order: ByteOrder, bytes: Seq<u8>, at: int, width: int) -> nat {
    number(order, bytes.subrange(at, at + width))
}

/// Where an event says what it is about, by its descriptor.
pub open spec fn source_of(use_fid: bool, fd: int) -> Source {
    if use_fid && fd == -1 {
        Source::Handles
    } else if fd >= 0 {
        Source::Descriptor(fd as i32)
    } else {
        Source::Nowhere
    }
}

/// The event at a place: none where too few bytes are left, where it is of
/// another version, or where its length is too small or goes beyond the bytes.
pub open spec fn event_at(order: ByteOrder, use_fid: bool, bytes: Seq<u8>, offset: int) -> Option<
    Event,
> {
    if offset + 24 > bytes.len() {
        None
    } else if bytes[offset + 4] != 3 {
        None
    } else {
        let len = field(order, bytes, offset, 4);
        if len < 24 || offset + len > bytes.len() {
            None
        } else {
            Some(
                Event {
                    offset: offset as usize,
                    len: len as usize,
                    mask: field(order, bytes, offset + 8, 8) as u64,
                    source: source_of(use_fid, signed(field(order, bytes, offset + 16, 4))),
                },
            )
        }
    }
}

/// The events from a place on: one after another, up to the first that cannot be
/// read.
pub open spec fn events_from(order: ByteOrder, use_fid: bool, bytes: Seq<u8>, offset: int) -> Seq<
    Event,
>
    decreases bytes.len() - offset,
{
    if 0 <= offset <= bytes.len() <= usize::MAX {
        match event_at(order, use_fid, bytes, offset) {
            Some(e) => seq![e] + events_from(order, use_fid, bytes, offset + e.len),
            None => Seq::empty(),
        }
    } else {
        Seq::empty()
    }
}

/// Reads the event at a place.
pub fn read_event(bytes: &[u8], offset: usize, use_fid: bool, order: ByteOrder) -> (r: Option<
    Event,
>)
    requires
        offset <= bytes@.len(),
    ensures
        r == event_at(order, use_fid, bytes@, offset as int),
        r matches Some(e) ==> e.offset == offset && 24 <= e.len && offset + e.len <= bytes@.len(),
{
    let total: usize = bytes.len();
    if total - offset < FAN_EVENT_METADATA_LEN {
        return None;
    }
    if bytes[offset + 4] != FANOTIFY_METADATA_VERSION {
        return None;
    }
    let len: u64 = read_number(bytes, offset, 4, order);
    proof {
        lemma_four_bytes(order, bytes@.subrange(offset as int, offset + 4));
    }
    if len < FAN_EVENT_METADATA_LEN as u64 || len > (total - offset) as u64 {
        return None;
    }
    let mask: u64 = read_number(bytes, offset + 8, 8, order);
    proof {
        lemma_four_bytes(order, bytes@.subrange(offset + 16, offset + 20));
    }
    let fd: i32 = to_signed(read_number(bytes, offset + 16, 4, order));
    let source = if use_fid && fd == FAN_NOFD {
        Source::Handles
    } else if fd >= 0 {
        Source::Descriptor(fd)
    } else {
        Source::Nowhere
    };
    Some(Event { offset, len: len as usize, mask, source })
}

/// Reads all events among the bytes.
pub fn read_events(bytes: &[u8], use_fid: bool, order: ByteOrder) -> (r: Vec<Event>)
    ensures
        r@ == events_from(order, use_fid, bytes@, 0),
        forall|i: int|
            0 <= i < r.len() ==> 24 <= (#[trigger] r@[i]).len && r@[i].offset + r@[i].len
                <= bytes@.len(),
{
    let total: usize = bytes.len();
    let mut r: Vec<Event> = Vec::new();
    let mut offset: usize = 0;
    let mut more = true;
    proof {
        assert(r@ + events_from(order, use_fid, bytes@, 0) =~= events_from(order, use_fid, bytes@, 0));
    }
    while more
        invariant
            total == bytes@.len(),
            offset <= total,
            more ==> r@ + events_from(order, use_fid, bytes@, offset as int) == events_from(
                order,
                use_fid,
                bytes@,
                0,
            ),
            !more ==> r@ == events_from(order, use_fid, bytes@, 0),
            forall|i: int|
                0 <= i < r.len() ==> 24 <= (#[trigger] r@[i]).len && r@[i].offset + r@[i].len
                    <= bytes@.len(),
        decreases
                total - offset,
                if more {
                    1int
                } else {
                    0int
                },
    {
        match read_event(bytes, offset, use_fid, order) {
            Some(e) => {
                let ghost before = r@;
                r.push(e);
                proof {
                    let rest = events_from(order, use_fid, bytes@, offset + e.len);
                    assert(before.push(e) + rest =~= before + (seq![e] + rest));
                }
                offset = offset + e.len;
            },
            None => {
                assert(r@ + Seq::<Event>::empty() =~= r@);
                more = false;
            },
        }
    }
    r
}

/// Events that were read lie one behind the other: the first at the start, and
/// each later one where the one before it ends.
pub proof fn law_events_are_adjacent(order: ByteOrder, use_fid: bool, bytes: Seq<u8>, offset: int, i: int)
    requires
        0 <= offset <= bytes.len() <= usize::MAX,
        0 <= i < events_from(order, use_fid, bytes, offset).len(),
    ensures
        ({
            let events = events_from(order, use_fid, bytes, offset);
            &&& events[0].offset == offset
            &&& i > 0 ==> events[i].offset == events[i - 1].offset + events[i - 1].len
        }),
    decreases bytes.len() - offset,
{
    match event_at(order, use_fid, bytes, offset) {
        Some(e) => {
            let rest = events_from(order, use_fid, bytes, offset + e.len);
            assert(events_from(order, use_fid, bytes, offset) == seq![e] + rest);
            if i > 0 {
                law_events_are_adjacent(order, use_fid, bytes, offset + e.len, i - 1);
            }
        },
        None => {},
    }
}

// ── Records ──────────────────────────────────────────────────────────

/// What an information record says: a handle of a directory or of the file
/// itself, and, of a directory, the name of a child, as bytes.
pub struct HandleRecord {
    pub directory: bool,
    pub handle_type: i32,
    pub handle: Vec<u8>,
    pub name: Option<Vec<u8>>,
}

/// What an information record says, as its model.
#[verifier::ext_equal]
pub struct RecordContent {
    pub directory: bool,
    pub handle_type: int,
    pub handle: Seq<u8>,
    pub name: Option<Seq<u8>>,
}

/// Optional bytes, as their model.
pub open spec fn bytes_view(b: Option<Vec<u8>>) -> Option<Seq<u8>> {
    match b {
        Some(v) => Some(v@),
        None => None,
    }
}

impl View for HandleRecord {
    type V = RecordContent;

    open spec fn view(&self) -> RecordContent {
        RecordContent {
            directory: self.directory,
            handle_type: self.handle_type as int,
            handle: self.handle@,
            name: bytes_view(self.name),
        }
    }
}

/// Records, as their models.
pub open spec fn record_contents(v: Seq<HandleRecord>) -> Seq<RecordContent> {
    v.map_values(|r: HandleRecord| r@)
}

/// The bytes before the first that is zero, or all of them.
pub open spec fn before_zero(bytes: Seq<u8>) -> Seq<u8>
    decreases bytes.len(),
{
    if bytes.len() == 0 || bytes[0] == 0 {
        Seq::empty()
    } else {
        seq![bytes[0]] + before_zero(bytes.drop_first())
    }
}

/// The name that stands in the bytes of a record behind the handle: none where
/// it is empty.
pub open spec fn name_in(bytes: Seq<u8>) -> Option<Seq<u8>> {
    let name = before_zero(bytes);
    if name.len() > 0 {
        Some(name)
    } else {
        None
    }
}

/// The type of the record at a place.
pub open spec fn record_type(bytes: Seq<u8>, pos: int) -> u8 {
    bytes[pos]
}

/// The length of the record at a place.
pub open spec fn record_len(order: ByteOrder, bytes: Seq<u8>, pos: int) -> nat {
    field(order, bytes, pos + 2, 2)
}

/// Whether a record begins at a place: its header is there, and its length is
/// that of a header at least and stays within the event.
pub open spec fn record_begins(order: ByteOrder, bytes: Seq<u8>, pos: int, end: int) -> bool {
    &&& pos + 4 <= end
    &&& 4 <= record_len(order, bytes, pos)
    &&& pos + record_len(order, bytes, pos) <= end
}

/// Whether the record at a place is of a type that holds a handle.
pub open spec fn holds_handle(bytes: Seq<u8>, pos: int) -> bool {
    1 <= record_type(bytes, pos) <= 3
}

/// The length of the handle in the record at a place.
pub open spec fn handle_len(order: ByteOrder, bytes: Seq<u8>, pos: int) -> nat {
    field(order, bytes, pos + 12, 4)
}

/// Whether the handle in the record at a place stays within the event.
pub open spec fn handle_fits(order: ByteOrder, bytes: Seq<u8>, pos: int, end: int) -> bool {
    pos + 20 <= end && pos + 20 + handle_len(order, bytes, pos) <= end
}

/// What the record at a place says.
pub open spec fn record_at(order: ByteOrder, bytes: Seq<u8>, pos: int) -> RecordContent {
    let behind = pos + 20 + handle_len(order, bytes, pos);
    let until = pos + record_len(order, bytes, pos);
    RecordContent {
        directory: record_type(bytes, pos) != 1,
        handle_type: signed(field(order, bytes, pos + 16, 4)),
        handle: bytes.subrange(pos + 20, behind),
        name: if record_type(bytes, pos) == 2 && behind < until {
            name_in(bytes.subrange(behind, until))
        } else {
            None
        },
    }
}

/// What the records from a place to the end of an event say: those that hold a
/// handle, up to the first that does not stay within the event.
pub open spec fn records_from(order: ByteOrder, bytes: Seq<u8>, pos: int, end: int) -> Seq<
    RecordContent,
>
    decreases end - pos,
{
    if record_begins(order, bytes, pos, end) {
        let next = pos + record_len(order, bytes, pos);
        if !holds_handle(bytes, pos) {
            records_from(order, bytes, next, end)
        } else if handle_fits(order, bytes, pos, end) {
            seq![record_at(order, bytes, pos)] + records_from(order, bytes, next, end)
        } else {
            Seq::empty()
        }
    } else {
        Seq::empty()
    }
}

/// The bytes before the first that is zero are so many.
proof fn lemma_before_zero(bytes: Seq<u8>, n: int)
    requires
        0 <= n <= bytes.len(),
        forall|i: int| 0 <= i < n ==> bytes[i] != 0,
        n < bytes.len() ==> bytes[n] == 0,
    ensures
        before_zero(bytes) == bytes.take(n),
    decreases n,
{
    if n == 0 {
        assert(bytes.take(0) =~= Seq::<u8>::empty());
    } else {
        let rest = bytes.drop_first();
        assert(forall|i: int| 0 <= i < rest.len() ==> rest[i] == bytes[i + 1]);
        lemma_before_zero(rest, n - 1);
        assert(bytes.take(n) =~= seq![bytes[0]] + rest.take(n - 1));
    }
}

/// Reads the name that stands between two places.
fn read_name(bytes: &[u8], from: usize, to: usize) -> (r: Option<Vec<u8>>)
    requires
        from <= to <= bytes@.len(),
    ensures
        bytes_view(r) == name_in(bytes@.subrange(from as int, to as int)),
{
    let ghost part = bytes@.subrange(from as int, to as int);
    let mut end: usize = from;
    while end < to && bytes[end] != 0
        invariant
            from <= end <= to <= bytes@.len(),
            part == bytes@.subrange(from as int, to as int),
            forall|i: int| 0 <= i < end - from ==> part[i] != 0,
        decreases to - end,
    {
        assert(part[end - from] == bytes@[end as int]);
        end = end + 1;
    }
    proof {
        assert(end < to ==> part[end - from] == bytes@[end as int]);
        lemma_before_zero(part, end - from);
        assert(part.take(end - from) =~= bytes@.subrange(from as int, end as int));
    }
    if end > from {
        Some(copy_bytes(bytes, from, end))
    } else {
        None
    }
}

/// Reads what the record at a place says.
fn read_record(bytes: &[u8], pos: usize, end: usize, order: ByteOrder) -> (r: HandleRecord)
    requires
        end <= bytes@.len(),
        record_begins(order, bytes@, pos as int, end as int),
        handle_fits(order, bytes@, pos as int, end as int),
    ensures
        r@ == record_at(order, bytes@, pos as int),
{
    let record: u64 = read_number(bytes, pos + 2, 2, order);
    let length: u64 = read_number(bytes, pos + 12, 4, order);
    proof {
        lemma_four_bytes(order, bytes@.subrange(pos + 16, pos + 20));
    }
    let handle_type: i32 = to_signed(read_number(bytes, pos + 16, 4, order));
    let behind: usize = pos + HANDLE_OFFSET + length as usize;
    let until: usize = pos + record as usize;
    let name = if bytes[pos] == FAN_EVENT_INFO_TYPE_DFID_NAME && behind < until {
        read_name(bytes, behind, until)
    } else {
        None
    };
    HandleRecord {
        directory: bytes[pos] != FAN_EVENT_INFO_TYPE_FID,
        handle_type,
        handle: copy_bytes(bytes, pos + HANDLE_OFFSET, behind),
        name,
    }
}

/// Reads what the information records of an event say.
pub fn fid_records(bytes: &[u8], event_offset: usize, event_len: usize, order: ByteOrder) -> (r: Vec<
    HandleRecord,
>)
    requires
        event_offset + event_len <= bytes@.len(),
    ensures
        record_contents(r@) == records_from(
            order,
            bytes@,
            event_offset + 24,
            event_offset + event_len,
        ),
{
    let total: usize = bytes.len();
    let end: usize = event_offset + event_len;
    let ghost want = records_from(order, bytes@, event_offset + 24, end as int);
    let mut r: Vec<HandleRecord> = Vec::new();
    assert(record_contents(r@) =~= Seq::<RecordContent>::empty());
    if event_len < FAN_EVENT_METADATA_LEN {
        return r;
    }
    let mut pos: usize = event_offset + FAN_EVENT_METADATA_LEN;
    let mut more = true;
    assert(record_contents(r@) + want =~= want);
    while more
        invariant
            end <= bytes@.len() == total,
            pos <= end,
            more ==> record_contents(r@) + records_from(order, bytes@, pos as int, end as int)
                == want,
            !more ==> record_contents(r@) == want,
        decreases
                end - pos,
                if more {
                    1int
                } else {
                    0int
                },
    {
        let ghost before = record_contents(r@);
        assert(before + Seq::<RecordContent>::empty() =~= before);
        if end - pos < INFO_HEADER_LEN {
            more = false;
        } else {
            let length: u64 = read_number(bytes, pos + 2, 2, order);
            proof {
                lemma_two_bytes(order, bytes@.subrange(pos + 2, pos + 4));
            }
            let kind: u8 = bytes[pos];
            if length < INFO_HEADER_LEN as u64 || length > (end - pos) as u64 {
                more = false;
            } else if kind != FAN_EVENT_INFO_TYPE_DFID_NAME && kind != FAN_EVENT_INFO_TYPE_DFID
                && kind != FAN_EVENT_INFO_TYPE_FID {
                pos = pos + length as usize;
            } else if end - pos < HANDLE_OFFSET {
                more = false;
            } else {
                let handle: u64 = read_number(bytes, pos + 12, 4, order);
                if handle > (end - pos - HANDLE_OFFSET) as u64 {
                    more = false;
                } else {
                    let record = read_record(bytes, pos, end, order);
                    let ghost next = records_from(order, bytes@, pos + length, end as int);
                    let ghost said = record@;
                    let ghost held = r@;
                    r.push(record);
                    proof {
                        assert(record_contents(held.push(record)) =~= before.push(said));
                        assert(before.push(said) + next =~= before + (seq![said] + next));
                    }
                    pos = pos + length as usize;
                }
            }
        }
    }
    r
}

// ── Paths ────────────────────────────────────────────────────────────

/// What is known of a path while the records of an event are gone through: a
/// directory, or the file itself, and a name in it.
#[verifier::ext_equal]
pub struct PathParts {
    pub dir: Option<Seq<char>>,
    pub name: Option<Seq<char>>,
}

/// What is known of a path with one more record and what its handle resolves
/// to. A directory takes the place of what was known; the file itself does not.
/// A name takes the place of the one before, also where it is no text.
pub open spec fn with_record(
    parts: PathParts,
    record: RecordContent,
    resolved: Option<Seq<char>>,
) -> PathParts {
    PathParts {
        dir: if record.directory && resolved is Some || parts.dir is None {
            resolved
        } else {
            parts.dir
        },
        name: match record.name {
            Some(b) => decoded(b),
            None => parts.name,
        },
    }
}

/// What is known of a path with all records.
pub open spec fn with_records(
    records: Seq<RecordContent>,
    resolved: Seq<Option<Seq<char>>>,
) -> PathParts
    decreases records.len(),
{
    if records.len() == 0 {
        PathParts { dir: None, name: None }
    } else {
        with_record(
            with_records(records.drop_last(), resolved),
            records.last(),
            resolved[records.len() - 1],
        )
    }
}

/// A directory and a name in it as one path, with one slash between them where
/// the directory does not end in one.
pub open spec fn joined(dir: Seq<char>, name: Seq<char>) -> Seq<char> {
    if dir.len() > 0 && dir.last() == '/' {
        dir + name
    } else {
        dir + "/"@ + name
    }
}

/// The path that is known: the directory and the name, or the one of them that
/// is known.
pub open spec fn path_of(parts: PathParts) -> Option<Seq<char>> {
    match (parts.dir, parts.name) {
        (Some(dir), Some(name)) => Some(joined(dir, name)),
        (Some(dir), None) => Some(dir),
        (None, name) => name,
    }
}

/// Optional texts, as their models.
pub open spec fn optional_texts(v: Seq<Option<String>>) -> Seq<Option<Seq<char>>> {
    v.map_values(|s: Option<String>| text_view(s))
}

/// A directory and a name in it as one path.
pub fn join(dir: &str, name: &str) -> (r: String)
    ensures
        r@ == joined(dir@, name@),
{
    proof {
        reveal_strlit("/");
        assert("/"@ =~= seq!['/']);
        assert("/"@.is_suffix_of(dir@) <==> dir@.len() > 0 && dir@.last() == '/') by {
            if dir@.len() > 0 {
                let end = dir@.subrange(dir@.len() - 1, dir@.len() as int);
                assert(end[0] == dir@.last());
                if dir@.last() == '/' {
                    assert(end =~= "/"@);
                }
                if "/"@.is_suffix_of(dir@) {
                    assert(end == "/"@);
                }
            }
        }
    }
    if ends_with(dir, "/") {
        dir.to_owned().concat(name)
    } else {
        dir.to_owned().concat("/").concat(name)
    }
}

/// The path that an event is about, by its records and by what each of their
/// handles resolves to.
pub fn fid_path(records: Vec<HandleRecord>, resolved: Vec<Option<String>>) -> (r: Option<String>)
    requires
        records.len() == resolved.len(),
    ensures
        text_view(r) == path_of(
            with_records(record_contents(records@), optional_texts(resolved@)),
        ),
{
    let ghost rs = record_contents(records@);
    let ghost ps = optional_texts(resolved@);
    let mut dir: Option<String> = None;
    let mut file_name: Option<String> = None;
    let mut paths = resolved;
    let mut i: usize = 0;
    assert(rs.take(0) =~= Seq::<RecordContent>::empty());
    for record in it: records
        invariant
            record_contents(it.seq()) == rs,
            rs.len() == ps.len(),
            paths.len() == ps.len(),
            i == it.index(),
            forall|k: int| i <= k < paths.len() ==> text_view(#[trigger] paths@[k]) == ps[k],
            with_records(rs.take(i as int), ps) == (PathParts {
                dir: text_view(dir),
                name: text_view(file_name),
            }),
    {
        proof {
            assert(rs.take(i + 1).drop_last() =~= rs.take(i as int));
            assert(rs.take(i + 1).last() == rs[i as int]);
            assert(rs[i as int] == record@);
        }
        let mut path: Option<String> = None;
        paths.set_and_swap(i, &mut path);
        if record.directory {
            if path.is_some() {
                dir = path;
            }
        } else if dir.is_none() {
            dir = path;
        }
        if let Some(b) = record.name {
            file_name = from_utf8(b);
        }
        i = i + 1;
    }
    assert(rs.take(rs.len() as int) =~= rs);
    match (dir, file_name) {
        (Some(d), Some(n)) => Some(join(d.as_str(), n.as_str())),
        (Some(d), None) => Some(d),
        (None, n) => n,
    }
}

// ── Handles ──────────────────────────────────────────────────────────

/// The bytes of a handle as the kernel takes it: the length of its own bytes,
/// its type, and its own bytes.
pub open spec fn handle_bytes(order: ByteOrder, handle_type: i32, handle: Seq<u8>) -> Seq<u8> {
    number_bytes(order, handle.len() % 0x1_0000_0000, 4) + number_bytes(
        order,
        bits_of(handle_type),
        4,
    ) + handle
}

/// Builds the bytes of a handle as the kernel takes it.
pub fn file_handle(handle_type: i32, handle: &Vec<u8>, order: ByteOrder) -> (r: Vec<u8>)
    ensures
        r@ == handle_bytes(order, handle_type, handle@),
{
    let mut r: Vec<u8> = Vec::new();
    let length: u32 = (handle.len() as u64 % 0x1_0000_0000) as u32;
    let bits: u32 = if handle_type >= 0 {
        handle_type as u32
    } else {
        (handle_type as i64 + 0x1_0000_0000) as u32
    };
    push_number(&mut r, length, order);
    push_number(&mut r, bits, order);
    let ghost head = r@;
    let mut i: usize = 0;
    while i < handle.len()
        invariant
            i <= handle.len(),
            r@ == head + handle@.take(i as int),
        decreases handle.len() - i,
    {
        r.push(handle[i]);
        i = i + 1;
        assert(r@ =~= head + handle@.take(i as int));
    }
    proof {
        assert(handle@.take(i as int) =~= handle@);
        assert(r@ =~= handle_bytes(order, handle_type, handle@));
    }
    r
}

/// A handle that is built of what a record says has the length, the type and the
/// bytes that the record has.
pub proof fn law_handle_round_trip(order: ByteOrder, handle_type: i32, handle: Seq<u8>)
    requires
        handle.len() < 0x1_0000_0000,
    ensures
        ({
            let bytes = handle_bytes(order, handle_type, handle);
            &&& bytes.len() == 8 + handle.len()
            &&& field(order, bytes, 0, 4) == handle.len()
            &&& signed(field(order, bytes, 4, 4)) == handle_type
            &&& bytes.subrange(8, bytes.len() as int) == handle
        }),
{
    assert(pow(256, 4) == 0x1_0000_0000) by {
        reveal_with_fuel(pow, 5);
    }
    law_number_round_trip(order, handle.len(), 4);
    law_number_round_trip(order, bits_of(handle_type), 4);
    let bytes = handle_bytes(order, handle_type, handle);
    assert(bytes.subrange(0, 4) =~= number_bytes(order, handle.len(), 4));
    assert(bytes.subrange(4, 8) =~= number_bytes(order, bits_of(handle_type), 4));
    assert(bytes.subrange(8, bytes.len() as int) =~= handle);
}

/// The path under which an open descriptor leads to its file.
pub fn descriptor_path(fd: i32) -> (r: String)
    ensures
        r@ == "/proc/self/fd/"@ + integer(fd as int),
{
    let mut r = "/proc/self/fd/".to_owned();
    push_integer(&mut r, fd);
    r
}

/// The bytes of a record that holds the handle of a directory and the name of a
/// child, behind which padding may follow.
pub open spec fn named_record(
    order: ByteOrder,
    fsid: Seq<u8>,
    handle_type: i32,
    handle: Seq<u8>,
    name: Seq<u8>,
    padding: Seq<u8>,
) -> Seq<u8> {
    seq![2u8, 0u8] + number_bytes(order, 12 + 8 + handle.len() + name.len() + padding.len(), 2) + fsid
        + handle_bytes(order, handle_type, handle) + name + padding
}

/// What the fields of such a record hold, where it stands behind the fixed part
/// of an event.
#[verifier::rlimit(40)]
proof fn lemma_named_record_fields(
    order: ByteOrder,
    head: Seq<u8>,
    fsid: Seq<u8>,
    handle_type: i32,
    handle: Seq<u8>,
    name: Seq<u8>,
    padding: Seq<u8>,
)
    requires
        head.len() == 24,
        fsid.len() == 8,
        20 + handle.len() + name.len() + padding.len() < 0x1_0000,
    ensures
        ({
            let bytes = head + named_record(order, fsid, handle_type, handle, name, padding);
            let n = handle.len() as int;
            &&& bytes.len() == 44 + n + name.len() + padding.len()
            &&& record_type(bytes, 24) == 2
            &&& record_len(order, bytes, 24) == 20 + n + name.len() + padding.len()
            &&& handle_len(order, bytes, 24) == n
            &&& signed(field(order, bytes, 40, 4)) == handle_type
            &&& bytes.subrange(44, 44 + n) == handle
            &&& bytes.subrange(44 + n, bytes.len() as int) == name + padding
        }),
{
    let length = 20 + handle.len() + name.len() + padding.len();
    let bytes = head + named_record(order, fsid, handle_type, handle, name, padding);
    let held = handle_bytes(order, handle_type, handle);
    let n = handle.len() as int;
    assert(pow(256, 2) == 0x1_0000) by {
        reveal_with_fuel(pow, 3);
    }
    law_number_round_trip(order, length, 2);
    law_handle_round_trip(order, handle_type, handle);
    assert(bytes[24] == 2);
    assert(bytes.subrange(26, 28) =~= number_bytes(order, length, 2));
    assert(bytes.subrange(36, 40) =~= held.subrange(0, 4));
    assert(bytes.subrange(40, 44) =~= held.subrange(4, 8));
    assert(bytes.subrange(44, 44 + n) =~= held.subrange(8, held.len() as int));
    assert(bytes.subrange(44 + n, bytes.len() as int) =~= name + padding);
}

/// The name behind which padding follows is the one that is read.
proof fn lemma_padded_name(name: Seq<u8>, padding: Seq<u8>)
    requires
        name.len() > 0,
        forall|i: int| 0 <= i < name.len() ==> (#[trigger] name[i]) != 0,
        padding.len() > 0 ==> padding[0] == 0,
    ensures
        name_in(name + padding) == Some(name),
{
    let both = name + padding;
    assert forall|i: int| 0 <= i < name.len() implies both[i] != 0 by {
        assert(both[i] == name[i]);
    }
    lemma_before_zero(both, name.len() as int);
    assert(both.take(name.len() as int) =~= name);
}

/// An event with one such record, and nothing else, says what the record holds.
proof fn lemma_one_record(order: ByteOrder, bytes: Seq<u8>, content: RecordContent)
    requires
        record_begins(order, bytes, 24, bytes.len() as int),
        24 + record_len(order, bytes, 24) == bytes.len(),
        holds_handle(bytes, 24),
        handle_fits(order, bytes, 24, bytes.len() as int),
        record_at(order, bytes, 24) == content,
    ensures
        records_from(order, bytes, 24, bytes.len() as int) == seq![content],
{
    let end = bytes.len() as int;
    assert(records_from(order, bytes, end, end) =~= Seq::<RecordContent>::empty());
    assert(records_from(order, bytes, 24, end) =~= seq![content]);
}

/// An event with such a record says what the record holds, and is about the
/// child, in the directory that the handle resolves to.
#[verifier::rlimit(40)]
pub proof fn law_named_event_is_read(
    order: ByteOrder,
    head: Seq<u8>,
    fsid: Seq<u8>,
    handle_type: i32,
    handle: Seq<u8>,
    name: Seq<char>,
    padding: Seq<u8>,
    dir: Seq<char>,
)
    requires
        head.len() == 24,
        fsid.len() == 8,
        name.len() > 0,
        forall|i: int|
            0 <= i < encode_utf8(name).len() ==> (#[trigger] encode_utf8(name)[i]) != 0,
        padding.len() > 0 ==> padding[0] == 0,
        20 + handle.len() + encode_utf8(name).len() + padding.len() < 0x1_0000,
    ensures
        ({
            let bytes = head + named_record(
                order,
                fsid,
                handle_type,
                handle,
                encode_utf8(name),
                padding,
            );
            let records = records_from(order, bytes, 24, bytes.len() as int);
            &&& records == seq![
                RecordContent {
                    directory: true,
                    handle_type: handle_type as int,
                    handle,
                    name: Some(encode_utf8(name)),
                },
            ]
            &&& path_of(with_records(records, seq![Some(dir)])) == Some(joined(dir, name))
        }),
{
    let text = encode_utf8(name);
    let bytes = head + named_record(order, fsid, handle_type, handle, text, padding);
    let content = RecordContent {
        directory: true,
        handle_type: handle_type as int,
        handle,
        name: Some(text),
    };
    encode_utf8_valid_utf8(name);
    encode_utf8_decode_utf8(name);
    assert(text.len() > 0) by {
        encode_utf8_first_scalar(name);
    }
    lemma_named_record_fields(order, head, fsid, handle_type, handle, text, padding);
    lemma_padded_name(text, padding);
    assert(record_at(order, bytes, 24) =~= content);
    lemma_one_record(order, bytes, content);
    let records = seq![content];
    reveal_with_fuel(with_records, 2);
    assert(records.drop_last() =~= Seq::<RecordContent>::empty());
}

// ── Laws on events ───────────────────────────────────────────────────

/// The list of events is complete: where the last of them ends, no further event
/// can be read, for want of bytes, for its version, or for its length.
pub proof fn law_events_are_complete(order: ByteOrder, use_fid: bool, bytes: Seq<u8>, offset: int)
    requires
        0 <= offset <= bytes.len() <= usize::MAX,
    ensures
        ({
            let events = events_from(order, use_fid, bytes, offset);
            let end = if events.len() == 0 {
                offset
            } else {
                events.last().offset + events.last().len
            };
            &&& offset <= end <= bytes.len()
            &&& {
                ||| bytes.len() - end < 24
                ||| bytes[end + 4] != 3
                ||| number(order, bytes.subrange(end, end + 4)) < 24
                ||| end + number(order, bytes.subrange(end, end + 4)) > bytes.len()
            }
        }),
    decreases bytes.len() - offset,
{
    match event_at(order, use_fid, bytes, offset) {
        Some(e) => {
            let rest = events_from(order, use_fid, bytes, offset + e.len);
            let events = events_from(order, use_fid, bytes, offset);
            assert(events == seq![e] + rest);
            law_events_are_complete(order, use_fid, bytes, offset + e.len);
            if rest.len() > 0 {
                assert(events.last() == rest.last());
            } else {
                assert(events =~= seq![e]);
            }
        },
        None => {},
    }
}

/// What an event says, and the bytes of it that say nothing here.
pub struct EventParts {
    pub mask: u64,
    pub fd: i32,
    pub reserved: Seq<u8>,
    pub pid: Seq<u8>,
    pub records: Seq<u8>,
}

/// Whether an event can be laid out.
pub open spec fn can_be_laid_out(p: EventParts) -> bool {
    p.reserved.len() == 3 && p.pid.len() == 4 && 24 + p.records.len() < 0x1_0000_0000
}

/// The bytes of an event.
pub open spec fn event_bytes(order: ByteOrder, p: EventParts) -> Seq<u8> {
    number_bytes(order, 24 + p.records.len(), 4) + seq![3u8] + p.reserved + number_bytes(
        order,
        p.mask as nat,
        8,
    ) + number_bytes(order, bits_of(p.fd), 4) + p.pid + p.records
}

/// An event that is laid out among bytes is read as what it was made of: its
/// place, its length with its records, its mask, and where it says what it is
/// about.
#[verifier::rlimit(40)]
pub proof fn law_event_is_read(
    order: ByteOrder,
    use_fid: bool,
    before: Seq<u8>,
    p: EventParts,
    after: Seq<u8>,
)
    requires
        can_be_laid_out(p),
        before.len() + event_bytes(order, p).len() + after.len() <= usize::MAX,
    ensures
        event_bytes(order, p).len() == 24 + p.records.len(),
        event_at(order, use_fid, before + event_bytes(order, p) + after, before.len() as int)
            == Some(
            Event {
                offset: before.len() as usize,
                len: (24 + p.records.len()) as usize,
                mask: p.mask,
                source: if use_fid && p.fd == -1 {
                    Source::Handles
                } else if p.fd >= 0 {
                    Source::Descriptor(p.fd)
                } else {
                    Source::Nowhere
                },
            },
        ),
{
    assert(pow(256, 4) == 0x1_0000_0000) by {
        reveal_with_fuel(pow, 5);
    }
    assert(pow(256, 8) == 0x1_0000_0000_0000_0000) by {
        reveal_with_fuel(pow, 9);
    }
    let length = 24 + p.records.len();
    law_number_round_trip(order, length, 4);
    law_number_round_trip(order, p.mask as nat, 8);
    law_number_round_trip(order, bits_of(p.fd), 4);
    let e = event_bytes(order, p);
    let bytes = before + e + after;
    let n = before.len() as int;
    assert(e.len() == length);
    assert(e[4] == 3);
    assert(bytes[n + 4] == e[4]);
    assert(bytes.subrange(n, n + 4) =~= number_bytes(order, length, 4));
    assert(bytes.subrange(n + 8, n + 16) =~= number_bytes(order, p.mask as nat, 8));
    assert(bytes.subrange(n + 16, n + 20) =~= number_bytes(order, bits_of(p.fd), 4));
}

/// The bytes of events, one behind the other.
pub open spec fn all_event_bytes(order: ByteOrder, list: Seq<EventParts>) -> Seq<u8>
    decreases list.len(),
{
    if list.len() == 0 {
        Seq::empty()
    } else {
        event_bytes(order, list[0]) + all_event_bytes(order, list.drop_first())
    }
}

/// Of any number of events laid out one behind the other, one is read for each,
/// in their order, with its mask.
#[verifier::rlimit(40)]
pub proof fn law_all_events_are_read(
    order: ByteOrder,
    use_fid: bool,
    before: Seq<u8>,
    list: Seq<EventParts>,
)
    requires
        forall|i: int| 0 <= i < list.len() ==> can_be_laid_out(#[trigger] list[i]),
        before.len() + all_event_bytes(order, list).len() <= usize::MAX,
    ensures
        ({
            let events = events_from(
                order,
                use_fid,
                before + all_event_bytes(order, list),
                before.len() as int,
            );
            &&& events.len() == list.len()
            &&& forall|i: int| 0 <= i < list.len() ==> (#[trigger] events[i]).mask == list[i].mask
        }),
    decreases list.len(),
{
    let bytes = before + all_event_bytes(order, list);
    if list.len() > 0 {
        let e = event_bytes(order, list[0]);
        let rest = list.drop_first();
        let tail = all_event_bytes(order, rest);
        assert(bytes =~= before + e + tail);
        law_event_is_read(order, use_fid, before, list[0], tail);
        assert(bytes =~= (before + e) + tail);
        law_all_events_are_read(order, use_fid, before + e, rest);
        let later = events_from(order, use_fid, bytes, (before.len() + e.len()) as int);
        let first = event_at(order, use_fid, bytes, before.len() as int)->0;
        let events = events_from(order, use_fid, bytes, before.len() as int);
        assert(events == seq![first] + later);
        assert forall|i: int| 0 <= i < list.len() implies (#[trigger] events[i]).mask
            == list[i].mask by {
            if i > 0 {
                assert(events[i] == later[i - 1]);
                assert(rest[i - 1] == list[i]);
            }
        }
    } else {
        assert(bytes =~= before);
    }
}

/// The kind of an event goes by the bits of its mask: a creation before a
/// deletion, that before a move from or to a place, and that before a write. A
/// mask without any of them is of no known kind.
pub proof fn law_kinds_go_by_bits(mask: u64)
    ensures
        mask & FAN_CREATE != 0 ==> kind_of(mask) == "created"@,
        mask & FAN_CREATE == 0 && mask & FAN_DELETE != 0 ==> kind_of(mask) == "deleted"@,
        mask & FAN_CREATE == 0 && mask & FAN_DELETE == 0 && mask & FAN_MOVED_FROM != 0 ==> kind_of(
            mask,
        ) == "moved_from"@,
        mask & FAN_CREATE == 0 && mask & FAN_DELETE == 0 && mask & FAN_MOVED_FROM == 0 && mask
            & FAN_MOVED_TO != 0 ==> kind_of(mask) == "moved_to"@,
        mask & FAN_CREATE == 0 && mask & FAN_DELETE == 0 && mask & FAN_MOVED_FROM == 0 && mask
            & FAN_MOVED_TO == 0 && (mask & FAN_MODIFY != 0 || mask & FAN_CLOSE_WRITE != 0)
            ==> kind_of(mask) == "modified"@,
        mask & FAN_CREATE == 0 && mask & FAN_DELETE == 0 && mask & FAN_MOVED_FROM == 0 && mask
            & FAN_MOVED_TO == 0 && mask & FAN_MODIFY == 0 && mask & FAN_CLOSE_WRITE == 0
            ==> kind_of(mask) == "unknown"@,
        FAN_CREATE == 0x100 && FAN_DELETE == 0x200 && FAN_MOVED_FROM == 0x40 && FAN_MOVED_TO == 0x80
            && FAN_MODIFY == 0x2 && FAN_CLOSE_WRITE == 0x8,
{
}

// ── Laws on records ──────────────────────────────────────────────────

/// What an information record is made of.
pub struct RecordParts {
    pub kind: u8,
    pub fsid: Seq<u8>,
    pub handle_type: i32,
    pub handle: Seq<u8>,
    pub rest: Seq<u8>,
}

/// Whether a record can be laid out.
pub open spec fn record_fits(p: RecordParts) -> bool {
    p.fsid.len() == 8 && 20 + p.handle.len() + p.rest.len() < 0x1_0000
}

/// The bytes of a record.
pub open spec fn record_bytes(order: ByteOrder, p: RecordParts) -> Seq<u8> {
    seq![p.kind, 0u8] + number_bytes(order, 20 + p.handle.len() + p.rest.len(), 2) + p.fsid
        + handle_bytes(order, p.handle_type, p.handle) + p.rest
}

/// The bytes of records, one behind the other.
pub open spec fn all_record_bytes(order: ByteOrder, list: Seq<RecordParts>) -> Seq<u8>
    decreases list.len(),
{
    if list.len() == 0 {
        Seq::empty()
    } else {
        record_bytes(order, list[0]) + all_record_bytes(order, list.drop_first())
    }
}

/// What a record says: its handle, of a directory unless it is of the file itself,
/// and the name behind it where the record is of the type that has one.
pub open spec fn said_by_one(p: RecordParts) -> RecordContent {
    RecordContent {
        directory: p.kind != 1,
        handle_type: p.handle_type as int,
        handle: p.handle,
        name: if p.kind == 2 {
            name_in(p.rest)
        } else {
            None
        },
    }
}

/// What records say: each that holds a handle, in their order.
pub open spec fn said_by(list: Seq<RecordParts>) -> Seq<RecordContent>
    decreases list.len(),
{
    if list.len() == 0 {
        Seq::empty()
    } else {
        let p = list[0];
        let later = said_by(list.drop_first());
        if p.kind == 1 || p.kind == 2 || p.kind == 3 {
            seq![said_by_one(p)] + later
        } else {
            later
        }
    }
}

/// The fields of a record that is laid out among bytes.
#[verifier::rlimit(40)]
proof fn lemma_record_fields(order: ByteOrder, before: Seq<u8>, p: RecordParts, after: Seq<u8>)
    requires
        record_fits(p),
    ensures
        ({
            let bytes = before + record_bytes(order, p) + after;
            let pos = before.len() as int;
            let n = p.handle.len() as int;
            &&& record_bytes(order, p).len() == 20 + n + p.rest.len()
            &&& record_type(bytes, pos) == p.kind
            &&& record_len(order, bytes, pos) == 20 + n + p.rest.len()
            &&& handle_len(order, bytes, pos) == n
            &&& signed(field(order, bytes, pos + 16, 4)) == p.handle_type
            &&& bytes.subrange(pos + 20, pos + 20 + n) == p.handle
            &&& bytes.subrange(pos + 20 + n, pos + 20 + n + p.rest.len()) == p.rest
        }),
{
    let length = 20 + p.handle.len() + p.rest.len();
    let r = record_bytes(order, p);
    let bytes = before + r + after;
    let held = handle_bytes(order, p.handle_type, p.handle);
    let pos = before.len() as int;
    let n = p.handle.len() as int;
    assert(pow(256, 2) == 0x1_0000) by {
        reveal_with_fuel(pow, 3);
    }
    law_number_round_trip(order, length, 2);
    law_handle_round_trip(order, p.handle_type, p.handle);
    assert(r[0] == p.kind);
    assert(bytes[pos] == r[0]);
    assert(bytes.subrange(pos + 2, pos + 4) =~= number_bytes(order, length, 2));
    assert(bytes.subrange(pos + 12, pos + 16) =~= held.subrange(0, 4));
    assert(bytes.subrange(pos + 16, pos + 20) =~= held.subrange(4, 8));
    assert(bytes.subrange(pos + 20, pos + 20 + n) =~= held.subrange(8, held.len() as int));
    assert(bytes.subrange(pos + 20 + n, pos + 20 + n + p.rest.len()) =~= p.rest);
}

/// A record whose fields are known is read as what it says, and what follows it
/// is read behind it.
#[verifier::rlimit(40)]
proof fn lemma_record_step(
    order: ByteOrder,
    bytes: Seq<u8>,
    pos: int,
    end: int,
    p: RecordParts,
    later: Seq<RecordContent>,
)
    requires
        ({
            let n = p.handle.len() as int;
            let length = 20 + n + p.rest.len();
            &&& pos + length <= end
            &&& record_type(bytes, pos) == p.kind
            &&& record_len(order, bytes, pos) == length
            &&& handle_len(order, bytes, pos) == n
            &&& signed(field(order, bytes, pos + 16, 4)) == p.handle_type
            &&& bytes.subrange(pos + 20, pos + 20 + n) == p.handle
            &&& bytes.subrange(pos + 20 + n, pos + 20 + n + p.rest.len()) == p.rest
            &&& records_from(order, bytes, pos + length, end) == later
        }),
    ensures
        records_from(order, bytes, pos, end) == if p.kind == 1 || p.kind == 2 || p.kind == 3 {
            seq![said_by_one(p)] + later
        } else {
            later
        },
{
    if p.kind == 1 || p.kind == 2 || p.kind == 3 {
        if p.kind == 2 && p.rest.len() == 0 {
            assert(before_zero(p.rest) =~= Seq::<u8>::empty());
        }
        assert(record_at(order, bytes, pos) =~= said_by_one(p));
    }
}

/// Of any number of records laid out one behind the other, each that holds a
/// handle is read, in their order, and says what it was made of.
#[verifier::rlimit(40)]
pub proof fn law_all_records_are_read(
    order: ByteOrder,
    before: Seq<u8>,
    list: Seq<RecordParts>,
    after: Seq<u8>,
)
    requires
        forall|i: int| 0 <= i < list.len() ==> record_fits(#[trigger] list[i]),
    ensures
        records_from(
            order,
            before + all_record_bytes(order, list) + after,
            before.len() as int,
            before.len() + all_record_bytes(order, list).len() as int,
        ) == said_by(list),
    decreases list.len(),
{
    let bytes = before + all_record_bytes(order, list) + after;
    let pos = before.len() as int;
    let end = pos + all_record_bytes(order, list).len();
    if list.len() > 0 {
        let p = list[0];
        let r = record_bytes(order, p);
        let rest = list.drop_first();
        let tail = all_record_bytes(order, rest);
        assert(bytes =~= before + r + (tail + after));
        lemma_record_fields(order, before, p, tail + after);
        assert(bytes =~= (before + r) + tail + after);
        assert forall|i: int| 0 <= i < rest.len() implies record_fits(#[trigger] rest[i]) by {
            assert(rest[i] == list[i + 1]);
        }
        law_all_records_are_read(order, before + r, rest, after);
        lemma_record_step(order, bytes, pos, end, p, said_by(rest));
    }
}

/// The name behind a handle ends before the first zero or with the record, and
/// there is none where it would be empty.
pub proof fn law_name_ends_at_zero(name: Seq<u8>, padding: Seq<u8>)
    requires
        forall|i: int| 0 <= i < name.len() ==> (#[trigger] name[i]) != 0,
        padding.len() > 0 ==> padding[0] == 0,
    ensures
        name.len() > 0 ==> name_in(name + padding) == Some(name),
        name.len() == 0 ==> name_in(name + padding) is None,
{
    if name.len() > 0 {
        lemma_padded_name(name, padding);
    } else {
        assert(name + padding =~= padding);
    }
}

// ── Laws on paths ────────────────────────────────────────────────────

/// A directory that a handle resolves to is taken in place of what was known of
/// the path, and the file itself only where nothing was; a name is taken in place
/// of the one before.
pub proof fn law_records_fill_the_path(
    parts: PathParts,
    record: RecordContent,
    to: Seq<char>,
    name: Seq<u8>,
)
    ensures
        record.directory ==> with_record(parts, record, Some(to)).dir == Some(to),
        !record.directory && parts.dir is Some ==> with_record(parts, record, Some(to)).dir
            == parts.dir,
        parts.dir is None ==> with_record(parts, record, Some(to)).dir == Some(to),
        with_record(parts, record, None).dir == parts.dir,
        record.name is None ==> with_record(parts, record, Some(to)).name == parts.name
            && with_record(parts, record, None).name == parts.name,
        record.name == Some(name) && valid_utf8(name) ==> with_record(
            parts,
            record,
            Some(to),
        ).name == Some(decode_utf8(name)) && with_record(parts, record, None).name == Some(
            decode_utf8(name),
        ),
        record.name == Some(name) && !valid_utf8(name) ==> with_record(
            parts,
            record,
            Some(to),
        ).name is None && with_record(parts, record, None).name is None,
{
}

/// The records of an event are gone through from the first to the last, each with
/// what its own handle resolves to.
pub proof fn law_records_are_taken_in_turn(
    records: Seq<RecordContent>,
    resolved: Seq<Option<Seq<char>>>,
    record: RecordContent,
    to: Option<Seq<char>>,
)
    requires
        resolved.len() == records.len(),
    ensures
        with_records(Seq::empty(), Seq::empty()) == (PathParts { dir: None, name: None }),
        with_records(records.push(record), resolved.push(to)) == with_record(
            with_records(records, resolved),
            record,
            to,
        ),
{
    assert(records.push(record).drop_last() =~= records);
    lemma_more_resolved(records, resolved, resolved.push(to));
}

/// Only as many handles count as there are records.
proof fn lemma_more_resolved(
    records: Seq<RecordContent>,
    a: Seq<Option<Seq<char>>>,
    b: Seq<Option<Seq<char>>>,
)
    requires
        records.len() <= a.len(),
        records.len() <= b.len(),
        forall|i: int| 0 <= i < records.len() ==> a[i] == b[i],
    ensures
        with_records(records, a) == with_records(records, b),
    decreases records.len(),
{
    if records.len() > 0 {
        lemma_more_resolved(records.drop_last(), a, b);
    }
}

/// A path is the directory and the name with one slash between them where the
/// directory does not bring its own, or what is known of the two.
pub proof fn law_path_is_directory_and_name(dir: Seq<char>, name: Seq<char>)
    ensures
        path_of(PathParts { dir: Some(dir), name: Some(name) }) == Some(joined(dir, name)),
        path_of(PathParts { dir: Some(dir), name: None }) == Some(dir),
        path_of(PathParts { dir: None, name: Some(name) }) == Some(name),
        path_of(PathParts { dir: None, name: None }) is None,
        joined(dir + seq!['/'], name) == dir + seq!['/'] + name,
        (dir.len() == 0 || dir.last() != '/') ==> joined(dir, name) == dir + seq!['/'] + name,
{
    reveal_strlit("/");
    assert("/"@ =~= seq!['/']);
    assert((dir + seq!['/']).last() == '/');
}

/// A handle for the kernel is its length and its type, four bytes each, and its
/// own bytes.
pub proof fn law_handle_is_laid_out(order: ByteOrder, handle_type: i32, handle: Seq<u8>)
    requires
        handle.len() < 0x1_0000_0000,
    ensures
        handle_bytes(order, handle_type, handle) == number_bytes(order, handle.len(), 4) + (
        number_bytes(order, bits_of(handle_type), 4) + handle),
{
    assert(handle_bytes(order, handle_type, handle) =~= number_bytes(order, handle.len(), 4) + (
    number_bytes(order, bits_of(handle_type), 4) + handle));
}

/// No event is read where fewer bytes are left than it takes, where it is of
/// another version, or where its length is too small or goes beyond the bytes.
pub proof fn law_bad_event_ends_the_list(order: ByteOrder, use_fid: bool, bytes: Seq<u8>, offset: int)
    requires
        0 <= offset <= bytes.len(),
        ({
            ||| bytes.len() - offset < 24
            ||| bytes[offset + 4] != 3
            ||| number(order, bytes.subrange(offset, offset + 4)) < 24
            ||| offset + number(order, bytes.subrange(offset, offset + 4)) > bytes.len()
        }),
    ensures
        event_at(order, use_fid, bytes, offset) is None,
        events_from(order, use_fid, bytes, offset) == Seq::<Event>::empty(),
{
}

/// No record is read where its header or its length goes beyond the event, where
/// it is shorter than its header, or where its handle goes beyond the event.
pub proof fn law_bad_record_ends_the_list(order: ByteOrder, bytes: Seq<u8>, pos: int, end: int)
    requires
        0 <= pos <= end <= bytes.len(),
        ({
            ||| pos + 4 > end
            ||| number(order, bytes.subrange(pos + 2, pos + 4)) < 4
            ||| pos + number(order, bytes.subrange(pos + 2, pos + 4)) > end
            ||| 1 <= bytes[pos] <= 3 && pos + 20 > end
            ||| 1 <= bytes[pos] <= 3 && pos + 20 + number(
                order,
                bytes.subrange(pos + 12, pos + 16),
            ) > end
        }),
    ensures
        records_from(order, bytes, pos, end) == Seq::<RecordContent>::empty(),
{
}

/// A record of another type is passed over.
pub proof fn law_other_records_are_passed_over(order: ByteOrder, bytes: Seq<u8>, pos: int, end: int)
    requires
        0 <= pos,
        pos + 4 <= end <= bytes.len(),
        bytes[pos] == 0 || bytes[pos] > 3,
        4 <= number(order, bytes.subrange(pos + 2, pos + 4)),
        pos + number(order, bytes.subrange(pos + 2, pos + 4)) <= end,
    ensures
        records_from(order, bytes, pos, end) == records_from(
            order,
            bytes,
            pos + number(order, bytes.subrange(pos + 2, pos + 4)),
            end,
        ),
{
}

} // verus!
