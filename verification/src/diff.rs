//! Comparing the files that are there with a snapshot.
use crate::hash::law_hash_text_tells_hash;
use crate::json::{DiffChanged, DiffSummary};
use crate::lines::{one_line, texts};
use crate::matcher::{accepts, description, filter_view, wanted, wants, Filter, Matcher};
use crate::number::{decimal, decimal_text};
use crate::order::{
    is_sorted_order, law_sorted_order_is_sorted, lemma_text_total, lemma_text_transitive, sort_order, text_at_most, text_le,
    Sortable,
};
use crate::output::{
    color_created, color_deleted, color_modified, count_text, elapsed_text, fmt_count, fmt_elapsed,
    painted, print_summary, shown_as, Tint,
};
use crate::pathmap::{lists, PathMap};
use crate::snapshot::{
    all_one_line, hash_text, law_snapshot_round_trip, loaded, recorded, records, snapshot_text,
    FileRecord, HashedFile, RecordView, Snapshot,
};
use crate::text::{same_text, text_view};
use vstd::prelude::*;
use vstd::string::*;

verus! {

/// What to compare, and how to report it.
pub struct DiffOpts {
    pub path: String,
    pub snapshot_path: Option<String>,
    pub since: Option<u64>,
    pub json: bool,
    pub no_skip: bool,
    pub filter: Option<String>,
    pub filter_regex: bool,
    pub filter_ignore_case: bool,
}

// ── Changes ──────────────────────────────────────────────────────────

/// How a file differs from the snapshot.
#[derive(Clone, Copy, PartialEq, Eq, Structural)]
pub enum ChangeKind {
    Created,
    Modified,
    Deleted,
}

/// The name of a kind of change.
pub open spec fn kind_name(kind: ChangeKind) -> Seq<char> {
    match kind {
        ChangeKind::Created => "created"@,
        ChangeKind::Modified => "modified"@,
        ChangeKind::Deleted => "deleted"@,
    }
}

impl ChangeKind {
    /// The name of a kind of change.
    pub fn as_str(&self) -> (r: &'static str)
        ensures
            r@ == kind_name(*self),
    {
        match self {
            ChangeKind::Created => "created",
            ChangeKind::Modified => "modified",
            ChangeKind::Deleted => "deleted",
        }
    }
}

/// A file that differs from the snapshot, and its hash there and now.
pub struct Change {
    pub kind: ChangeKind,
    pub path: String,
    pub old_hash: Option<String>,
    pub new_hash: Option<String>,
}

/// A change, as its model.
pub struct ChangeView {
    pub kind: ChangeKind,
    pub path: Seq<char>,
    pub old_hash: Option<Seq<char>>,
    pub new_hash: Option<Seq<char>>,
}

impl View for Change {
    type V = ChangeView;

    open spec fn view(&self) -> ChangeView {
        ChangeView {
            kind: self.kind,
            path: self.path@,
            old_hash: text_view(self.old_hash),
            new_hash: text_view(self.new_hash),
        }
    }
}

/// An optional change, as its model.
pub open spec fn change_view(c: Option<Change>) -> Option<ChangeView> {
    match c {
        Some(c) => Some(c@),
        None => None,
    }
}

/// Changes, as their models.
pub open spec fn change_views(v: Seq<Change>) -> Seq<ChangeView> {
    v.map_values(|c: Change| c@)
}

// ── One file ─────────────────────────────────────────────────────────

/// The time before which files are of no interest: some seconds before now, but
/// not before the epoch.
pub open spec fn cutoff_at(now: u64, since: Option<u64>) -> Option<u64> {
    match since {
        Some(ago) => Some(
            if ago <= now {
                (now - ago) as u64
            } else {
                0
            },
        ),
        None => None,
    }
}

/// A time is before the cutoff exactly where it lies more seconds before now than
/// asked for; without such a number no time is.
pub proof fn law_cutoff_lies_before_now(now: u64, ago: u64, mtime: u64)
    ensures
        cutoff_at(now, None) is None,
        cutoff_at(now, Some(ago)) is Some,
        mtime < cutoff_at(now, Some(ago))->0 <==> mtime + ago < now,
        too_old(cutoff_at(now, Some(ago)), mtime) <==> mtime + ago < now,
        !too_old(cutoff_at(now, None), mtime),
{
}

/// The time before which files are of no interest, some seconds before now.
pub fn since_cutoff(now: u64, since: Option<u64>) -> (r: Option<u64>)
    ensures
        r == cutoff_at(now, since),
        match since {
            Some(ago) => r == Some(
                if ago <= now {
                    (now - ago) as u64
                } else {
                    0
                },
            ),
            None => r is None,
        },
{
    match since {
        Some(ago) => Some(
            if ago <= now {
                now - ago
            } else {
                0
            },
        ),
        None => None,
    }
}

/// Whether a time is before a cutoff; without one, none is.
pub open spec fn too_old(cutoff: Option<u64>, mtime: u64) -> bool {
    cutoff matches Some(c) && mtime < c
}

/// What is known of a file while it is compared: nothing yet, its size and time
/// of modification, or its hash; each where it could be read.
pub enum Evidence {
    Nothing,
    Metadata(Option<(u64, u64)>),
    Hash(Option<String>),
}

/// What to do next with a file: read its size and time of modification, read its
/// content, or be done with it.
pub enum Action {
    ReadMetadata,
    ReadContent,
    Done(Option<Change>),
}

/// Whether the size and time of a file are wanted before its content: unless it
/// is new and its age does not matter.
pub open spec fn metadata_wanted(known: Option<RecordView>, cutoff: Option<u64>) -> bool {
    known is Some || cutoff is Some
}

/// Whether a file is to be hashed, by its size and time of modification. A file
/// of the snapshot is where either has changed and it is not too old, and a new
/// one is where it is not too old.
pub open spec fn hash_wanted(
    known: Option<RecordView>,
    cutoff: Option<u64>,
    meta: Option<(u64, u64)>,
) -> bool {
    match known {
        Some(r) => meta matches Some((size, mtime)) && !(size == r.size && mtime == r.mtime)
            && !too_old(cutoff, mtime),
        None => !(meta matches Some((_, mtime)) && too_old(cutoff, mtime)),
    }
}

/// The change that a hash shows: a file of the snapshot is modified where its
/// hash is another, and any other file is new.
pub open spec fn change_shown(
    known: Option<RecordView>,
    path: Seq<char>,
    hash: Option<Seq<char>>,
) -> Option<ChangeView> {
    match known {
        Some(r) => match hash {
            Some(h) if h != r.hash => Some(
                ChangeView {
                    kind: ChangeKind::Modified,
                    path,
                    old_hash: Some(r.hash),
                    new_hash: Some(h),
                },
            ),
            _ => None,
        },
        None => Some(
            ChangeView { kind: ChangeKind::Created, path, old_hash: None, new_hash: hash },
        ),
    }
}

/// What the comparison of a file comes to, all in all.
pub open spec fn outcome(
    known: Option<RecordView>,
    cutoff: Option<u64>,
    path: Seq<char>,
    meta: Option<(u64, u64)>,
    hash: Option<Seq<char>>,
) -> Option<ChangeView> {
    if hash_wanted(known, cutoff, meta) {
        change_shown(known, path, hash)
    } else {
        None
    }
}

/// What is known of a file, as its model.
pub enum EvidenceView {
    Nothing,
    Metadata(Option<(u64, u64)>),
    Hash(Option<Seq<char>>),
}

/// What to do next with a file, as its model.
pub enum ActionView {
    ReadMetadata,
    ReadContent,
    Done(Option<ChangeView>),
}

impl View for Evidence {
    type V = EvidenceView;

    open spec fn view(&self) -> EvidenceView {
        match *self {
            Evidence::Nothing => EvidenceView::Nothing,
            Evidence::Metadata(meta) => EvidenceView::Metadata(meta),
            Evidence::Hash(hash) => EvidenceView::Hash(text_view(hash)),
        }
    }
}

impl View for Action {
    type V = ActionView;

    open spec fn view(&self) -> ActionView {
        match *self {
            Action::ReadMetadata => ActionView::ReadMetadata,
            Action::ReadContent => ActionView::ReadContent,
            Action::Done(c) => ActionView::Done(change_view(c)),
        }
    }
}

/// What to do next with a file, by what the snapshot knows of it and what is
/// known of it now.
pub open spec fn next_action(
    known: Option<RecordView>,
    cutoff: Option<u64>,
    path: Seq<char>,
    evidence: EvidenceView,
) -> ActionView {
    match evidence {
        EvidenceView::Nothing => if metadata_wanted(known, cutoff) {
            ActionView::ReadMetadata
        } else {
            ActionView::ReadContent
        },
        EvidenceView::Metadata(meta) => if hash_wanted(known, cutoff, meta) {
            ActionView::ReadContent
        } else {
            ActionView::Done(None)
        },
        EvidenceView::Hash(hash) => ActionView::Done(change_shown(known, path, hash)),
    }
}

/// A comparison with a snapshot, of files that are not too old.
pub struct Comparison {
    pub snapshot: Snapshot,
    pub cutoff: Option<u64>,
}

/// What a snapshot knows of a path.
pub open spec fn known_in(files: Map<Seq<char>, RecordView>, path: Seq<char>) -> Option<RecordView> {
    if files.contains_key(path) {
        Some(files[path])
    } else {
        None
    }
}

impl Comparison {
    /// The snapshot can be looked up.
    pub open spec fn wf(&self) -> bool {
        self.snapshot.wf()
    }

    /// What the snapshot knows of a path.
    pub open spec fn known(&self, path: Seq<char>) -> Option<RecordView> {
        known_in(self.snapshot@.files, path)
    }

    /// What to do next with a file, by what is known of it.
    pub fn next(&self, path: &str, evidence: Evidence) -> (r: Action)
        requires
            self.wf(),
        ensures
            r@ == next_action(self.known(path@), self.cutoff, path@, evidence@),
    {
        let known: Option<&FileRecord> = self.snapshot.files.get(path);
        match evidence {
            Evidence::Nothing => if known.is_some() || self.cutoff.is_some() {
                Action::ReadMetadata
            } else {
                Action::ReadContent
            },
            Evidence::Metadata(meta) => {
                let wanted = match known {
                    Some(r) => match meta {
                        Some((size, mtime)) => !(size == r.size && mtime == r.mtime)
                            && !self.is_too_old(mtime),
                        None => false,
                    },
                    None => match meta {
                        Some((_, mtime)) => !self.is_too_old(mtime),
                        None => true,
                    },
                };
                if wanted {
                    Action::ReadContent
                } else {
                    Action::Done(None)
                }
            },
            Evidence::Hash(hash) => match known {
                Some(r) => match hash {
                    Some(h) => if h != r.hash {
                        Action::Done(
                            Some(
                                Change {
                                    kind: ChangeKind::Modified,
                                    path: path.to_owned(),
                                    old_hash: Some(r.hash.clone()),
                                    new_hash: Some(h),
                                },
                            ),
                        )
                    } else {
                        Action::Done(None)
                    },
                    None => Action::Done(None),
                },
                None => Action::Done(
                    Some(
                        Change {
                            kind: ChangeKind::Created,
                            path: path.to_owned(),
                            old_hash: None,
                            new_hash: hash,
                        },
                    ),
                ),
            },
        }
    }

    /// Whether a time is before the cutoff.
    fn is_too_old(&self, mtime: u64) -> (r: bool)
        ensures
            r == too_old(self.cutoff, mtime),
    {
        match self.cutoff {
            Some(c) => mtime < c,
            None => false,
        }
    }
}

/// A file as it is on disk: what reading its size and time of modification
/// gives, and what hashing its content gives.
pub struct FileState {
    pub path: Seq<char>,
    pub meta: Option<(u64, u64)>,
    pub hash: Option<Seq<char>>,
}

/// What comes of a file once its content is read.
pub open spec fn settled(
    known: Option<RecordView>,
    cutoff: Option<u64>,
    s: FileState,
) -> Option<ChangeView> {
    match next_action(known, cutoff, s.path, EvidenceView::Hash(s.hash)) {
        ActionView::Done(c) => c,
        _ => None,
    }
}

/// Whether a file's content is read, and what comes of it, when each action is
/// taken in turn and what it gives is handed back.
pub open spec fn taken_in_turn(
    known: Option<RecordView>,
    cutoff: Option<u64>,
    s: FileState,
) -> (bool, Option<ChangeView>) {
    match next_action(known, cutoff, s.path, EvidenceView::Nothing) {
        ActionView::ReadMetadata => match next_action(
            known,
            cutoff,
            s.path,
            EvidenceView::Metadata(s.meta),
        ) {
            ActionView::Done(c) => (false, c),
            _ => (true, settled(known, cutoff, s)),
        },
        ActionView::ReadContent => (true, settled(known, cutoff, s)),
        ActionView::Done(c) => (false, c),
    }
}

/// Taken in turn, the actions read the content of exactly the files that are to
/// be hashed, and come to the outcome of the comparison.
pub proof fn law_actions_reach_outcome(known: Option<RecordView>, cutoff: Option<u64>, s: FileState)
    ensures
        taken_in_turn(known, cutoff, s) == (
            hash_wanted(known, cutoff, s.meta),
            outcome(known, cutoff, s.path, s.meta, s.hash),
        ),
{
}

/// A file whose size and time of modification are those of the snapshot is never
/// hashed again, and shows no change.
pub proof fn law_fast_path(r: RecordView, cutoff: Option<u64>, path: Seq<char>, hash: Option<Seq<char>>)
    ensures
        !hash_wanted(Some(r), cutoff, Some((r.size, r.mtime))),
        outcome(Some(r), cutoff, path, Some((r.size, r.mtime)), hash) is None,
{
}

/// A file of the snapshot shows a change only where its hash is another.
pub proof fn law_same_hash_is_no_change(
    r: RecordView,
    cutoff: Option<u64>,
    path: Seq<char>,
    meta: Option<(u64, u64)>,
)
    ensures
        outcome(Some(r), cutoff, path, meta, Some(r.hash)) is None,
{
}

/// A file of the snapshot that is hashed again shows a change exactly where its
/// content has another hash.
pub proof fn law_other_content_is_modified(
    was: u128,
    now: u128,
    size: u64,
    mtime: u64,
    cutoff: Option<u64>,
    path: Seq<char>,
    meta: Option<(u64, u64)>,
)
    requires
        hash_wanted(Some(RecordView { hash: hash_text(was), size, mtime }), cutoff, meta),
    ensures
        outcome(
            Some(RecordView { hash: hash_text(was), size, mtime }),
            cutoff,
            path,
            meta,
            Some(hash_text(now)),
        ) == if was == now {
            None
        } else {
            Some(
                ChangeView {
                    kind: ChangeKind::Modified,
                    path,
                    old_hash: Some(hash_text(was)),
                    new_hash: Some(hash_text(now)),
                },
            )
        },
{
    law_hash_text_tells_hash(was, now);
}

/// Without a cutoff, a file that the snapshot does not know is always new.
pub proof fn law_unknown_file_is_created(
    path: Seq<char>,
    meta: Option<(u64, u64)>,
    hash: Option<Seq<char>>,
)
    ensures
        outcome(None, None, path, meta, hash) == Some(
            ChangeView { kind: ChangeKind::Created, path, old_hash: None, new_hash: hash },
        ),
{
}

/// A file that was last modified before the cutoff shows no change.
pub proof fn law_old_files_are_left_out(
    known: Option<RecordView>,
    cutoff: u64,
    path: Seq<char>,
    size: u64,
    mtime: u64,
    hash: Option<Seq<char>>,
)
    requires
        mtime < cutoff,
    ensures
        outcome(known, Some(cutoff), path, Some((size, mtime)), hash) is None,
{
}

// ── All files ────────────────────────────────────────────────────────

/// What came of the comparison of a file.
pub struct Outcome {
    pub path: String,
    pub rehashed: bool,
    pub change: Option<Change>,
}

/// What came of the comparison of a file, as its model.
pub struct OutcomeView {
    pub path: Seq<char>,
    pub rehashed: bool,
    pub change: Option<ChangeView>,
}

impl View for Outcome {
    type V = OutcomeView;

    open spec fn view(&self) -> OutcomeView {
        OutcomeView {
            path: self.path@,
            rehashed: self.rehashed,
            change: change_view(self.change),
        }
    }
}

/// Outcomes, as their models.
pub open spec fn outcome_views(v: Seq<Outcome>) -> Seq<OutcomeView> {
    v.map_values(|o: Outcome| o@)
}

/// The changes among outcomes, in their order.
pub open spec fn found_changes(outcomes: Seq<OutcomeView>) -> Seq<ChangeView>
    decreases outcomes.len(),
{
    if outcomes.len() == 0 {
        Seq::empty()
    } else {
        let before = found_changes(outcomes.drop_last());
        match outcomes.last().change {
            Some(c) => before.push(c),
            None => before,
        }
    }
}

/// How many files were hashed again.
pub open spec fn rehash_count(outcomes: Seq<OutcomeView>) -> nat
    decreases outcomes.len(),
{
    if outcomes.len() == 0 {
        0
    } else {
        rehash_count(outcomes.drop_last()) + if outcomes.last().rehashed {
            1nat
        } else {
            0nat
        }
    }
}

/// Whether a path is that of one of the files.
pub open spec fn seen(outcomes: Seq<OutcomeView>, path: Seq<char>) -> bool {
    exists|i: int| 0 <= i < outcomes.len() && (#[trigger] outcomes[i]).path == path
}

/// The deletion of a file of the snapshot.
pub open spec fn deletion(path: Seq<char>, hash: Seq<char>) -> ChangeView {
    ChangeView { kind: ChangeKind::Deleted, path, old_hash: Some(hash), new_hash: None }
}

/// The deletions: of the files of the snapshot, those that the filter wants and
/// that were not seen.
pub open spec fn deletions(
    items: Seq<(Seq<char>, FileRecord)>,
    outcomes: Seq<OutcomeView>,
    filter: Option<Filter>,
) -> Seq<ChangeView>
    decreases items.len(),
{
    if items.len() == 0 {
        Seq::empty()
    } else {
        let before = deletions(items.drop_last(), outcomes, filter);
        let (path, record) = items.last();
        if !seen(outcomes, path) && wanted(filter, path) {
            before.push(deletion(path, record.hash@))
        } else {
            before
        }
    }
}

/// All changes: what was found, then what is gone.
pub open spec fn all_changes(
    items: Seq<(Seq<char>, FileRecord)>,
    outcomes: Seq<OutcomeView>,
    filter: Option<Filter>,
) -> Seq<ChangeView> {
    found_changes(outcomes) + deletions(items, outcomes, filter)
}

/// What a comparison came to.
pub struct Difference {
    pub changes: Vec<Change>,
    pub checked: u64,
    pub rehashed: u64,
}

impl Comparison {
    /// Puts the outcomes for all files together, and finds what is gone.
    pub fn finish(&self, filter: &Option<Matcher>, outcomes: Vec<Outcome>) -> (r: Difference)
        requires
            self.wf(),
            filter matches Some(m) ==> m.wf(),
        ensures
            change_views(r.changes@) == all_changes(
                self.snapshot.files.items(),
                outcome_views(outcomes@),
                filter_view(*filter),
            ),
            r.checked == outcomes.len(),
            r.rehashed == rehash_count(outcome_views(outcomes@)),
    {
        let ghost all = outcome_views(outcomes@);
        let checked: u64 = outcomes.len() as u64;
        let mut paths: PathMap<bool> = PathMap::new();
        let mut found: Vec<Change> = Vec::new();
        let mut rehashed: u64 = 0;
        proof {
            assert(all.take(0) =~= Seq::<OutcomeView>::empty());
            assert(change_views(found@) =~= Seq::<ChangeView>::empty());
        }
        for o in it: outcomes
            invariant
                outcome_views(it.seq()) == all,
                checked == all.len(),
                paths.wf(),
                forall|p: Seq<char>| #[trigger]
                    paths@.contains_key(p) <==> seen(all.take(it.index() as int), p),
                change_views(found@) == found_changes(all.take(it.index() as int)),
                rehashed == rehash_count(all.take(it.index() as int)),
                rehashed <= it.index(),
        {
            let ghost i = it.index() as int;
            proof {
                assert(o@ == all[i]);
                assert(all.take(i + 1).drop_last() =~= all.take(i));
                assert(all.take(i + 1).last() == all[i]);
                lemma_seen_push(all.take(i), all[i]);
                assert(all.take(i).push(all[i]) =~= all.take(i + 1));
            }
            if o.rehashed {
                rehashed = rehashed + 1;
            }
            paths.insert(o.path, true);
            if let Some(c) = o.change {
                let ghost before = found@;
                found.push(c);
                assert(change_views(found@) =~= change_views(before).push(c@));
            }
        }
        assert(all.take(all.len() as int) =~= all);
        let files = &self.snapshot.files;
        let ghost items = files.items();
        let count: usize = files.len();
        let mut k: usize = 0;
        let ghost first = change_views(found@);
        proof {
            assert(items.take(0) =~= Seq::<(Seq<char>, FileRecord)>::empty());
            assert(first + Seq::<ChangeView>::empty() =~= first);
        }
        while k < count
            invariant
                k <= count,
                count == items.len(),
                items == files.items(),
                filter matches Some(m) ==> m.wf(),
                forall|p: Seq<char>| #[trigger] paths@.contains_key(p) <==> seen(all, p),
                change_views(found@) == first + deletions(
                    items.take(k as int),
                    all,
                    filter_view(*filter),
                ),
            decreases count - k,
        {
            let path: &String = files.path_at(k);
            proof {
                assert(items.take(k + 1).drop_last() =~= items.take(k as int));
                assert(items.take(k + 1).last() == items[k as int]);
            }
            if !paths.contains(path.as_str()) && wants(filter, path.as_str()) {
                let c = Change {
                    kind: ChangeKind::Deleted,
                    path: path.clone(),
                    old_hash: Some(files.value_at(k).hash.clone()),
                    new_hash: None,
                };
                let ghost before = found@;
                let ghost gone = deletions(items.take(k as int), all, filter_view(*filter));
                found.push(c);
                proof {
                    assert(change_views(found@) =~= change_views(before).push(c@));
                    assert((first + gone).push(c@) =~= first + gone.push(c@));
                }
            }
            k = k + 1;
        }
        assert(items.take(k as int) =~= items);
        Difference { changes: found, checked, rehashed }
    }
}

/// One more file makes its own path seen.
proof fn lemma_seen_push(outcomes: Seq<OutcomeView>, o: OutcomeView)
    ensures
        forall|p: Seq<char>| #[trigger]
            seen(outcomes.push(o), p) <==> seen(outcomes, p) || p == o.path,
{
    let more = outcomes.push(o);
    assert forall|p: Seq<char>| #[trigger] seen(more, p) <==> seen(outcomes, p) || p == o.path by {
        if seen(outcomes, p) {
            let i = choose|i: int| 0 <= i < outcomes.len() && (#[trigger] outcomes[i]).path == p;
            assert(more[i].path == p);
        }
        if p == o.path {
            assert(more[outcomes.len() as int].path == p);
        }
        if seen(more, p) {
            let i = choose|i: int| 0 <= i < more.len() && (#[trigger] more[i]).path == p;
            if i < outcomes.len() {
                assert(outcomes[i].path == p);
            }
        }
    }
}

/// What comes of the files on disk.
pub open spec fn outcomes_of(
    files: Map<Seq<char>, RecordView>,
    cutoff: Option<u64>,
    states: Seq<FileState>,
) -> Seq<OutcomeView> {
    states.map_values(
        |s: FileState|
            OutcomeView {
                path: s.path,
                rehashed: hash_wanted(known_in(files, s.path), cutoff, s.meta),
                change: outcome(known_in(files, s.path), cutoff, s.path, s.meta, s.hash),
            },
    )
}

/// Whether a list is that of a snapshot's files.
pub open spec fn items_of(
    items: Seq<(Seq<char>, FileRecord)>,
    files: Map<Seq<char>, RecordView>,
) -> bool {
    exists|m: Map<Seq<char>, FileRecord>| #[trigger] lists(items, m) && files == records(m)
}

/// Every comparison works on the list of its snapshot's files.
pub proof fn law_comparison_lists_its_snapshot(c: Comparison)
    requires
        c.wf(),
    ensures
        items_of(c.snapshot.files.items(), c.snapshot@.files),
{
    c.snapshot.files.lemma_lists();
}

/// A change is among those found exactly where one of the outcomes holds it.
proof fn lemma_found(outcomes: Seq<OutcomeView>, c: ChangeView)
    ensures
        found_changes(outcomes).contains(c) <==> exists|i: int|
            0 <= i < outcomes.len() && (#[trigger] outcomes[i]).change == Some(c),
    decreases outcomes.len(),
{
    if outcomes.len() > 0 {
        let front = outcomes.drop_last();
        lemma_found(front, c);
        let before = found_changes(front);
        let now = found_changes(outcomes);
        if before.contains(c) {
            let i = choose|i: int| 0 <= i < front.len() && (#[trigger] front[i]).change == Some(c);
            assert(outcomes[i].change == Some(c));
            let k = choose|k: int| 0 <= k < before.len() && before[k] == c;
            assert(now[k] == c);
        }
        if outcomes.last().change == Some(c) {
            assert(outcomes[outcomes.len() - 1].change == Some(c));
            assert(now[before.len() as int] == c);
        }
        if now.contains(c) && !before.contains(c) {
            let k = choose|k: int| 0 <= k < now.len() && now[k] == c;
            if k < before.len() {
                assert(before[k] == c);
            }
        }
        if exists|i: int| 0 <= i < outcomes.len() && (#[trigger] outcomes[i]).change == Some(c) {
            let i = choose|i: int|
                0 <= i < outcomes.len() && (#[trigger] outcomes[i]).change == Some(c);
            if i < front.len() {
                assert(front[i].change == Some(c));
            }
        }
    }
}

/// A change is among the deletions exactly where it is that of a file of the
/// list that is wanted and was not seen.
#[verifier::rlimit(40)]
proof fn lemma_gone(
    items: Seq<(Seq<char>, FileRecord)>,
    outcomes: Seq<OutcomeView>,
    filter: Option<Filter>,
    c: ChangeView,
)
    ensures
        deletions(items, outcomes, filter).contains(c) <==> exists|i: int|
            0 <= i < items.len() && c == deletion((#[trigger] items[i]).0, items[i].1.hash@)
                && !seen(outcomes, items[i].0) && wanted(filter, items[i].0),
    decreases items.len(),
{
    if items.len() > 0 {
        let front = items.drop_last();
        lemma_gone(front, outcomes, filter, c);
        let before = deletions(front, outcomes, filter);
        let now = deletions(items, outcomes, filter);
        let last = items.last();
        if before.contains(c) {
            let i = choose|i: int|
                0 <= i < front.len() && c == deletion((#[trigger] front[i]).0, front[i].1.hash@)
                    && !seen(outcomes, front[i].0) && wanted(filter, front[i].0);
            assert(items[i] == front[i]);
            let k = choose|k: int| 0 <= k < before.len() && before[k] == c;
            assert(now[k] == c);
        }
        if c == deletion(last.0, last.1.hash@) && !seen(outcomes, last.0) && wanted(filter, last.0) {
            assert(items[items.len() - 1] == last);
            assert(now[before.len() as int] == c);
        }
        if now.contains(c) && !before.contains(c) {
            let k = choose|k: int| 0 <= k < now.len() && now[k] == c;
            if k < before.len() {
                assert(before[k] == c);
            }
            assert(items[items.len() - 1] == last);
        }
        if exists|i: int|
            0 <= i < items.len() && c == deletion((#[trigger] items[i]).0, items[i].1.hash@)
                && !seen(outcomes, items[i].0) && wanted(filter, items[i].0) {
            let i = choose|i: int|
                0 <= i < items.len() && c == deletion((#[trigger] items[i]).0, items[i].1.hash@)
                    && !seen(outcomes, items[i].0) && wanted(filter, items[i].0);
            if i < front.len() {
                assert(front[i] == items[i]);
            }
        }
    }
}

/// A change is reported exactly where a file on disk shows it, or where it is
/// the deletion of a file of the snapshot that the filter wants and that is not
/// on disk.
#[verifier::rlimit(40)]
pub proof fn law_changes_are_exact(
    items: Seq<(Seq<char>, FileRecord)>,
    files: Map<Seq<char>, RecordView>,
    cutoff: Option<u64>,
    filter: Option<Filter>,
    states: Seq<FileState>,
    c: ChangeView,
)
    requires
        items_of(items, files),
    ensures
        all_changes(items, outcomes_of(files, cutoff, states), filter).contains(c) <==> {
            ||| exists|i: int|
                0 <= i < states.len() && outcome(
                    known_in(files, (#[trigger] states[i]).path),
                    cutoff,
                    states[i].path,
                    states[i].meta,
                    states[i].hash,
                ) == Some(c)
            ||| {
                &&& files.contains_key(c.path)
                &&& c == deletion(c.path, files[c.path].hash)
                &&& wanted(filter, c.path)
                &&& forall|i: int| 0 <= i < states.len() ==> (#[trigger] states[i]).path != c.path
            }
        },
{
    let outcomes = outcomes_of(files, cutoff, states);
    let found = found_changes(outcomes);
    let gone = deletions(items, outcomes, filter);
    let all = found + gone;
    lemma_found(outcomes, c);
    lemma_gone(items, outcomes, filter, c);
    assert(all.contains(c) <==> found.contains(c) || gone.contains(c)) by {
        if found.contains(c) {
            let k = choose|k: int| 0 <= k < found.len() && found[k] == c;
            assert(all[k] == c);
        }
        if gone.contains(c) {
            let k = choose|k: int| 0 <= k < gone.len() && gone[k] == c;
            assert(all[found.len() + k] == c);
        }
        if all.contains(c) {
            let k = choose|k: int| 0 <= k < all.len() && all[k] == c;
            if k < found.len() {
                assert(found[k] == c);
            } else {
                assert(gone[k - found.len()] == c);
            }
        }
    }
    assert(forall|i: int| 0 <= i < states.len() ==> (#[trigger] outcomes[i]).path == states[i].path);
    let m = choose|m: Map<Seq<char>, FileRecord>| #[trigger]
        lists(items, m) && files == records(m);
    if gone.contains(c) {
        let i = choose|i: int|
            0 <= i < items.len() && c == deletion((#[trigger] items[i]).0, items[i].1.hash@)
                && !seen(outcomes, items[i].0) && wanted(filter, items[i].0);
        assert(m.contains_key(items[i].0));
        assert forall|j: int| 0 <= j < states.len() implies (#[trigger] states[j]).path
            != c.path by {
            assert(outcomes[j].path == states[j].path);
        }
    }
    if files.contains_key(c.path) && c == deletion(c.path, files[c.path].hash) && wanted(
        filter,
        c.path,
    ) && (forall|i: int| 0 <= i < states.len() ==> (#[trigger] states[i]).path != c.path) {
        assert(m.contains_key(c.path));
        let i = choose|i: int| 0 <= i < items.len() && (#[trigger] items[i]).0 == c.path;
        assert(m[items[i].0] == items[i].1);
        assert(!seen(outcomes, c.path));
    }
    if exists|i: int| 0 <= i < outcomes.len() && (#[trigger] outcomes[i]).change == Some(c) {
        let i = choose|i: int| 0 <= i < outcomes.len() && (#[trigger] outcomes[i]).change == Some(c);
        assert(outcome(
            known_in(files, states[i].path),
            cutoff,
            states[i].path,
            states[i].meta,
            states[i].hash,
        ) == Some(c));
    }
    if exists|i: int|
        0 <= i < states.len() && outcome(
            known_in(files, (#[trigger] states[i]).path),
            cutoff,
            states[i].path,
            states[i].meta,
            states[i].hash,
        ) == Some(c) {
        let i = choose|i: int|
            0 <= i < states.len() && outcome(
                known_in(files, (#[trigger] states[i]).path),
                cutoff,
                states[i].path,
                states[i].meta,
                states[i].hash,
            ) == Some(c);
        assert(outcomes[i].change == Some(c));
    }
}

/// Where every file of the snapshot that the filter wants is on disk, and every
/// file on disk is one of the snapshot with the size and time of modification
/// that it has there, no change is reported and no file is hashed.
pub proof fn law_nothing_changed(
    items: Seq<(Seq<char>, FileRecord)>,
    files: Map<Seq<char>, RecordView>,
    cutoff: Option<u64>,
    filter: Option<Filter>,
    states: Seq<FileState>,
)
    requires
        items_of(items, files),
        forall|i: int|
            0 <= i < states.len() ==> files.contains_key((#[trigger] states[i]).path)
                && states[i].meta == Some((files[states[i].path].size, files[states[i].path].mtime)),
        forall|p: Seq<char>| #[trigger]
            files.contains_key(p) && wanted(filter, p) ==> exists|i: int|
                0 <= i < states.len() && (#[trigger] states[i]).path == p,
    ensures
        all_changes(items, outcomes_of(files, cutoff, states), filter) == Seq::<ChangeView>::empty(),
        rehash_count(outcomes_of(files, cutoff, states)) == 0,
{
    let outcomes = outcomes_of(files, cutoff, states);
    let all = all_changes(items, outcomes, filter);
    if all.len() > 0 {
        let c = all[0];
        assert(all.contains(c));
        law_changes_are_exact(items, files, cutoff, filter, states, c);
        assert(false);
    }
    lemma_none_rehashed(outcomes);
}

/// Where no file was hashed again, none is counted.
proof fn lemma_none_rehashed(outcomes: Seq<OutcomeView>)
    requires
        forall|i: int| 0 <= i < outcomes.len() ==> !(#[trigger] outcomes[i]).rehashed,
    ensures
        rehash_count(outcomes) == 0,
    decreases outcomes.len(),
{
    if outcomes.len() > 0 {
        lemma_none_rehashed(outcomes.drop_last());
    }
}

/// Whether the files that were hashed have different paths.
pub open spec fn distinct_paths(results: Seq<Option<HashedFile>>) -> bool {
    forall|i: int, j: int|
        0 <= i < j < results.len() && (#[trigger] results[i]) is Some && (#[trigger] results[j]) is Some
            ==> results[i]->0.path@ != results[j]->0.path@
}

/// Whether a file on disk has the path, size and time of modification that it
/// was hashed with.
pub open spec fn as_hashed(s: FileState, result: Option<HashedFile>) -> bool {
    result matches Some(f) && s.path == f.path@ && s.meta == Some((f.size, f.mtime))
}

/// The records hold the files that were hashed, and nothing else.
proof fn lemma_recorded(results: Seq<Option<HashedFile>>)
    requires
        distinct_paths(results),
    ensures
        forall|i: int|
            0 <= i < results.len() && (#[trigger] results[i]) is Some ==> {
                let f = results[i]->0;
                &&& recorded(results).contains_key(f.path@)
                &&& recorded(results)[f.path@].size == f.size
                &&& recorded(results)[f.path@].mtime == f.mtime
            },
        forall|p: Seq<char>| #[trigger]
            recorded(results).contains_key(p) ==> exists|i: int|
                0 <= i < results.len() && (#[trigger] results[i]) is Some && results[i]->0.path@
                    == p,
    decreases results.len(),
{
    if results.len() > 0 {
        let front = results.drop_last();
        lemma_recorded(front);
        assert forall|i: int| 0 <= i < results.len() && (#[trigger] results[i]) is Some implies {
            let f = results[i]->0;
            &&& recorded(results).contains_key(f.path@)
            &&& recorded(results)[f.path@].size == f.size
            &&& recorded(results)[f.path@].mtime == f.mtime
        } by {
            if i < front.len() {
                assert(front[i] == results[i]);
                assert(results.last() is Some ==> results[results.len() - 1] is Some);
            }
        }
        assert forall|p: Seq<char>| #[trigger] recorded(results).contains_key(p) implies exists|
            i: int,
        |
            0 <= i < results.len() && (#[trigger] results[i]) is Some && results[i]->0.path@
                == p by {
            if recorded(front).contains_key(p) {
                let i = choose|i: int|
                    0 <= i < front.len() && (#[trigger] front[i]) is Some && front[i]->0.path@ == p;
                assert(results[i] == front[i]);
            } else {
                assert(results[results.len() - 1]->0.path@ == p);
            }
        }
    }
}

/// Comparing the files that a snapshot was just made of with what is read back
/// of it reports no change and hashes no file, as long as no path among them
/// breaks its line.
#[verifier::rlimit(40)]
pub proof fn law_fresh_snapshot_shows_no_change(
    timestamp: u64,
    scope: Seq<char>,
    results: Seq<Option<HashedFile>>,
    items: Seq<(Seq<char>, FileRecord)>,
    cutoff: Option<u64>,
    filter: Option<Filter>,
    states: Seq<FileState>,
)
    requires
        one_line(scope),
        all_one_line(results),
        distinct_paths(results),
        items_of(items, loaded(snapshot_text(timestamp, scope, results)).files),
        forall|i: int|
            0 <= i < states.len() ==> exists|j: int|
                0 <= j < results.len() && as_hashed(#[trigger] states[i], #[trigger] results[j]),
        forall|j: int|
            0 <= j < results.len() && (#[trigger] results[j]) is Some && wanted(
                filter,
                results[j]->0.path@,
            ) ==> exists|i: int| 0 <= i < states.len() && as_hashed(#[trigger] states[i], results[j]),
    ensures
        ({
            let files = loaded(snapshot_text(timestamp, scope, results)).files;
            let outcomes = outcomes_of(files, cutoff, states);
            &&& all_changes(items, outcomes, filter) == Seq::<ChangeView>::empty()
            &&& rehash_count(outcomes) == 0
        }),
{
    law_snapshot_round_trip(timestamp, scope, results);
    lemma_recorded(results);
    let files = recorded(results);
    assert forall|i: int| 0 <= i < states.len() implies files.contains_key(
        (#[trigger] states[i]).path,
    ) && states[i].meta == Some((files[states[i].path].size, files[states[i].path].mtime)) by {
        let j = choose|j: int|
            0 <= j < results.len() && as_hashed(states[i], #[trigger] results[j]);
        assert(results[j] is Some);
    }
    assert forall|p: Seq<char>| #[trigger]
        files.contains_key(p) && wanted(filter, p) implies exists|i: int|
        0 <= i < states.len() && (#[trigger] states[i]).path == p by {
        let j = choose|j: int|
            0 <= j < results.len() && (#[trigger] results[j]) is Some && results[j]->0.path@ == p;
        let i = choose|i: int| 0 <= i < states.len() && as_hashed(#[trigger] states[i], results[j]);
        assert(states[i].path == p);
    }
    law_nothing_changed(items, files, cutoff, filter, states);
}

// ── Reporting ────────────────────────────────────────────────────────

/// The place of a kind of change in a report: what is gone comes first, what is
/// new last.
pub open spec fn kind_rank(kind: ChangeKind) -> int {
    match kind {
        ChangeKind::Deleted => 0,
        ChangeKind::Modified => 1,
        ChangeKind::Created => 2,
    }
}

/// The order of a report: by kind, then by path.
pub open spec fn change_le(a: ChangeView, b: ChangeView) -> bool {
    if a.kind != b.kind {
        kind_rank(a.kind) < kind_rank(b.kind)
    } else {
        text_le(a.path, b.path)
    }
}

/// The place of a kind of change in a report.
fn rank(kind: ChangeKind) -> (r: u8)
    ensures
        r == kind_rank(kind),
{
    match kind {
        ChangeKind::Deleted => 0,
        ChangeKind::Modified => 1,
        ChangeKind::Created => 2,
    }
}

impl Sortable for Change {
    open spec fn le(&self, other: &Self) -> bool {
        change_le(self@, other@)
    }

    proof fn lemma_total(a: &Self, b: &Self) {
        lemma_text_total(a.path@, b.path@);
    }

    proof fn lemma_transitive(a: &Self, b: &Self, c: &Self) {
        if a.kind == b.kind && b.kind == c.kind {
            lemma_text_transitive(a.path@, b.path@, c.path@);
        }
    }

    fn at_most(&self, other: &Self) -> (r: bool) {
        let a: u8 = rank(self.kind);
        let b: u8 = rank(other.kind);
        if a != b {
            a < b
        } else {
            text_at_most(self.path.as_str(), other.path.as_str())
        }
    }
}

/// The label of a kind of change; all are of one width.
pub open spec fn kind_label(kind: ChangeKind) -> Seq<char> {
    match kind {
        ChangeKind::Created => "created "@,
        ChangeKind::Modified => "modified"@,
        ChangeKind::Deleted => "deleted "@,
    }
}

/// The color of a kind of change.
pub open spec fn kind_tint(kind: ChangeKind) -> Tint {
    match kind {
        ChangeKind::Created => Tint::Green,
        ChangeKind::Modified => Tint::Yellow,
        ChangeKind::Deleted => Tint::Red,
    }
}

/// Whether a line is that of a change: its label and its path.
pub open spec fn line_of_change(line: Seq<char>, tty: bool, c: ChangeView) -> bool {
    exists|label: Seq<char>| #[trigger]
        shown_as(label, tty, kind_label(c.kind), kind_tint(c.kind)) && line == "  "@ + label + "  "@
            + c.path
}

/// The line of a change.
pub fn change_line(tty: bool, c: &Change) -> (r: String)
    ensures
        line_of_change(r@, tty, c@),
{
    let label = match c.kind {
        ChangeKind::Created => color_created(tty, "created "),
        ChangeKind::Modified => color_modified(tty, "modified"),
        ChangeKind::Deleted => color_deleted(tty, "deleted "),
    };
    assert(shown_as(label@, tty, kind_label(c.kind), kind_tint(c.kind)));
    "  ".to_owned().concat(label.as_str()).concat("  ").concat(c.path.as_str())
}

/// The summary at the end of a comparison.
pub open spec fn diff_summary_text(changed: nat, checked: u64, rehashed: u64, secs: u64, nanos: u32) -> Seq<
    char,
> {
    decimal(changed) + "  changed  "@ + count_text(checked as nat) + "  checked  "@ + count_text(
        rehashed as nat,
    ) + "  rehashed  "@ + elapsed_text(secs as nat, nanos as nat)
}

/// Whether lines are those of changes in the order of a report, one for each.
pub open spec fn lines_of_changes(lines: Seq<Seq<char>>, tty: bool, changes: Seq<Change>) -> bool {
    exists|order: Seq<usize>|
        {
            &&& #[trigger] is_sorted_order(changes, order)
            &&& lines.len() == order.len()
            &&& forall|i: int|
                0 <= i < lines.len() ==> line_of_change(
                    #[trigger] lines[i],
                    tty,
                    changes[order[i] as int]@,
                )
        }
}

/// The lines at the end of a comparison: the changes in order under an empty
/// line, or that there are none, and the summary.
pub fn diff_report(tty: bool, d: &Difference, secs: u64, nanos: u32) -> (r: Vec<String>)
    ensures
        r.len() == d.changes.len() + 2,
        r@.last()@ == "\n  "@ + diff_summary_text(
            d.changes.len() as nat,
            d.checked,
            d.rehashed,
            secs,
            nanos,
        ),
        d.changes.len() == 0 ==> r@[0]@ == "\n  no changes detected"@,
        d.changes.len() > 0 ==> r@[0]@.len() == 0 && lines_of_changes(
            texts(r@).subrange(1, r.len() - 1),
            tty,
            d.changes@,
        ),
{
    let mut r: Vec<String> = Vec::new();
    let changed: usize = d.changes.len();
    if changed == 0 {
        proof {
            reveal_strlit("\n  ");
            reveal_strlit("no changes detected");
            reveal_strlit("\n  no changes detected");
            assert("\n  "@ + "no changes detected"@ =~= "\n  no changes detected"@);
        }
        r.push(print_summary("no changes detected"));
    } else {
        r.push(String::new());
        let order = sort_order(&d.changes);
        let mut i: usize = 0;
        while i < order.len()
            invariant
                i <= order.len(),
                r.len() == i + 1,
                r@[0]@.len() == 0,
                is_sorted_order(d.changes@, order@),
                forall|k: int|
                    0 <= k < i ==> line_of_change(
                        (#[trigger] r@[k + 1])@,
                        tty,
                        d.changes@[order@[k] as int]@,
                    ),
            decreases order.len() - i,
        {
            assert(order@[i as int] < d.changes.len());
            let ghost before = r@;
            r.push(change_line(tty, &d.changes[order[i]]));
            proof {
                assert forall|k: int| 0 <= k < i + 1 implies line_of_change(
                    (#[trigger] r@[k + 1])@,
                    tty,
                    d.changes@[order@[k] as int]@,
                ) by {
                    if k < i {
                        assert(r@[k + 1] == before[k + 1]);
                    }
                }
            }
            i = i + 1;
        }
        let ghost listed = r@;
        proof {
            let lines = texts(listed).subrange(1, listed.len() as int);
            assert forall|k: int| 0 <= k < lines.len() implies line_of_change(
                #[trigger] lines[k],
                tty,
                d.changes@[order@[k] as int]@,
            ) by {
                assert(lines[k] == listed[k + 1]@);
            }
            assert(lines_of_changes(lines, tty, d.changes@));
        }
    }
    let ghost listed = r@;
    let summary = decimal_text(changed as u64).concat("  changed  ").concat(
        fmt_count(d.checked).as_str(),
    ).concat("  checked  ").concat(fmt_count(d.rehashed).as_str()).concat("  rehashed  ").concat(
        fmt_elapsed(secs, nanos).as_str(),
    );
    r.push(print_summary(summary.as_str()));
    proof {
        assert(texts(r@).subrange(1, r.len() - 1) =~= texts(listed).subrange(
            1,
            listed.len() as int,
        ));
    }
    r
}

/// How many changes are of a kind.
pub open spec fn kind_count(changes: Seq<ChangeView>, kind: ChangeKind) -> nat
    decreases changes.len(),
{
    if changes.len() == 0 {
        0
    } else {
        kind_count(changes.drop_last(), kind) + if changes.last().kind == kind {
            1nat
        } else {
            0nat
        }
    }
}

/// The changes of each kind are all the changes.
pub proof fn law_kinds_add_up(changes: Seq<ChangeView>)
    ensures
        kind_count(changes, ChangeKind::Created) + kind_count(changes, ChangeKind::Modified)
            + kind_count(changes, ChangeKind::Deleted) == changes.len(),
    decreases changes.len(),
{
    if changes.len() > 0 {
        law_kinds_add_up(changes.drop_last());
    }
}

/// The event of a change.
pub fn diff_changed(c: &Change) -> (r: DiffChanged)
    ensures
        r.event@ == "changed"@,
        r.kind@ == kind_name(c.kind),
        r.path@ == c.path@,
        text_view(r.old_hash) == text_view(c.old_hash),
        text_view(r.new_hash) == text_view(c.new_hash),
{
    DiffChanged {
        event: "changed",
        kind: c.kind.as_str().to_owned(),
        path: c.path.clone(),
        old_hash: copied(&c.old_hash),
        new_hash: copied(&c.new_hash),
    }
}

/// A copy of an optional text.
fn copied(s: &Option<String>) -> (r: Option<String>)
    ensures
        text_view(r) == text_view(*s),
{
    match s {
        Some(t) => Some(t.clone()),
        None => None,
    }
}

/// The event at the end of a comparison.
pub fn diff_summary(d: &Difference, elapsed_ms: u64) -> (r: DiffSummary)
    ensures
        r.event@ == "summary"@,
        r.modified == kind_count(change_views(d.changes@), ChangeKind::Modified),
        r.created == kind_count(change_views(d.changes@), ChangeKind::Created),
        r.deleted == kind_count(change_views(d.changes@), ChangeKind::Deleted),
        r.checked == d.checked,
        r.rehashed == d.rehashed,
        r.elapsed_ms == elapsed_ms,
{
    let ghost all = change_views(d.changes@);
    let mut created: u64 = 0;
    let mut modified: u64 = 0;
    let mut deleted: u64 = 0;
    let mut i: usize = 0;
    assert(all.take(0) =~= Seq::<ChangeView>::empty());
    while i < d.changes.len()
        invariant
            i <= d.changes.len(),
            all == change_views(d.changes@),
            created == kind_count(all.take(i as int), ChangeKind::Created),
            modified == kind_count(all.take(i as int), ChangeKind::Modified),
            deleted == kind_count(all.take(i as int), ChangeKind::Deleted),
            created <= i,
            modified <= i,
            deleted <= i,
        decreases d.changes.len() - i,
    {
        proof {
            assert(all.take(i + 1).drop_last() =~= all.take(i as int));
            assert(all.take(i + 1).last() == d.changes@[i as int]@);
        }
        match d.changes[i].kind {
            ChangeKind::Created => {
                created = created + 1;
            },
            ChangeKind::Modified => {
                modified = modified + 1;
            },
            ChangeKind::Deleted => {
                deleted = deleted + 1;
            },
        }
        i = i + 1;
    }
    assert(all.take(i as int) =~= all);
    DiffSummary {
        event: "summary",
        modified,
        created,
        deleted,
        checked: d.checked,
        rehashed: d.rehashed,
        elapsed_ms,
    }
}

/// What a snapshot is of, behind its label; nothing where it does not say.
pub open spec fn scope_note(scope: Seq<char>) -> Seq<char> {
    if scope.len() == 0 {
        Seq::empty()
    } else {
        "  scope: "@ + scope
    }
}

/// What a filter wants, behind its label; nothing without a filter.
pub open spec fn filter_note(filter: Option<Filter>) -> Seq<char> {
    match filter {
        Some(f) => "  filter: "@ + description(f),
        None => Seq::empty(),
    }
}

/// The lines before a comparison: what is compared with what, and where the
/// snapshot is. Its time is shown as a number where it could not be formatted.
pub fn diff_intro(
    snapshot: &Snapshot,
    formatted: Option<&str>,
    filter: &Option<Matcher>,
    snapshot_path: &str,
) -> (r: Vec<String>)
    requires
        snapshot.wf(),
    ensures
        r.len() == 2,
        r@[0]@ == "  comparing against snapshot from "@ + (match formatted {
            Some(s) => s@,
            None => decimal(snapshot.timestamp as nat),
        }) + "  ("@ + count_text(snapshot@.files.len()) + "  files)"@ + scope_note(snapshot.scope@)
            + filter_note(filter_view(*filter)),
        r@[1]@ == "  snapshot: "@ + snapshot_path@,
{
    let time = match formatted {
        Some(s) => s.to_owned(),
        None => decimal_text(snapshot.timestamp),
    };
    let files: u64 = snapshot.files.len() as u64;
    proof {
        assert(snapshot@.files.dom() =~= snapshot.files@.dom());
    }
    let scope = if same_text(snapshot.scope.as_str(), "") {
        String::new()
    } else {
        "  scope: ".to_owned().concat(snapshot.scope.as_str())
    };
    proof {
        reveal_strlit("");
        assert(""@ =~= Seq::<char>::empty());
        if snapshot.scope@.len() == 0 {
            assert(snapshot.scope@ =~= ""@);
        }
    }
    let wanted = match filter {
        Some(m) => "  filter: ".to_owned().concat(m.describe().as_str()),
        None => String::new(),
    };
    let mut r: Vec<String> = Vec::new();
    r.push(
        "  comparing against snapshot from ".to_owned().concat(time.as_str()).concat("  (").concat(
            fmt_count(files).as_str(),
        ).concat("  files)").concat(scope.as_str()).concat(wanted.as_str()),
    );
    r.push("  snapshot: ".to_owned().concat(snapshot_path));
    r
}

/// The message once the files to compare are known.
pub fn comparing_message(total: u64) -> (r: String)
    ensures
        r@ == count_text(total as nat) + "  files found, comparing..."@,
{
    fmt_count(total).concat("  files found, comparing...")
}

/// How to make a snapshot of a path.
pub fn snapshot_advice(path: &str) -> (r: String)
    ensures
        r@ == "  run 'ff hash "@ + path@ + "' first to create one"@,
{
    "  run 'ff hash ".to_owned().concat(path).concat("' first to create one")
}

/// The lines that say that there is no snapshot of a path.
pub fn no_snapshot(path: &str) -> (r: Vec<String>)
    ensures
        r.len() == 2,
        r@[0]@ == "  no snapshot found for '"@ + path@ + "'"@,
        r@[1]@ == "  run 'ff hash "@ + path@ + "' first to create one"@,
{
    let mut r: Vec<String> = Vec::new();
    r.push("  no snapshot found for '".to_owned().concat(path).concat("'"));
    r.push(snapshot_advice(path));
    r
}

/// The lines that say that a snapshot could not be read, and why.
pub fn unreadable_snapshot(reason: &str, path: &str) -> (r: Vec<String>)
    ensures
        r.len() == 2,
        r@[0]@ == "  failed to load snapshot: "@ + reason@,
        r@[1]@ == "  run 'ff hash "@ + path@ + "' first to create one"@,
{
    let mut r: Vec<String> = Vec::new();
    r.push("  failed to load snapshot: ".to_owned().concat(reason));
    r.push(snapshot_advice(path));
    r
}

// ── Laws on each step ────────────────────────────────────────────────

/// What the snapshot knows of a path is what its files hold there.
pub proof fn law_snapshot_is_looked_up(c: Comparison, path: Seq<char>)
    ensures
        c.snapshot@.files.contains_key(path) ==> c.known(path) == Some(c.snapshot@.files[path]),
        !c.snapshot@.files.contains_key(path) ==> c.known(path) is None,
{
}

/// The metadata of a file of the snapshot is read first, and its content is then
/// read where the size or the time of modification is another than the recorded
/// one, be it larger or smaller, unless the file is older than the cutoff. A file
/// of which both are unchanged, or which cannot be read, is left alone.
pub proof fn law_changed_metadata_is_followed_up(
    c: Comparison,
    path: Seq<char>,
    size: u64,
    mtime: u64,
)
    requires
        c.snapshot@.files.contains_key(path),
    ensures
        ({
            let r = c.snapshot@.files[path];
            let step = |e: EvidenceView| next_action(c.known(path), c.cutoff, path, e);
            let changed = size != r.size || mtime != r.mtime;
            let old = c.cutoff matches Some(k) && mtime < k;
            &&& step(EvidenceView::Nothing) == ActionView::ReadMetadata
            &&& changed && !old ==> step(EvidenceView::Metadata(Some((size, mtime))))
                == ActionView::ReadContent
            &&& !changed || old ==> step(EvidenceView::Metadata(Some((size, mtime))))
                == ActionView::Done(None)
            &&& step(EvidenceView::Metadata(None)) == ActionView::Done(None)
        }),
{
}

/// Once its content is hashed, a file of the snapshot is modified exactly where
/// the hash is another than the recorded one; the change tells both.
pub proof fn law_other_hash_is_a_change(c: Comparison, path: Seq<char>, hash: Seq<char>)
    requires
        c.snapshot@.files.contains_key(path),
    ensures
        ({
            let r = c.snapshot@.files[path];
            let step = |e: EvidenceView| next_action(c.known(path), c.cutoff, path, e);
            &&& hash == r.hash ==> step(EvidenceView::Hash(Some(hash))) == ActionView::Done(None)
            &&& hash != r.hash ==> (step(EvidenceView::Hash(Some(hash))) matches ActionView::Done(
                Some(change),
            ) && change.kind == ChangeKind::Modified && change.path == path && change.old_hash
                == Some(r.hash) && change.new_hash == Some(hash))
            &&& step(EvidenceView::Hash(None)) == ActionView::Done(None)
        }),
{
}

/// A file that the snapshot does not know is hashed and new, whatever its size
/// and hash are, unless it is older than the cutoff; only with a cutoff is its
/// metadata read.
pub proof fn law_new_file_is_followed_up(
    c: Comparison,
    path: Seq<char>,
    size: u64,
    mtime: u64,
    hash: Option<Seq<char>>,
)
    requires
        !c.snapshot@.files.contains_key(path),
    ensures
        ({
            let step = |e: EvidenceView| next_action(c.known(path), c.cutoff, path, e);
            let old = c.cutoff matches Some(k) && mtime < k;
            &&& c.cutoff is None ==> step(EvidenceView::Nothing) == ActionView::ReadContent
            &&& c.cutoff is Some ==> step(EvidenceView::Nothing) == ActionView::ReadMetadata
            &&& old ==> step(EvidenceView::Metadata(Some((size, mtime)))) == ActionView::Done(None)
            &&& !old ==> step(EvidenceView::Metadata(Some((size, mtime))))
                == ActionView::ReadContent
            &&& step(EvidenceView::Metadata(None)) == ActionView::ReadContent
            &&& (step(EvidenceView::Hash(hash)) matches ActionView::Done(Some(change))
                && change.kind == ChangeKind::Created && change.path == path && change.old_hash
                == None::<Seq<char>> && change.new_hash == hash)
        }),
{
}

// ── Laws on the report ───────────────────────────────────────────────

/// A file of the snapshot whose size or time of modification on disk is another,
/// larger or smaller, and whose hash is another, is reported as modified, unless
/// it is older than the cutoff.
pub proof fn law_modified_files_are_reported(
    items: Seq<(Seq<char>, FileRecord)>,
    files: Map<Seq<char>, RecordView>,
    cutoff: Option<u64>,
    filter: Option<Filter>,
    states: Seq<FileState>,
    i: int,
    size: u64,
    mtime: u64,
    hash: Seq<char>,
)
    requires
        items_of(items, files),
        0 <= i < states.len(),
        files.contains_key(states[i].path),
        states[i].meta == Some((size, mtime)),
        size != files[states[i].path].size || mtime != files[states[i].path].mtime,
        cutoff matches Some(k) ==> k <= mtime,
        states[i].hash == Some(hash),
        hash != files[states[i].path].hash,
    ensures
        all_changes(items, outcomes_of(files, cutoff, states), filter).contains(
            ChangeView {
                kind: ChangeKind::Modified,
                path: states[i].path,
                old_hash: Some(files[states[i].path].hash),
                new_hash: Some(hash),
            },
        ),
{
    let c = ChangeView {
        kind: ChangeKind::Modified,
        path: states[i].path,
        old_hash: Some(files[states[i].path].hash),
        new_hash: Some(hash),
    };
    law_changes_are_exact(items, files, cutoff, filter, states, c);
}

/// A file on disk that is not in the snapshot is reported as created, unless it is
/// older than the cutoff.
pub proof fn law_created_files_are_reported(
    items: Seq<(Seq<char>, FileRecord)>,
    files: Map<Seq<char>, RecordView>,
    cutoff: Option<u64>,
    filter: Option<Filter>,
    states: Seq<FileState>,
    i: int,
)
    requires
        items_of(items, files),
        0 <= i < states.len(),
        !files.contains_key(states[i].path),
        cutoff matches Some(k) ==> (states[i].meta matches Some((_, mtime)) ==> k <= mtime),
    ensures
        all_changes(items, outcomes_of(files, cutoff, states), filter).contains(
            ChangeView {
                kind: ChangeKind::Created,
                path: states[i].path,
                old_hash: None,
                new_hash: states[i].hash,
            },
        ),
{
    let c = ChangeView {
        kind: ChangeKind::Created,
        path: states[i].path,
        old_hash: None,
        new_hash: states[i].hash,
    };
    law_changes_are_exact(items, files, cutoff, filter, states, c);
}

/// A file of the snapshot that the filter wants and that is not on disk is
/// reported as deleted.
pub proof fn law_deleted_files_are_reported(
    items: Seq<(Seq<char>, FileRecord)>,
    files: Map<Seq<char>, RecordView>,
    cutoff: Option<u64>,
    filter: Option<Filter>,
    states: Seq<FileState>,
    path: Seq<char>,
)
    requires
        items_of(items, files),
        files.contains_key(path),
        filter matches Some(f) ==> accepts(f, path),
        forall|i: int| 0 <= i < states.len() ==> (#[trigger] states[i]).path != path,
    ensures
        all_changes(items, outcomes_of(files, cutoff, states), filter).contains(
            ChangeView {
                kind: ChangeKind::Deleted,
                path,
                old_hash: Some(files[path].hash),
                new_hash: None,
            },
        ),
{
    let c = ChangeView {
        kind: ChangeKind::Deleted,
        path,
        old_hash: Some(files[path].hash),
        new_hash: None,
    };
    law_changes_are_exact(items, files, cutoff, filter, states, c);
}

/// Nothing is reported without cause. What is created is on disk and not in the
/// snapshot. What is modified is in both, with another size or time, and another
/// hash. What is deleted is in the snapshot, passes the filter, and is not on
/// disk. Nothing on disk that is older than the cutoff is reported.
#[verifier::rlimit(40)]
pub proof fn law_reported_changes_have_cause(
    items: Seq<(Seq<char>, FileRecord)>,
    files: Map<Seq<char>, RecordView>,
    cutoff: Option<u64>,
    filter: Option<Filter>,
    states: Seq<FileState>,
    c: ChangeView,
)
    requires
        items_of(items, files),
        all_changes(items, outcomes_of(files, cutoff, states), filter).contains(c),
    ensures
        match c.kind {
            ChangeKind::Created => {
                &&& !files.contains_key(c.path)
                &&& c.old_hash is None
                &&& exists|i: int|
                    {
                        &&& 0 <= i < states.len()
                        &&& (#[trigger] states[i]).path == c.path
                        &&& c.new_hash == states[i].hash
                        &&& cutoff matches Some(k) ==> (states[i].meta matches Some((_, mtime))
                            ==> k <= mtime)
                    }
            },
            ChangeKind::Modified => {
                &&& files.contains_key(c.path)
                &&& c.old_hash == Some(files[c.path].hash)
                &&& c.new_hash is Some
                &&& c.new_hash != c.old_hash
                &&& exists|i: int|
                    {
                        &&& 0 <= i < states.len()
                        &&& (#[trigger] states[i]).path == c.path
                        &&& c.new_hash == states[i].hash
                        &&& states[i].meta matches Some((size, mtime)) && (size
                            != files[c.path].size || mtime != files[c.path].mtime) && (
                        cutoff matches Some(k) ==> k <= mtime)
                    }
            },
            ChangeKind::Deleted => {
                &&& files.contains_key(c.path)
                &&& c.old_hash == Some(files[c.path].hash)
                &&& c.new_hash is None
                &&& filter matches Some(f) ==> accepts(f, c.path)
                &&& forall|i: int| 0 <= i < states.len() ==> (#[trigger] states[i]).path != c.path
            },
        },
{
    law_changes_are_exact(items, files, cutoff, filter, states, c);
    if exists|i: int|
        0 <= i < states.len() && outcome(
            known_in(files, (#[trigger] states[i]).path),
            cutoff,
            states[i].path,
            states[i].meta,
            states[i].hash,
        ) == Some(c) {
        let i = choose|i: int|
            0 <= i < states.len() && outcome(
                known_in(files, (#[trigger] states[i]).path),
                cutoff,
                states[i].path,
                states[i].meta,
                states[i].hash,
            ) == Some(c);
        assert(states[i].path == c.path);
    }
}

/// Among the changes that were found, each is that of its file, and files of
/// different paths show changes of different paths.
proof fn lemma_found_distinct(outcomes: Seq<OutcomeView>)
    requires
        forall|i: int|
            0 <= i < outcomes.len() ==> ((#[trigger] outcomes[i]).change matches Some(c) ==> c.path
                == outcomes[i].path),
        forall|i: int, j: int|
            0 <= i < j < outcomes.len() ==> (#[trigger] outcomes[i]).path != (
            #[trigger] outcomes[j]).path,
    ensures
        forall|i: int, j: int|
            0 <= i < j < found_changes(outcomes).len() ==> (#[trigger] found_changes(
                outcomes,
            )[i]).path != (#[trigger] found_changes(outcomes)[j]).path,
        forall|i: int|
            0 <= i < found_changes(outcomes).len() ==> seen(
                outcomes,
                (#[trigger] found_changes(outcomes)[i]).path,
            ),
    decreases outcomes.len(),
{
    if outcomes.len() > 0 {
        let front = outcomes.drop_last();
        let last = outcomes.last();
        lemma_found_distinct(front);
        lemma_seen_push(front, last);
        assert(front.push(last) =~= outcomes);
        let before = found_changes(front);
        let now = found_changes(outcomes);
        assert(outcomes[outcomes.len() - 1] == last);
        assert(!seen(front, last.path)) by {
            if seen(front, last.path) {
                let k = choose|k: int|
                    0 <= k < front.len() && (#[trigger] front[k]).path == last.path;
                assert(outcomes[k] == front[k]);
            }
        }
        assert forall|i: int| 0 <= i < now.len() implies seen(outcomes, (#[trigger] now[i]).path) by {
            if i < before.len() {
                assert(now[i] == before[i]);
            }
        }
        assert forall|i: int, j: int| 0 <= i < j < now.len() implies (#[trigger] now[i]).path != (
        #[trigger] now[j]).path by {
            assert(now[i] == before[i]);
            if j < before.len() {
                assert(now[j] == before[j]);
            }
        }
    }
}

/// Deletions are of paths that were not seen, each of one.
#[verifier::rlimit(40)]
proof fn lemma_gone_distinct(
    items: Seq<(Seq<char>, FileRecord)>,
    outcomes: Seq<OutcomeView>,
    filter: Option<Filter>,
)
    requires
        forall|i: int, j: int|
            0 <= i < j < items.len() ==> (#[trigger] items[i]).0 != (#[trigger] items[j]).0,
    ensures
        ({
            let gone = deletions(items, outcomes, filter);
            &&& forall|i: int|
                0 <= i < gone.len() ==> !seen(outcomes, (#[trigger] gone[i]).path) && exists|k: int|
                    0 <= k < items.len() && (#[trigger] items[k]).0 == gone[i].path
            &&& forall|i: int, j: int|
                0 <= i < j < gone.len() ==> (#[trigger] gone[i]).path != (#[trigger] gone[j]).path
        }),
    decreases items.len(),
{
    if items.len() > 0 {
        let front = items.drop_last();
        lemma_gone_distinct(front, outcomes, filter);
        let before = deletions(front, outcomes, filter);
        let gone = deletions(items, outcomes, filter);
        let last = items.last();
        assert(items[items.len() - 1] == last);
        assert forall|i: int| 0 <= i < gone.len() implies !seen(
            outcomes,
            (#[trigger] gone[i]).path,
        ) && exists|k: int| 0 <= k < items.len() && (#[trigger] items[k]).0 == gone[i].path by {
            if i < before.len() {
                assert(gone[i] == before[i]);
                let k = choose|k: int|
                    0 <= k < front.len() && (#[trigger] front[k]).0 == before[i].path;
                assert(items[k] == front[k]);
            }
        }
        assert forall|i: int, j: int| 0 <= i < j < gone.len() implies (#[trigger] gone[i]).path != (
        #[trigger] gone[j]).path by {
            assert(gone[i] == before[i]);
            if j < before.len() {
                assert(gone[j] == before[j]);
            } else {
                let k = choose|k: int|
                    0 <= k < front.len() && (#[trigger] front[k]).0 == before[i].path;
                assert(items[k] == front[k]);
            }
        }
    }
}

/// No path is reported twice, as long as no path is on disk twice.
pub proof fn law_each_path_is_reported_once(
    items: Seq<(Seq<char>, FileRecord)>,
    files: Map<Seq<char>, RecordView>,
    cutoff: Option<u64>,
    filter: Option<Filter>,
    states: Seq<FileState>,
)
    requires
        items_of(items, files),
        forall|i: int, j: int|
            0 <= i < j < states.len() ==> (#[trigger] states[i]).path != (#[trigger] states[j]).path,
    ensures
        ({
            let all = all_changes(items, outcomes_of(files, cutoff, states), filter);
            forall|i: int, j: int|
                0 <= i < j < all.len() ==> (#[trigger] all[i]).path != (#[trigger] all[j]).path
        }),
{
    let outcomes = outcomes_of(files, cutoff, states);
    let found = found_changes(outcomes);
    let gone = deletions(items, outcomes, filter);
    let all = all_changes(items, outcomes, filter);
    assert(forall|i: int| 0 <= i < states.len() ==> (#[trigger] outcomes[i]).path == states[i].path);
    lemma_found_distinct(outcomes);
    lemma_gone_distinct(items, outcomes, filter);
    assert forall|i: int, j: int| 0 <= i < j < all.len() implies (#[trigger] all[i]).path != (
    #[trigger] all[j]).path by {
        if j < found.len() {
            assert(all[i] == found[i] && all[j] == found[j]);
        } else if i < found.len() {
            assert(all[i] == found[i] && all[j] == gone[j - found.len()]);
        } else {
            assert(all[i] == gone[i - found.len()] && all[j] == gone[j - found.len()]);
        }
    }
}

/// The numbers of a report are those of the files that were hashed again and of
/// the changes of each kind.
pub proof fn law_numbers_count(outcomes: Seq<OutcomeView>, changes: Seq<ChangeView>, kind: ChangeKind)
    ensures
        rehash_count(outcomes) == outcomes.filter(|o: OutcomeView| o.rehashed).len(),
        kind_count(changes, kind) == changes.filter(|c: ChangeView| c.kind == kind).len(),
    decreases outcomes.len() + changes.len(),
{
    reveal(Seq::filter);
    if outcomes.len() > 0 {
        law_numbers_count(outcomes.drop_last(), changes, kind);
    } else if changes.len() > 0 {
        law_numbers_count(outcomes, changes.drop_last(), kind);
    }
}

/// A report shows what is gone, then what was modified, then what is new, and
/// within a kind goes by path.
pub proof fn law_report_goes_by_kind_and_path(a: ChangeView, b: ChangeView)
    ensures
        a.kind == ChangeKind::Deleted && b.kind != ChangeKind::Deleted ==> change_le(a, b)
            && !change_le(b, a),
        a.kind == ChangeKind::Modified && b.kind == ChangeKind::Created ==> change_le(a, b)
            && !change_le(b, a),
        a.kind == b.kind ==> (change_le(a, b) <==> text_le(a.path, b.path)),
{
}

/// Whether one of the lines is that of a change.
pub open spec fn has_line(lines: Seq<Seq<char>>, tty: bool, c: ChangeView) -> bool {
    exists|i: int| 0 <= i < lines.len() && line_of_change(#[trigger] lines[i], tty, c)
}

/// Every change has its line in a report, and the lines stand in the order of the
/// changes.
#[verifier::rlimit(40)]
pub proof fn law_every_change_has_a_line(lines: Seq<Seq<char>>, tty: bool, changes: Seq<Change>)
    requires
        lines_of_changes(lines, tty, changes),
    ensures
        lines.len() == changes.len(),
        forall|k: usize|
            k < changes.len() ==> #[trigger] has_line(lines, tty, changes[k as int]@),
        exists|order: Seq<usize>|
            {
                &&& order.len() == lines.len()
                &&& forall|i: int|
                    0 <= i < lines.len() ==> (#[trigger] order[i]) < changes.len()
                        && line_of_change(lines[i], tty, changes[order[i] as int]@)
                &&& forall|i: int, j: int|
                    0 <= i < j < lines.len() ==> change_le(
                        changes[(#[trigger] order[i]) as int]@,
                        changes[(#[trigger] order[j]) as int]@,
                    )
            },
{
    let order = choose|order: Seq<usize>|
        {
            &&& #[trigger] is_sorted_order(changes, order)
            &&& lines.len() == order.len()
            &&& forall|i: int|
                0 <= i < lines.len() ==> line_of_change(
                    #[trigger] lines[i],
                    tty,
                    changes[order[i] as int]@,
                )
        };
    law_sorted_order_is_sorted(changes, order);
    assert forall|k: usize| k < changes.len() implies #[trigger] has_line(
        lines,
        tty,
        changes[k as int]@,
    ) by {
        assert(order.contains(k));
        let i = choose|i: int| 0 <= i < order.len() && order[i] == k;
        assert(line_of_change(lines[i], tty, changes[k as int]@));
    }
    assert forall|i: int| 0 <= i < lines.len() implies (#[trigger] order[i]) < changes.len()
        && line_of_change(lines[i], tty, changes[order[i] as int]@) by {
        assert(line_of_change(lines[i], tty, changes[order[i] as int]@));
    }
    assert forall|i: int, j: int| 0 <= i < j < lines.len() implies change_le(
        changes[(#[trigger] order[i]) as int]@,
        changes[(#[trigger] order[j]) as int]@,
    ) by {
        assert(changes[order[i] as int].le(&changes[order[j] as int]));
    }
}

/// Off a terminal, the line of a change is its kind, in a column, and its path; on
/// one, the kind is in green, yellow or red.
pub proof fn law_change_lines_read(line: Seq<char>, c: ChangeView)
    ensures
        line_of_change(line, false, c) <==> line == (match c.kind {
            ChangeKind::Created => "  "@ + "created "@ + "  "@,
            ChangeKind::Modified => "  "@ + "modified"@ + "  "@,
            ChangeKind::Deleted => "  "@ + "deleted "@ + "  "@,
        }) + c.path,
        c.kind == ChangeKind::Created ==> (line_of_change(line, true, c) <==> exists|label: Seq<char>|
            #![trigger painted(label, "created "@, Tint::Green)]
            painted(label, "created "@, Tint::Green) && line == "  "@ + label + "  "@ + c.path),
        c.kind == ChangeKind::Modified ==> (line_of_change(line, true, c) <==> exists|label: Seq<char>|
            #![trigger painted(label, "modified"@, Tint::Yellow)]
            painted(label, "modified"@, Tint::Yellow) && line == "  "@ + label + "  "@ + c.path),
        c.kind == ChangeKind::Deleted ==> (line_of_change(line, true, c) <==> exists|label: Seq<char>|
            #![trigger painted(label, "deleted "@, Tint::Red)]
            painted(label, "deleted "@, Tint::Red) && line == "  "@ + label + "  "@ + c.path),
        kind_name(ChangeKind::Created) == "created"@,
        kind_name(ChangeKind::Modified) == "modified"@,
        kind_name(ChangeKind::Deleted) == "deleted"@,
{
    let text = kind_label(c.kind);
    let tint = kind_tint(c.kind);
    assert(shown_as(text, false, text, tint));
    if line_of_change(line, true, c) {
        let label = choose|label: Seq<char>| #[trigger]
            shown_as(label, true, text, tint) && line == "  "@ + label + "  "@ + c.path;
        assert(painted(label, text, tint));
    }
    if exists|label: Seq<char>| #[trigger]
        painted(label, text, tint) && line == "  "@ + label + "  "@ + c.path {
        let label = choose|label: Seq<char>| #[trigger]
            painted(label, text, tint) && line == "  "@ + label + "  "@ + c.path;
        assert(shown_as(label, true, text, tint));
    }
}

/// The summary shows how many changes there are, how many files were checked and
/// hashed again, and the time, in this order.
pub proof fn law_diff_summary_reads(changed: nat, checked: u64, rehashed: u64, secs: u64, nanos: u32)
    ensures
        diff_summary_text(changed, checked, rehashed, secs, nanos) == decimal(changed) + (
        "  changed  "@ + (count_text(checked as nat) + ("  checked  "@ + (count_text(rehashed as nat)
            + ("  rehashed  "@ + elapsed_text(secs as nat, nanos as nat)))))),
{
    assert(diff_summary_text(changed, checked, rehashed, secs, nanos) =~= decimal(changed) + (
    "  changed  "@ + (count_text(checked as nat) + ("  checked  "@ + (count_text(rehashed as nat) + (
    "  rehashed  "@ + elapsed_text(secs as nat, nanos as nat)))))));
}

/// A scope and a filter are shown behind their labels where there are any.
pub proof fn law_notes_read(scope: Seq<char>, f: Filter)
    ensures
        scope.len() > 0 ==> scope_note(scope) == "  scope: "@ + scope,
        scope_note(Seq::empty()).len() == 0,
        filter_note(Some(f)) == "  filter: "@ + description(f),
        filter_note(None).len() == 0,
{
}

} // verus!
