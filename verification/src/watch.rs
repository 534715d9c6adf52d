//! Watching for changes: events on one path that follow each other closely are
//! reported as one.
use crate::diff::filter_note;
use crate::fanotify::{kind_of, mask_to_kind};
use crate::json::{WatchChange, WatchStarted};
use crate::matcher::{accepts, filter_view, wanted, wants, Filter, Matcher};
use crate::number::{integer, left_align, left_aligned, push_integer};
use crate::output::{color_created, color_deleted, color_modified, dim, painted, shown_as, Tint};
use crate::pathmap::{lists, PathMap};
use crate::text::same_text;
use vstd::prelude::*;
use vstd::string::*;

verus! {

/// What to watch, and how to report it.
pub struct WatchOpts {
    pub path: String,
    pub debounce_ms: u64,
    pub json: bool,
    pub filter: Option<String>,
    pub filter_regex: bool,
    pub filter_ignore_case: bool,
}

// ── Debouncing ───────────────────────────────────────────────────────

/// The last event on a path: its kind, and when it was seen, in nanoseconds.
pub struct Seen {
    pub kind: &'static str,
    pub at: u128,
}

/// The last event on a path, as its model.
pub struct SeenView {
    pub kind: Seq<char>,
    pub at: u128,
}

impl View for Seen {
    type V = SeenView;

    open spec fn view(&self) -> SeenView {
        SeenView { kind: self.kind@, at: self.at }
    }
}

/// A change to report.
pub struct Report {
    pub path: String,
    pub kind: &'static str,
}

/// The events that wait to be reported, the last on each path, until their path
/// has been quiet for the debounce window.
pub struct Debouncer {
    pending: PathMap<Seen>,
    window_ms: u64,
}

impl View for Debouncer {
    type V = Map<Seq<char>, SeenView>;

    closed spec fn view(&self) -> Map<Seq<char>, SeenView> {
        self.pending@.map_values(|s: Seen| s@)
    }
}

/// Whether an event has waited for the debounce window. One that was seen after
/// now has not waited at all.
pub open spec fn is_due(window_ms: u64, now: u128, seen: SeenView) -> bool {
    let waited = if now >= seen.at {
        now - seen.at
    } else {
        0
    };
    waited >= window_ms * 1_000_000
}

/// The events that have waited for the debounce window.
pub open spec fn due(
    pending: Map<Seq<char>, SeenView>,
    window_ms: u64,
    now: u128,
) -> Map<Seq<char>, SeenView> {
    pending.restrict(Set::new(|p: Seq<char>| pending.contains_key(p) && is_due(window_ms, now, pending[p])))
}

/// The events that have not.
pub open spec fn waiting(
    pending: Map<Seq<char>, SeenView>,
    window_ms: u64,
    now: u128,
) -> Map<Seq<char>, SeenView> {
    pending.restrict(Set::new(|p: Seq<char>| pending.contains_key(p) && !is_due(window_ms, now, pending[p])))
}

/// The events that wait once one more was seen on a path: where the filter wants
/// the path, it takes the place of the one before.
pub open spec fn observed(
    pending: Map<Seq<char>, SeenView>,
    filter: Option<Filter>,
    path: Seq<char>,
    mask: u64,
    now: u128,
) -> Map<Seq<char>, SeenView> {
    if wanted(filter, path) {
        pending.insert(path, SeenView { kind: kind_of(mask), at: now })
    } else {
        pending
    }
}

/// An event on a path that the filter wants waits from now on, with its kind, and
/// every other path is left alone; an event on any other path changes nothing.
pub proof fn law_wanted_events_wait(
    pending: Map<Seq<char>, SeenView>,
    filter: Option<Filter>,
    path: Seq<char>,
    mask: u64,
    now: u128,
    other: Seq<char>,
)
    ensures
        ({
            let after = observed(pending, filter, path, mask, now);
            let passes = filter matches Some(f) ==> accepts(f, path);
            &&& passes ==> after.contains_key(path) && after[path].at == now && after[path].kind
                == kind_of(mask)
            &&& !passes ==> after == pending
            &&& other != path ==> (after.contains_key(other) <==> pending.contains_key(other))
            &&& other != path && pending.contains_key(other) ==> after[other] == pending[other]
        }),
{
}

/// Whether reports are those of some events, one for each path.
pub open spec fn reports(r: Seq<Report>, events: Map<Seq<char>, SeenView>) -> bool {
    &&& forall|i: int|
        0 <= i < r.len() ==> events.contains_key((#[trigger] r[i]).path@) && r[i].kind@
            == events[r[i].path@].kind
    &&& forall|i: int, j: int|
        0 <= i < j < r.len() ==> (#[trigger] r[i]).path@ != (#[trigger] r[j]).path@
    &&& forall|p: Seq<char>| #[trigger]
        events.contains_key(p) ==> exists|i: int| 0 <= i < r.len() && (#[trigger] r[i]).path@ == p
}

impl Debouncer {
    /// The events can be looked up.
    pub closed spec fn wf(&self) -> bool {
        self.pending.wf()
    }

    /// The debounce window in milliseconds.
    pub closed spec fn window(&self) -> u64 {
        self.window_ms
    }

    /// A debouncer where nothing waits.
    pub fn new(window_ms: u64) -> (d: Self)
        ensures
            d.wf(),
            d.window() == window_ms,
            d@ == Map::<Seq<char>, SeenView>::empty(),
    {
        let d = Debouncer { pending: PathMap::new(), window_ms };
        assert(d@ =~= Map::<Seq<char>, SeenView>::empty());
        d
    }

    /// Takes in an event on a path, in place of the one before it.
    pub fn record(&mut self, path: String, kind: &'static str, now: u128)
        requires
            old(self).wf(),
        ensures
            final(self).wf(),
            final(self).window() == old(self).window(),
            final(self)@ == old(self)@.insert(path@, SeenView { kind: kind@, at: now }),
    {
        let ghost key = path@;
        let ghost before = *self;
        let seen = Seen { kind, at: now };
        let ghost said = seen@;
        self.pending.insert(path, seen);
        assert(self@ =~= before@.insert(key, said));
    }

    /// Takes in an event on a path that the filter wants.
    pub fn observe(&mut self, filter: &Option<Matcher>, path: String, mask: u64, now: u128)
        requires
            old(self).wf(),
            filter matches Some(m) ==> m.wf(),
        ensures
            final(self).wf(),
            final(self).window() == old(self).window(),
            final(self)@ == observed(old(self)@, filter_view(*filter), path@, mask, now),
            final(self)@ == if wanted(filter_view(*filter), path@) {
                old(self)@.insert(path@, SeenView { kind: kind_of(mask), at: now })
            } else {
                old(self)@
            },
    {
        if wants(filter, path.as_str()) {
            self.record(path, mask_to_kind(mask), now);
        }
    }

    /// Whether an event has waited for the debounce window.
    fn has_waited(&self, seen: &Seen, now: u128) -> (r: bool)
        ensures
            r == is_due(self.window(), now, seen@),
    {
        let waited: u128 = if now >= seen.at {
            now - seen.at
        } else {
            0
        };
        waited >= self.window_ms as u128 * 1_000_000
    }

    /// Hands out the events that have waited for the debounce window; the others
    /// wait on.
    pub fn flush(&mut self, now: u128) -> (r: Vec<Report>)
        requires
            old(self).wf(),
        ensures
            final(self).wf(),
            final(self).window() == old(self).window(),
            reports(r@, due(old(self)@, old(self).window(), now)),
            final(self)@ == waiting(old(self)@, old(self).window(), now),
    {
        let ghost all = self@;
        let ghost w = self.window();
        let ghost items = self.pending.items();
        let count: usize = self.pending.len();
        let mut rest: PathMap<Seen> = PathMap::new();
        let mut r: Vec<Report> = Vec::new();
        let mut i: usize = 0;
        proof {
            self.pending.lemma_lists();
        }
        while i < count
            invariant
                i <= count,
                count == items.len(),
                items == self.pending.items(),
                lists(items, self.pending@),
                all == self@,
                w == self.window(),
                rest.wf(),
                forall|k: int|
                    0 <= k < r.len() ==> all.contains_key((#[trigger] r@[k]).path@) && is_due(
                        w,
                        now,
                        all[r@[k].path@],
                    ) && r@[k].kind@ == all[r@[k].path@].kind,
                forall|k: int|
                    0 <= k < r.len() ==> exists|j: int|
                        0 <= j < i && (#[trigger] items[j]).0 == (#[trigger] r@[k]).path@,
                forall|k: int, l: int|
                    0 <= k < l < r.len() ==> (#[trigger] r@[k]).path@ != (#[trigger] r@[l]).path@,
                forall|j: int|
                    0 <= j < i ==> {
                        let p = (#[trigger] items[j]).0;
                        if is_due(w, now, all[p]) {
                            exists|k: int| 0 <= k < r.len() && (#[trigger] r@[k]).path@ == p
                        } else {
                            rest@.contains_key(p)
                        }
                    },
                forall|p: Seq<char>| #[trigger]
                    rest@.contains_key(p) ==> all.contains_key(p) && !is_due(w, now, all[p])
                        && rest@[p]@ == all[p],
            decreases count - i,
        {
            let path: &String = self.pending.path_at(i);
            let seen: &Seen = self.pending.value_at(i);
            let ghost before = r@;
            proof {
                assert(self.pending@.contains_key(items[i as int].0));
                assert(all[path@] == seen@);
            }
            if self.has_waited(seen, now) {
                r.push(Report { path: path.clone(), kind: seen.kind });
                proof {
                    assert forall|k: int| 0 <= k < r.len() implies exists|j: int|
                        0 <= j < i + 1 && (#[trigger] items[j]).0 == (#[trigger] r@[k]).path@ by {
                        if k < before.len() {
                            assert(r@[k] == before[k]);
                            let j = choose|j: int|
                                0 <= j < i && (#[trigger] items[j]).0 == before[k].path@;
                            assert(items[j].0 == r@[k].path@);
                        } else {
                            assert(items[i as int].0 == r@[k].path@);
                        }
                    }
                    assert forall|k: int, l: int| 0 <= k < l < r.len() implies (
                    #[trigger] r@[k]).path@ != (#[trigger] r@[l]).path@ by {
                        assert(r@[k] == before[k]);
                        if l < before.len() {
                            assert(r@[l] == before[l]);
                        } else {
                            let j = choose|j: int|
                                0 <= j < i && (#[trigger] items[j]).0 == before[k].path@;
                            assert(items[j].0 != items[i as int].0);
                        }
                    }
                    assert forall|j: int| 0 <= j < i + 1 implies {
                        let p = (#[trigger] items[j]).0;
                        if is_due(w, now, all[p]) {
                            exists|k: int| 0 <= k < r.len() && (#[trigger] r@[k]).path@ == p
                        } else {
                            rest@.contains_key(p)
                        }
                    } by {
                        let p = items[j].0;
                        if j < i && is_due(w, now, all[p]) {
                            let k = choose|k: int|
                                0 <= k < before.len() && (#[trigger] before[k]).path@ == p;
                            assert(r@[k].path@ == p);
                        }
                        if j == i {
                            assert(r@[before.len() as int].path@ == p);
                        }
                    }
                }
            } else {
                rest.insert(path.clone(), Seen { kind: seen.kind, at: seen.at });
            }
            i = i + 1;
        }
        proof {
            let gone = due(all, w, now);
            assert forall|p: Seq<char>| #[trigger] gone.contains_key(p) implies exists|k: int|
                0 <= k < r.len() && (#[trigger] r@[k]).path@ == p by {
                assert(self.pending@.contains_key(p));
                let j = choose|j: int| 0 <= j < items.len() && (#[trigger] items[j]).0 == p;
                assert(is_due(w, now, all[items[j].0]));
            }
        }
        self.pending = rest;
        proof {
            let left = waiting(all, w, now);
            assert forall|p: Seq<char>| left.contains_key(p) implies #[trigger] self@.contains_key(
                p,
            ) by {
                let j = choose|j: int| 0 <= j < items.len() && (#[trigger] items[j]).0 == p;
                assert(!is_due(w, now, all[items[j].0]));
            }
            assert(self@ =~= left);
        }
        r
    }

    /// Hands out all events that wait, and leaves none.
    pub fn drain(&mut self) -> (r: Vec<Report>)
        requires
            old(self).wf(),
        ensures
            final(self).wf(),
            final(self).window() == old(self).window(),
            reports(r@, old(self)@),
            final(self)@ == Map::<Seq<char>, SeenView>::empty(),
    {
        let ghost all = self@;
        let ghost items = self.pending.items();
        let count: usize = self.pending.len();
        let mut r: Vec<Report> = Vec::new();
        let mut i: usize = 0;
        proof {
            self.pending.lemma_lists();
        }
        while i < count
            invariant
                i <= count,
                count == items.len(),
                items == self.pending.items(),
                r.len() == i,
                forall|k: int|
                    0 <= k < i ==> (#[trigger] r@[k]).path@ == items[k].0 && r@[k].kind@
                        == items[k].1.kind@,
            decreases count - i,
        {
            let path: &String = self.pending.path_at(i);
            let seen: &Seen = self.pending.value_at(i);
            r.push(Report { path: path.clone(), kind: seen.kind });
            i = i + 1;
        }
        proof {
            assert forall|p: Seq<char>| #[trigger] all.contains_key(p) implies exists|k: int|
                0 <= k < r.len() && (#[trigger] r@[k]).path@ == p by {
                assert(self.pending@.contains_key(p));
                let j = choose|j: int| 0 <= j < items.len() && (#[trigger] items[j]).0 == p;
                assert(r@[j].path@ == p);
            }
            assert forall|k: int| 0 <= k < r.len() implies all.contains_key(
                (#[trigger] r@[k]).path@,
            ) && r@[k].kind@ == all[r@[k].path@].kind by {
                assert(self.pending@.contains_key(items[k].0));
            }
            assert forall|k: int, l: int| 0 <= k < l < r.len() implies (#[trigger] r@[k]).path@ != (
            #[trigger] r@[l]).path@ by {
                assert(items[k].0 != items[l].0);
            }
        }
        self.pending = PathMap::new();
        assert(self@ =~= Map::<Seq<char>, SeenView>::empty());
        r
    }
}

/// Nothing is lost or reported twice: an event that waits is either handed out
/// by a flush or waits on, as it is.
pub proof fn law_flush_splits(
    pending: Map<Seq<char>, SeenView>,
    window_ms: u64,
    now: u128,
    path: Seq<char>,
)
    ensures
        ({
            let out = due(pending, window_ms, now);
            let rest = waiting(pending, window_ms, now);
            &&& pending.contains_key(path) <==> out.contains_key(path) || rest.contains_key(path)
            &&& !(out.contains_key(path) && rest.contains_key(path))
            &&& out.contains_key(path) ==> out[path] == pending[path]
            &&& rest.contains_key(path) ==> rest[path] == pending[path]
        }),
{
}

/// A path that is still written to waits: right after an event on it, a flush
/// does not hand it out, unless there is no debounce window.
pub proof fn law_busy_path_waits(
    pending: Map<Seq<char>, SeenView>,
    window_ms: u64,
    path: Seq<char>,
    kind: Seq<char>,
    seen: u128,
    now: u128,
)
    requires
        seen <= now,
    ensures
        ({
            let held = pending.insert(path, SeenView { kind, at: seen });
            due(held, window_ms, now).contains_key(path) <==> now - seen >= window_ms * 1_000_000
        }),
{
}

/// Of several events on a path only the last is reported.
pub proof fn law_last_event_wins(
    pending: Map<Seq<char>, SeenView>,
    path: Seq<char>,
    first: SeenView,
    last: SeenView,
)
    ensures
        pending.insert(path, first).insert(path, last) == pending.insert(path, last),
{
    assert(pending.insert(path, first).insert(path, last) =~= pending.insert(path, last));
}

// ── Reporting ────────────────────────────────────────────────────────

/// The color of a kind of change: green for what has appeared, yellow for what
/// was modified, red for what has gone, and none for the rest.
pub open spec fn watch_tint(kind: Seq<char>) -> Option<Tint> {
    if kind == "created"@ || kind == "moved_to"@ {
        Some(Tint::Green)
    } else if kind == "modified"@ {
        Some(Tint::Yellow)
    } else if kind == "deleted"@ || kind == "moved_from"@ {
        Some(Tint::Red)
    } else {
        None
    }
}

/// Whether `shown` is how a kind of change is shown: in a column, in its color.
pub open spec fn kind_shown(shown: Seq<char>, tty: bool, kind: Seq<char>) -> bool {
    match watch_tint(kind) {
        Some(tint) => shown_as(shown, tty, left_aligned(kind, 10), tint),
        None => shown == left_aligned(kind, 10),
    }
}

/// Whether a line is that of a change: when it was, its kind and its path.
pub open spec fn line_of_report(
    line: Seq<char>,
    tty: bool,
    time: Seq<char>,
    kind: Seq<char>,
    path: Seq<char>,
) -> bool {
    exists|shown_time: Seq<char>, shown_kind: Seq<char>|
        {
            &&& #[trigger] shown_as(shown_time, tty, time, Tint::DarkGrey)
            &&& #[trigger] kind_shown(shown_kind, tty, kind)
            &&& line == "  "@ + shown_time + "  "@ + shown_kind + "  "@ + path
        }
}

/// A kind of change in its column and color.
fn show_kind(tty: bool, kind: &str) -> (r: String)
    ensures
        kind_shown(r@, tty, kind@),
{
    let column = left_align(kind, 10);
    if same_text(kind, "created") || same_text(kind, "moved_to") {
        color_created(tty, column.as_str())
    } else if same_text(kind, "modified") {
        color_modified(tty, column.as_str())
    } else if same_text(kind, "deleted") || same_text(kind, "moved_from") {
        color_deleted(tty, column.as_str())
    } else {
        column
    }
}

/// The line of a change.
pub fn report_line(tty: bool, time: &str, kind: &str, path: &str) -> (r: String)
    ensures
        line_of_report(r@, tty, time@, kind@, path@),
{
    let shown_time = dim(tty, time);
    let shown_kind = show_kind(tty, kind);
    "  ".to_owned().concat(shown_time.as_str()).concat("  ").concat(shown_kind.as_str()).concat(
        "  ",
    ).concat(path)
}

/// The event of a change.
pub fn watch_change(kind: &str, path: &str, now: u64) -> (r: WatchChange)
    ensures
        r.event@ == "change"@,
        r.kind@ == kind@,
        r.path@ == path@,
        r.timestamp == now,
{
    WatchChange { event: "change", kind: kind.to_owned(), path: path.to_owned(), timestamp: now }
}

/// The event at the start of a watch.
pub fn watch_started(path: &str, now: u64) -> (r: WatchStarted)
    ensures
        r.event@ == "started"@,
        r.path@ == path@,
        r.timestamp == now,
{
    WatchStarted { event: "started", path: path.to_owned(), timestamp: now }
}

/// The lines at the start of a watch: what is watched, and how to stop.
pub fn watch_intro(path: &str, filter: &Option<Matcher>) -> (r: String)
    ensures
        r@ == "  watching "@ + path@ + "  "@ + (match filter_view(*filter) {
            Some(f) => filter_note(Some(f)) + "\n  Ctrl+C to quit\n"@,
            None => "Ctrl+C to quit\n"@,
        }),
{
    let start = "  watching ".to_owned().concat(path).concat("  ");
    match filter {
        Some(m) => {
            let note = "  filter: ".to_owned().concat(m.describe().as_str());
            let r = start.concat(note.as_str()).concat("\n  Ctrl+C to quit\n");
            assert(r@ =~= start@ + (note@ + "\n  Ctrl+C to quit\n"@));
            r
        },
        None => start.concat("Ctrl+C to quit\n"),
    }
}

/// The lines where watching cannot start.
pub fn init_failure(errno: i32) -> (r: Vec<String>)
    ensures
        r.len() == 2,
        r@[0]@ == "  failed to initialize fanotify (errno: "@ + integer(errno as int) + ")"@,
        r@[1]@ == "  fanotify requires root/CAP_SYS_ADMIN \u{2014} run with sudo"@,
{
    let mut first = "  failed to initialize fanotify (errno: ".to_owned();
    push_integer(&mut first, errno);
    let mut r: Vec<String> = Vec::new();
    r.push(first.concat(")"));
    r.push("  fanotify requires root/CAP_SYS_ADMIN \u{2014} run with sudo".to_owned());
    r
}

/// The lines where a path cannot be watched.
pub fn mark_failure(errno: i32) -> (r: Vec<String>)
    ensures
        r.len() == 2,
        r@[0]@ == "  failed to mark path for monitoring (errno: "@ + integer(errno as int) + ")"@,
        r@[1]@ == "  ensure the path exists and you have sufficient permissions"@,
{
    let mut first = "  failed to mark path for monitoring (errno: ".to_owned();
    push_integer(&mut first, errno);
    let mut r: Vec<String> = Vec::new();
    r.push(first.concat(")"));
    r.push("  ensure the path exists and you have sufficient permissions".to_owned());
    r
}

// ── Laws ─────────────────────────────────────────────────────────────

/// A flush hands out exactly the events that have waited as many milliseconds as
/// the debounce window has, or more; one that was seen after now has waited none.
pub proof fn law_flush_goes_by_waiting(
    pending: Map<Seq<char>, SeenView>,
    window_ms: u64,
    now: u128,
    path: Seq<char>,
)
    ensures
        ({
            let out = due(pending, window_ms, now).contains_key(path);
            let stays = waiting(pending, window_ms, now).contains_key(path);
            &&& !pending.contains_key(path) ==> !out && !stays
            &&& pending.contains_key(path) && pending[path].at <= now ==> (out <==> now
                - pending[path].at >= window_ms * 1_000_000)
            &&& pending.contains_key(path) && pending[path].at > now ==> (out <==> window_ms == 0)
            &&& pending.contains_key(path) ==> (stays <==> !out)
        }),
{
}

/// Every event that is handed out has one report, of its kind, and there are as
/// many reports as events.
pub proof fn law_each_event_is_reported_once(
    r: Seq<Report>,
    events: Map<Seq<char>, SeenView>,
    path: Seq<char>,
)
    requires
        reports(r, events),
    ensures
        events.contains_key(path) <==> exists|i: int|
            0 <= i < r.len() && (#[trigger] r[i]).path@ == path && r[i].kind@ == events[path].kind,
        forall|i: int, j: int|
            0 <= i < r.len() && 0 <= j < r.len() && (#[trigger] r[i]).path@ == (
            #[trigger] r[j]).path@ ==> i == j,
        events.dom().finite() && r.len() == events.len(),
{
    if events.contains_key(path) {
        let i = choose|i: int| 0 <= i < r.len() && (#[trigger] r[i]).path@ == path;
        assert(r[i].kind@ == events[r[i].path@].kind);
    }
    let paths = r.map_values(|x: Report| x.path@);
    assert(paths.no_duplicates()) by {
        assert forall|i: int, j: int|
            0 <= i < paths.len() && 0 <= j < paths.len() && i != j implies paths[i]
            != paths[j] by {
            if i < j {
                assert(r[i].path@ != r[j].path@);
            } else {
                assert(r[j].path@ != r[i].path@);
            }
        }
    }
    paths.unique_seq_to_set();
    assert(paths.to_set() =~= events.dom()) by {
        assert forall|p: Seq<char>| paths.to_set().contains(p) == events.dom().contains(p) by {
            if events.contains_key(p) {
                let i = choose|i: int| 0 <= i < r.len() && (#[trigger] r[i]).path@ == p;
                assert(paths[i] == p);
            }
            if paths.contains(p) {
                let i = choose|i: int| 0 <= i < paths.len() && paths[i] == p;
                assert(events.contains_key(r[i].path@));
            }
        }
    }
    assert forall|i: int, j: int|
        0 <= i < r.len() && 0 <= j < r.len() && (#[trigger] r[i]).path@ == (
        #[trigger] r[j]).path@ implies i == j by {
        if i < j {
            assert(r[i].path@ != r[j].path@);
        }
        if j < i {
            assert(r[j].path@ != r[i].path@);
        }
    }
}

/// Green stands for what has appeared, yellow for what was modified and red for
/// what has gone; no other kind has a color.
pub proof fn law_kinds_are_color_coded(kind: Seq<char>)
    ensures
        watch_tint("created"@) == Some(Tint::Green),
        watch_tint("moved_to"@) == Some(Tint::Green),
        watch_tint("modified"@) == Some(Tint::Yellow),
        watch_tint("deleted"@) == Some(Tint::Red),
        watch_tint("moved_from"@) == Some(Tint::Red),
        kind != "created"@ && kind != "moved_to"@ && kind != "modified"@ && kind != "deleted"@
            && kind != "moved_from"@ ==> watch_tint(kind) is None,
{
    reveal_strlit("created");
    reveal_strlit("moved_to");
    reveal_strlit("modified");
    reveal_strlit("deleted");
    reveal_strlit("moved_from");
    assert("created"@.len() == 7 && "moved_to"@.len() == 8 && "modified"@.len() == 8);
    assert("deleted"@.len() == 7 && "moved_from"@.len() == 10);
    assert("created"@[0] == 'c' && "deleted"@[0] == 'd');
    assert("moved_to"@[2] == 'v' && "modified"@[2] == 'd');
}

/// Off a terminal, the line of a change is its time, its kind in a column of ten,
/// and its path; on one, the time is dimmed and the kind in its color.
pub proof fn law_report_lines_read(
    line: Seq<char>,
    time: Seq<char>,
    kind: Seq<char>,
    path: Seq<char>,
)
    ensures
        line_of_report(line, false, time, kind, path) <==> line == "  "@ + time + "  "@
            + left_aligned(kind, 10) + "  "@ + path,
        line_of_report(line, true, time, kind, path) ==> exists|t: Seq<char>, k: Seq<char>|
            {
                &&& #[trigger] painted(t, time, Tint::DarkGrey)
                &&& line == "  "@ + t + "  "@ + k + "  "@ + path
                &&& match watch_tint(kind) {
                    Some(tint) => painted(k, left_aligned(kind, 10), tint),
                    None => k == left_aligned(kind, 10),
                }
                &&& #[trigger] kind_shown(k, true, kind)
            },
{
    let column = left_aligned(kind, 10);
    assert(shown_as(time, false, time, Tint::DarkGrey));
    assert(kind_shown(column, false, kind));
    if line_of_report(line, true, time, kind, path) {
        let (t, k) = choose|t: Seq<char>, k: Seq<char>|
            {
                &&& #[trigger] shown_as(t, true, time, Tint::DarkGrey)
                &&& #[trigger] kind_shown(k, true, kind)
                &&& line == "  "@ + t + "  "@ + k + "  "@ + path
            };
        assert(painted(t, time, Tint::DarkGrey));
        assert(kind_shown(k, true, kind));
    }
}

} // verus!
