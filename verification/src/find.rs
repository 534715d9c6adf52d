//! Finding files by name or pattern, and what a search reports.
use crate::hash::{collected, inaccessible, Visit, PROGRESS_STEP};
use crate::json::{FindResult, FindSummary};
use crate::matcher::{accepts, Filter, Matcher};
use crate::output::{
    count_text, elapsed_text, fmt_count, fmt_elapsed, print_summary, print_warning, shown_as, Tint,
};
use vstd::prelude::*;
use vstd::string::*;

verus! {

/// What to find, and how to report it.
pub struct FindOpts {
    pub pattern: String,
    pub path: String,
    pub ignore_case: bool,
    pub is_regex: bool,
    pub json: bool,
    pub no_skip: bool,
}

/// What a search has met so far: how much it checked, how many files it found,
/// and whether anything could not be read.
#[derive(Clone, Copy)]
pub struct FindTally {
    pub checked: u64,
    pub found: u64,
    pub had_errors: bool,
}

/// What a search has met, with one more thing.
pub open spec fn with_visit(t: FindTally, filter: Filter, visit: Visit) -> FindTally {
    if visit is Unreadable {
        FindTally { had_errors: true, ..t }
    } else if collected(Some(filter), visit) {
        FindTally { checked: (t.checked + 1) as u64, found: (t.found + 1) as u64, ..t }
    } else {
        FindTally { checked: (t.checked + 1) as u64, ..t }
    }
}

impl FindTally {
    /// No more was found than was checked.
    pub open spec fn wf(&self) -> bool {
        self.found <= self.checked
    }

    /// A search that has met nothing.
    pub fn new() -> (t: Self)
        ensures
            t.wf(),
            t == (FindTally { checked: 0, found: 0, had_errors: false }),
    {
        FindTally { checked: 0, found: 0, had_errors: false }
    }

    /// Takes note of what the traversal meets, and says whether it is a result.
    pub fn visit(&mut self, matcher: &Matcher, visit: &Visit) -> (r: bool)
        requires
            old(self).wf(),
            old(self).checked < u64::MAX,
            matcher.wf(),
        ensures
            final(self).wf(),
            *final(self) == with_visit(*old(self), matcher@, *visit),
            r == collected(Some(matcher@), *visit),
    {
        match visit {
            Visit::Unreadable => {
                self.had_errors = true;
                false
            },
            Visit::Other => {
                self.checked = self.checked + 1;
                false
            },
            Visit::File(path) => {
                self.checked = self.checked + 1;
                let hit = matcher.matches(path);
                if hit {
                    self.found = self.found + 1;
                }
                hit
            },
        }
    }

    /// The totals: how much was checked and found, and the time.
    pub open spec fn totals(&self, secs: u64, nanos: u32) -> Seq<char> {
        count_text(self.checked as nat) + "  checked  "@ + count_text(self.found as nat)
            + "  found  "@ + elapsed_text(secs as nat, nanos as nat)
    }

    /// The totals as text.
    fn totals_text(&self, secs: u64, nanos: u32) -> (r: String)
        ensures
            r@ == self.totals(secs, nanos),
    {
        fmt_count(self.checked).concat("  checked  ").concat(fmt_count(self.found).as_str()).concat(
            "  found  ",
        ).concat(fmt_elapsed(secs, nanos).as_str())
    }

    /// The progress after something was met; none but at every so many things
    /// that were checked, and none where events are written.
    pub fn progress(&self, json: bool, visit: &Visit, secs: u64, nanos: u32) -> (r: Option<String>)
        ensures
            match r {
                Some(s) => {
                    &&& !json && !(*visit is Unreadable) && self.checked % PROGRESS_STEP == 0
                    &&& s@ == self.totals(secs, nanos)
                },
                None => json || *visit is Unreadable || self.checked % PROGRESS_STEP != 0,
            },
    {
        if let Visit::Unreadable = visit {
            return None;
        }
        if json || self.checked % PROGRESS_STEP != 0 {
            return None;
        }
        Some(self.totals_text(secs, nanos))
    }

    /// The event at the end of a search.
    pub fn summary(&self, elapsed_ms: u64) -> (r: FindSummary)
        ensures
            r.event@ == "summary"@,
            r.checked == self.checked,
            r.found == self.found,
            r.elapsed_ms == elapsed_ms,
            r.errors == self.had_errors,
    {
        FindSummary {
            event: "summary",
            checked: self.checked,
            found: self.found,
            elapsed_ms,
            errors: self.had_errors,
        }
    }

    /// The lines at the end of a search: the totals, and a warning where
    /// something could not be read.
    pub fn report(&self, tty: bool, secs: u64, nanos: u32) -> (r: Vec<String>)
        ensures
            r.len() == if self.had_errors {
                2int
            } else {
                1int
            },
            r@[0]@ == "\n  "@ + self.totals(secs, nanos),
            self.had_errors ==> exists|mark: Seq<char>|
                #![trigger shown_as(mark, tty, "!"@, Tint::Yellow)]
                shown_as(mark, tty, "!"@, Tint::Yellow) && r@[1]@ == "  "@ + mark + " "@
                    + inaccessible(),
    {
        let mut r: Vec<String> = Vec::new();
        r.push(print_summary(self.totals_text(secs, nanos).as_str()));
        if self.had_errors {
            r.push(
                print_warning(
                    tty,
                    "some paths were inaccessible (run with sudo for full coverage)",
                ),
            );
        }
        r
    }
}

/// The event of a file that was found; its size and time are zero where they
/// could not be read.
pub fn find_result(path: &str, meta: Option<(u64, u64)>) -> (r: FindResult)
    ensures
        r.event@ == "result"@,
        r.path@ == path@,
        (r.size, r.modified) == (match meta {
            Some(m) => m,
            None => (0, 0),
        }),
{
    let (size, modified): (u64, u64) = match meta {
        Some(m) => m,
        None => (0, 0),
    };
    FindResult { event: "result", path: path.to_owned(), size, modified }
}

/// What a search has met once it has met all of a list.
pub open spec fn with_visits(filter: Filter, visits: Seq<Visit>) -> FindTally
    decreases visits.len(),
{
    if visits.len() == 0 {
        FindTally { checked: 0, found: 0, had_errors: false }
    } else {
        with_visit(with_visits(filter, visits.drop_last()), filter, visits.last())
    }
}

/// A search checks everything that it can read, finds the files that the filter
/// accepts, and had errors exactly where it met something that it cannot read.
pub proof fn law_search_is_complete(filter: Filter, visits: Seq<Visit>)
    requires
        visits.len() <= u64::MAX,
    ensures
        with_visits(filter, visits).wf(),
        with_visits(filter, visits).checked == visits.filter(|v: Visit| !(v is Unreadable)).len(),
        with_visits(filter, visits).found == visits.filter(
            |v: Visit| v matches Visit::File(path) && accepts(filter, path@),
        ).len(),
        with_visits(filter, visits).had_errors <==> exists|i: int|
            0 <= i < visits.len() && (#[trigger] visits[i]) is Unreadable,
    decreases visits.len(),
{
    reveal(Seq::filter);
    if visits.len() > 0 {
        let front = visits.drop_last();
        law_search_is_complete(filter, front);
        front.lemma_filter_len(|v: Visit| !(v is Unreadable));
        assert(visits[visits.len() - 1] == visits.last());
        assert forall|i: int| 0 <= i < front.len() implies front[i] == visits[i] by {}
        if exists|i: int| 0 <= i < front.len() && (#[trigger] front[i]) is Unreadable {
            let i = choose|i: int| 0 <= i < front.len() && (#[trigger] front[i]) is Unreadable;
            assert(visits[i] is Unreadable);
        }
    }
}

/// The totals show how much was checked, how many files were found, and the time,
/// in this order.
pub proof fn law_totals_read(t: FindTally, secs: u64, nanos: u32)
    ensures
        t.totals(secs, nanos) == count_text(t.checked as nat) + ("  checked  "@ + (count_text(
            t.found as nat,
        ) + ("  found  "@ + elapsed_text(secs as nat, nanos as nat)))),
{
    assert(t.totals(secs, nanos) =~= count_text(t.checked as nat) + ("  checked  "@ + (count_text(
        t.found as nat,
    ) + ("  found  "@ + elapsed_text(secs as nat, nanos as nat)))));
}

/// Each thing that is met counts once: a file that the filter accepts as checked
/// and found, anything else that can be read as checked, and what cannot be read
/// as an error.
pub proof fn law_each_visit_counts_once(t: FindTally, filter: Filter, path: &str)
    requires
        t.wf(),
        t.checked < u64::MAX,
    ensures
        ({
            let file = with_visit(t, filter, Visit::File(path));
            let other = with_visit(t, filter, Visit::Other);
            let bad = with_visit(t, filter, Visit::Unreadable);
            &&& file.checked == t.checked + 1
            &&& file.found == t.found + if accepts(filter, path@) {
                1int
            } else {
                0int
            }
            &&& file.had_errors == t.had_errors
            &&& other.checked == t.checked + 1
            &&& other.found == t.found
            &&& other.had_errors == t.had_errors
            &&& bad.checked == t.checked
            &&& bad.found == t.found
            &&& bad.had_errors
        }),
{
}

} // verus!
