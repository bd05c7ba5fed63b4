//! Where a search reports how far it has come.

use vstd::prelude::*;

verus! {

/// What a [`ProgressHolder`] has been told: the total it was reset with, and
/// every count reported to it since, oldest first.
pub struct ProgressView {
    pub total: Option<u128>,
    pub reports: Seq<u128>,
}

/// The count that stands after `reports`: the last of them, or 0 before the first.
pub open spec fn latest(reports: Seq<u128>) -> u128 {
    if reports.len() == 0 {
        0
    } else {
        reports.last()
    }
}

/// The count that says "all done" for a total: the total itself, or, where
/// the total cannot be represented, the largest count there is.
pub open spec fn completion_mark(total: Option<u128>) -> u128 {
    match total {
        Some(count) => count,
        None => u128::MAX,
    }
}

/// How many reports were taken, as far as 128 bits count.
pub open spec fn report_count(reports: Seq<u128>) -> u128 {
    if reports.len() <= u128::MAX {
        reports.len() as u128
    } else {
        u128::MAX
    }
}

/// Progress of a search: how many candidates are done, out of how many.
pub struct ProgressHolder {
    total: Option<u128>,
    completed: u128,
    received: u128,
    reports: Ghost<Seq<u128>>,
}

impl View for ProgressHolder {
    type V = ProgressView;

    closed spec fn view(&self) -> ProgressView {
        ProgressView { total: self.total, reports: self.reports@ }
    }
}

impl ProgressHolder {
    #[verifier::type_invariant]
    spec fn well_formed(self) -> bool {
        &&& self.completed == latest(self.reports@)
        &&& self.received == report_count(self.reports@)
    }

    /// A holder with no total and nothing reported.
    pub fn new() -> (holder: ProgressHolder)
        ensures
            holder@.total is None,
            holder@.reports == Seq::<u128>::empty(),
    {
        ProgressHolder { total: None, completed: 0, received: 0, reports: Ghost(Seq::empty()) }
    }

    /// Forgets what was reported and takes the total of the search that begins.
    pub fn reset(&mut self, total: Option<u128>)
        ensures
            final(self)@.total == total,
            final(self)@.reports == Seq::<u128>::empty(),
    {
        *self = ProgressHolder { total, completed: 0, received: 0, reports: Ghost(Seq::empty()) };
    }

    /// Takes a report: `completed` candidates are done.
    pub fn feedback(&mut self, completed: u128)
        ensures
            final(self)@.total == old(self)@.total,
            final(self)@.reports == old(self)@.reports.push(completed),
    {
        proof {
            use_type_invariant(&*self);
        }
        let ghost reports = self.reports@.push(completed);
        let received: u128 = if self.received < u128::MAX {
            self.received + 1
        } else {
            u128::MAX
        };
        *self = ProgressHolder { total: self.total, completed, received, reports: Ghost(reports) };
    }

    /// The count last reported, or 0 if none was.
    pub fn completed(&self) -> (count: u128)
        ensures
            count == latest(self@.reports),
    {
        proof {
            use_type_invariant(self);
        }
        self.completed
    }

    /// How many reports were taken since the holder was last reset.
    pub fn reports_received(&self) -> (count: u128)
        ensures
            count == report_count(self@.reports),
    {
        proof {
            use_type_invariant(self);
        }
        self.received
    }

    /// The total that the holder was last reset with.
    pub fn total(&self) -> (total: Option<u128>)
        ensures
            total == self@.total,
    {
        self.total
    }

    /// Whether the count last reported says that the search is done.
    pub fn is_complete(&self) -> (done: bool)
        ensures
            done == (latest(self@.reports) == completion_mark(self@.total)),
    {
        proof {
            use_type_invariant(self);
        }
        let mark = match self.total {
            Some(count) => count,
            None => u128::MAX,
        };
        self.completed == mark
    }
}

} // verus!
