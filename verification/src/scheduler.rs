use vstd::prelude::*;

verus! {

/// Hands out the lookups of a run one branch at a time, so that no more than
/// `width` of them are in flight at once. Branches are numbered by their place
/// in the listing.
#[derive(Clone, Copy, Debug, PartialEq, Eq, Structural)]
pub struct Scheduler {
    /// How many branches there are to look up.
    pub total: usize,
    /// How many lookups may be in flight at once.
    pub width: usize,
    /// How many lookups have been handed out.
    pub started: usize,
    /// How many lookups have come back.
    pub finished: usize,
}

impl Scheduler {
    /// The number of lookups handed out and not yet back.
    pub open spec fn in_flight(&self) -> int {
        self.started - self.finished
    }

    /// The bound holds: at most `width` lookups are in flight, and no more
    /// were handed out than there are branches.
    pub open spec fn wf(&self) -> bool {
        &&& self.width >= 1
        &&& self.finished <= self.started <= self.total
        &&& self.in_flight() <= self.width
    }

    /// Whether another lookup may be handed out now.
    pub open spec fn may_start(&self) -> bool {
        self.started < self.total && self.in_flight() < self.width
    }

    /// Every branch was looked up and every lookup is back.
    pub open spec fn done(&self) -> bool {
        self.finished == self.total
    }

    pub fn new(total: usize, width: usize) -> (result: Scheduler)
        requires
            width >= 1,
        ensures
            result.wf(),
            result == (Scheduler { total, width, started: 0, finished: 0 }),
    {
        Scheduler { total, width, started: 0, finished: 0 }
    }

    /// Hands out the next branch to look up, if the bound leaves room and a
    /// branch is left. Branches go out in the order of the listing.
    pub fn start(&mut self) -> (result: Option<usize>)
        requires
            old(self).wf(),
        ensures
            final(self).wf(),
            old(self).may_start() ==> result == Some(old(self).started) && *final(self) == (Scheduler {
                started: (old(self).started + 1) as usize,
                ..*old(self)
            }),
            !old(self).may_start() ==> result.is_none() && *final(self) == *old(self),
    {
        if self.started < self.total && self.started - self.finished < self.width {
            let branch = self.started;
            self.started = self.started + 1;
            Some(branch)
        } else {
            None
        }
    }

    /// Takes note that one lookup came back. Answers whether any was in
    /// flight; where none was, nothing changes.
    pub fn finish(&mut self) -> (result: bool)
        requires
            old(self).wf(),
        ensures
            final(self).wf(),
            result == (old(self).in_flight() > 0),
            result ==> *final(self) == (Scheduler {
                finished: (old(self).finished + 1) as usize,
                ..*old(self)
            }),
            !result ==> *final(self) == *old(self),
    {
        if self.finished < self.started {
            self.finished = self.finished + 1;
            true
        } else {
            false
        }
    }

    pub fn outstanding(&self) -> (result: usize)
        requires
            self.wf(),
        ensures
            result == self.in_flight(),
            result <= self.width,
    {
        self.started - self.finished
    }

    pub fn is_done(&self) -> (result: bool)
        ensures
            result == self.done(),
    {
        self.finished == self.total
    }
}

/// While the work is not done, either another lookup may be handed out or one
/// is in flight whose return can be awaited: the run never stalls.
pub proof fn lemma_never_stalls(s: Scheduler)
    requires
        s.wf(),
        !s.done(),
    ensures
        s.may_start() || s.in_flight() > 0,
{
}

/// With nothing left to hand out and nothing in flight, the work is done.
pub proof fn lemma_idle_means_done(s: Scheduler)
    requires
        s.wf(),
        !s.may_start(),
        s.in_flight() == 0,
    ensures
        s.done(),
{
}

} // verus!
