use vstd::prelude::*;

verus! {

/// The state of a pull request on the hosting service.
#[derive(Clone, Copy, Debug, PartialEq, Eq, Structural)]
pub enum PullRequestState {
    Open,
    Merged,
    Closed,
}

/// A pull request as the cleanup sees it: an identity given by the hosting
/// service, and the state the pull request is in.
#[derive(Clone, Copy, Debug, PartialEq, Eq, Structural)]
pub struct PullRequestRef {
    pub id: u64,
    pub state: PullRequestState,
}

/// Which pull-request states make a branch cleanable.
#[derive(Clone, Copy, Debug, PartialEq, Eq, Structural)]
pub enum MergeStatePolicy {
    MergedOnly,
    ClosedOnly,
    MergedOrClosed,
}

impl PullRequestState {
    /// Merged and closed are the two states a pull request does not leave.
    pub open spec fn is_terminal(self) -> bool {
        self == PullRequestState::Merged || self == PullRequestState::Closed
    }
}

impl MergeStatePolicy {
    /// The policy that two narrowing flags stand for. One flag alone narrows to
    /// its state; both together, or neither, accept either terminal state.
    pub open spec fn of_flags(only_merged: bool, only_closed: bool) -> MergeStatePolicy {
        if only_merged && !only_closed {
            MergeStatePolicy::MergedOnly
        } else if only_closed && !only_merged {
            MergeStatePolicy::ClosedOnly
        } else {
            MergeStatePolicy::MergedOrClosed
        }
    }

    /// Whether a pull request in `state` is cleanable under this policy.
    pub open spec fn admits(self, state: PullRequestState) -> bool {
        match self {
            MergeStatePolicy::MergedOnly => state == PullRequestState::Merged,
            MergeStatePolicy::ClosedOnly => state == PullRequestState::Closed,
            MergeStatePolicy::MergedOrClosed => state.is_terminal(),
        }
    }

    /// The words that name this policy to the operator.
    pub open spec fn label_text(self) -> Seq<char> {
        match self {
            MergeStatePolicy::MergedOnly => "merged"@,
            MergeStatePolicy::ClosedOnly => "closed"@,
            MergeStatePolicy::MergedOrClosed => "merged or closed"@,
        }
    }

    pub fn from_flags(only_merged: bool, only_closed: bool) -> (result: MergeStatePolicy)
        ensures
            result == MergeStatePolicy::of_flags(only_merged, only_closed),
    {
        match (only_merged, only_closed) {
            (true, false) => MergeStatePolicy::MergedOnly,
            (false, true) => MergeStatePolicy::ClosedOnly,
            _ => MergeStatePolicy::MergedOrClosed,
        }
    }

    pub fn accepts(&self, state: PullRequestState) -> (result: bool)
        ensures
            result == self.admits(state),
    {
        match self {
            MergeStatePolicy::MergedOnly => matches!(state, PullRequestState::Merged),
            MergeStatePolicy::ClosedOnly => matches!(state, PullRequestState::Closed),
            MergeStatePolicy::MergedOrClosed => matches!(
                state,
                PullRequestState::Merged | PullRequestState::Closed
            ),
        }
    }

    pub fn label(&self) -> (result: &'static str)
        ensures
            result@ == self.label_text(),
    {
        match self {
            MergeStatePolicy::MergedOnly => "merged",
            MergeStatePolicy::ClosedOnly => "closed",
            MergeStatePolicy::MergedOrClosed => "merged or closed",
        }
    }
}

/// No policy admits an open pull request, and every policy admits only
/// terminal states.
pub proof fn lemma_admitted_is_terminal(policy: MergeStatePolicy, state: PullRequestState)
    requires
        policy.admits(state),
    ensures
        state.is_terminal(),
        state != PullRequestState::Open,
{
}

/// Narrowing to merged shuts out closed, narrowing to closed shuts out merged,
/// and any other pair of flags lets both through.
pub proof fn lemma_flags_narrow(only_merged: bool, only_closed: bool)
    ensures
        only_merged && !only_closed ==> !MergeStatePolicy::of_flags(only_merged, only_closed).admits(
            PullRequestState::Closed,
        ),
        only_closed && !only_merged ==> !MergeStatePolicy::of_flags(only_merged, only_closed).admits(
            PullRequestState::Merged,
        ),
        only_merged == only_closed ==> MergeStatePolicy::of_flags(only_merged, only_closed).admits(
            PullRequestState::Merged,
        ) && MergeStatePolicy::of_flags(only_merged, only_closed).admits(PullRequestState::Closed),
{
}

} // verus!
