use crate::policy::{MergeStatePolicy, PullRequestRef};
use crate::reconciled::{distinct_keys, keys_of, Entry, Reconciled};
use crate::resolver::{Resolution, Resolver};
use crate::scheduler::Scheduler;
use crate::selection::{
    branches_for, branches_of, branches_to_delete, lemma_all_keys_give_all_branches, names_of, select_all,
};
use vstd::prelude::*;

verus! {

/// What the operator asked of a cleanup run.
#[derive(Clone, Debug, PartialEq, Eq)]
pub struct Cleanup {
    /// Only delete branches whose pull request was merged.
    pub only_merged: bool,
    /// Only delete branches whose pull request was closed.
    pub only_closed: bool,
    /// Delete every cleanable branch without asking.
    pub all: bool,
    /// How many lookups may be in flight at once; at least one.
    pub concurrent_calls: usize,
    /// The access token, where one was given.
    pub token: Option<String>,
}

/// How far a run has come.
#[derive(Clone, Copy, Debug, PartialEq, Eq, Structural)]
pub enum Stage {
    /// The branches of the fork are being listed.
    Listing,
    /// The pull requests of the branches are being looked up.
    Resolving,
    /// The operator is choosing among the reconciled entries.
    Selecting,
    /// The batch deletion is under way.
    Deleting,
    /// The run ended well.
    Succeeded,
    /// The run ended with a failure.
    Failed,
}

/// What came back from outside since the last request.
#[derive(Clone, Debug, PartialEq, Eq)]
pub enum Event {
    /// The branches were listed.
    Listed,
    /// Every lookup is back and recorded.
    Resolved,
    /// The operator confirmed these keys.
    Confirmed(Vec<PullRequestRef>),
    /// The operator left the prompt without an answer.
    Cancelled,
    /// The branches were deleted.
    Deleted,
    /// The hosting service reported a failure.
    Failure,
}

/// What the run asks to be done outside next.
#[derive(Clone, Debug, PartialEq, Eq)]
pub enum Action {
    /// Look up the pull request of every branch.
    Resolve,
    /// Offer these keys to the operator, all checked.
    Prompt(Vec<PullRequestRef>),
    /// Delete the branches of these names, in one call.
    Delete(Vec<String>),
    /// Nothing more: the run is over.
    Stop,
}

/// An action as contracts see it.
pub enum Request {
    Resolve,
    Prompt(Seq<PullRequestRef>),
    Delete(Seq<Seq<char>>),
    Stop,
}

impl View for Action {
    type V = Request;

    open spec fn view(&self) -> Request {
        match self {
            Action::Resolve => Request::Resolve,
            Action::Prompt(keys) => Request::Prompt(keys@),
            Action::Delete(names) => Request::Delete(names_of(names@)),
            Action::Stop => Request::Stop,
        }
    }
}

impl Stage {
    /// A run in this stage has ended.
    pub open spec fn is_final(self) -> bool {
        self == Stage::Succeeded || self == Stage::Failed
    }

    pub fn is_over(&self) -> (result: bool)
        ensures
            result == self.is_final(),
    {
        matches!(self, Stage::Succeeded | Stage::Failed)
    }
}

/// The next stage and the next request of a run in `stage`, over the
/// reconciled `entries`, when `event` comes in.
///
/// An empty reconciled result ends the run well at once. In automatic mode
/// (`all`) every key is selected and the deletion follows without a prompt;
/// otherwise the operator is offered every key. A confirmed selection that is
/// empty ends the run well; any other leads to one deletion, of the branches
/// that the selected keys stand for. A cancelled prompt, a reported failure
/// and an event that the stage does not await end the run with a failure. A
/// run that has ended stays as it is.
pub open spec fn decide(all: bool, stage: Stage, entries: Seq<Entry>, event: Event) -> (Stage, Request) {
    match (stage, event) {
        (Stage::Listing, Event::Listed) => (Stage::Resolving, Request::Resolve),
        (Stage::Resolving, Event::Resolved) => if entries.len() == 0 {
            (Stage::Succeeded, Request::Stop)
        } else if all {
            (Stage::Deleting, Request::Delete(branches_for(entries, keys_of(entries))))
        } else {
            (Stage::Selecting, Request::Prompt(keys_of(entries)))
        },
        (Stage::Selecting, Event::Confirmed(selection)) => if selection@.len() == 0 {
            (Stage::Succeeded, Request::Stop)
        } else {
            (Stage::Deleting, Request::Delete(branches_for(entries, selection@)))
        },
        (Stage::Deleting, Event::Deleted) => (Stage::Succeeded, Request::Stop),
        (Stage::Succeeded, _) => (Stage::Succeeded, Request::Stop),
        _ => (Stage::Failed, Request::Stop),
    }
}

/// How many deletions a run in `stage` asks for while `events` come in.
pub open spec fn deletions(all: bool, stage: Stage, entries: Seq<Entry>, events: Seq<Event>) -> nat
    decreases events.len(),
{
    if events.len() == 0 {
        0
    } else {
        let step = decide(all, stage, entries, events[0]);
        let here: nat = if step.1 is Delete {
            1
        } else {
            0
        };
        here + deletions(all, step.0, entries, events.drop_first())
    }
}

/// How many prompts a run in `stage` asks for while `events` come in.
pub open spec fn prompts(all: bool, stage: Stage, entries: Seq<Entry>, events: Seq<Event>) -> nat
    decreases events.len(),
{
    if events.len() == 0 {
        0
    } else {
        let step = decide(all, stage, entries, events[0]);
        let here: nat = if step.1 is Prompt {
            1
        } else {
            0
        };
        here + prompts(all, step.0, entries, events.drop_first())
    }
}

impl Cleanup {
    /// The width is usable.
    pub open spec fn wf(&self) -> bool {
        self.concurrent_calls >= 1
    }

    /// The options of a run, where the width is usable; nothing for a width
    /// of zero.
    pub fn new(
        only_merged: bool,
        only_closed: bool,
        all: bool,
        concurrent_calls: usize,
        token: Option<String>,
    ) -> (result: Option<Cleanup>)
        ensures
            (concurrent_calls == 0) == result.is_none(),
            result matches Some(c) ==> c.wf() && c == (Cleanup {
                only_merged,
                only_closed,
                all,
                concurrent_calls,
                token,
            }),
    {
        if concurrent_calls == 0 {
            None
        } else {
            Some(Cleanup { only_merged, only_closed, all, concurrent_calls, token })
        }
    }

    /// The policy that the two narrowing flags stand for.
    pub fn policy(&self) -> (result: MergeStatePolicy)
        ensures
            result == MergeStatePolicy::of_flags(self.only_merged, self.only_closed),
    {
        MergeStatePolicy::from_flags(self.only_merged, self.only_closed)
    }

    /// The resolver for the lookups of the listed branches, as wide as the
    /// operator asked and filtering by the operator's policy.
    pub fn resolver(&self, branches: Vec<String>) -> (result: Resolver)
        requires
            self.wf(),
        ensures
            result.wf(),
            result.policy() == MergeStatePolicy::of_flags(self.only_merged, self.only_closed),
            result.branches() == branches@,
            result.schedule() == (Scheduler {
                total: branches.len(),
                width: self.concurrent_calls,
                started: 0,
                finished: 0,
            }),
            result.seen() == Seq::<Resolution>::empty(),
            result.order() == Seq::<int>::empty(),
            forall|i: int| !result.is_pending(i),
    {
        Resolver::new(self.policy(), branches, self.concurrent_calls)
    }

    /// Runs the cleanup from `stage` up to its next request to the outside:
    /// takes in `event` and answers with the stage the run is in now and what
    /// is to be done next.
    pub fn run(&self, stage: Stage, reconciled: &Reconciled, event: Event) -> (result: (Stage, Action))
        requires
            reconciled.wf(),
        ensures
            (result.0, result.1@) == decide(self.all, stage, reconciled@, event),
    {
        match (stage, event) {
            (Stage::Listing, Event::Listed) => (Stage::Resolving, Action::Resolve),
            (Stage::Resolving, Event::Resolved) => {
                if reconciled.is_empty() {
                    (Stage::Succeeded, Action::Stop)
                } else if self.all {
                    let selection = select_all(reconciled);
                    (Stage::Deleting, Action::Delete(branches_to_delete(reconciled, &selection)))
                } else {
                    (Stage::Selecting, Action::Prompt(reconciled.keys()))
                }
            },
            (Stage::Selecting, Event::Confirmed(selection)) => {
                if selection.len() == 0 {
                    (Stage::Succeeded, Action::Stop)
                } else {
                    (Stage::Deleting, Action::Delete(branches_to_delete(reconciled, &selection)))
                }
            },
            (Stage::Deleting, Event::Deleted) => (Stage::Succeeded, Action::Stop),
            (Stage::Succeeded, _) => (Stage::Succeeded, Action::Stop),
            _ => (Stage::Failed, Action::Stop),
        }
    }
}

/// A run that is deleting or has ended asks for no further deletion and no
/// prompt, whatever comes in.
pub proof fn lemma_nothing_after_deleting(all: bool, stage: Stage, entries: Seq<Entry>, events: Seq<Event>)
    requires
        stage == Stage::Deleting || stage.is_final(),
    ensures
        deletions(all, stage, entries, events) == 0,
        prompts(all, stage, entries, events) == 0,
    decreases events.len(),
{
    if events.len() > 0 {
        let step = decide(all, stage, entries, events[0]);
        lemma_nothing_after_deleting(all, step.0, entries, events.drop_first());
    }
}

/// A run asks for at most one deletion and at most one prompt, whatever comes
/// in and in whatever stage it starts.
pub proof fn lemma_at_most_one_deletion(all: bool, stage: Stage, entries: Seq<Entry>, events: Seq<Event>)
    ensures
        deletions(all, stage, entries, events) <= 1,
        prompts(all, stage, entries, events) <= 1,
        stage == Stage::Selecting ==> prompts(all, stage, entries, events) == 0,
    decreases events.len(),
{
    if events.len() > 0 {
        let step = decide(all, stage, entries, events[0]);
        if step.0 == Stage::Deleting || step.0.is_final() {
            lemma_nothing_after_deleting(all, step.0, entries, events.drop_first());
        } else {
            lemma_at_most_one_deletion(all, step.0, entries, events.drop_first());
        }
    }
}

/// With nothing reconciled, a run asks for no prompt and no deletion, whatever
/// comes in.
pub proof fn lemma_empty_result_asks_nothing(all: bool, stage: Stage, entries: Seq<Entry>, events: Seq<Event>)
    requires
        entries.len() == 0,
        stage != Stage::Selecting,
    ensures
        deletions(all, stage, entries, events) == 0,
        prompts(all, stage, entries, events) == 0,
    decreases events.len(),
{
    if events.len() > 0 {
        let step = decide(all, stage, entries, events[0]);
        lemma_empty_result_asks_nothing(all, step.0, entries, events.drop_first());
    }
}

/// In automatic mode a run never prompts, whatever comes in.
pub proof fn lemma_automatic_never_prompts(stage: Stage, entries: Seq<Entry>, events: Seq<Event>)
    requires
        stage != Stage::Selecting,
    ensures
        prompts(true, stage, entries, events) == 0,
    decreases events.len(),
{
    if events.len() > 0 {
        let step = decide(true, stage, entries, events[0]);
        lemma_automatic_never_prompts(step.0, entries, events.drop_first());
    }
}

/// In automatic mode the selection is the full set of keys: when the lookups
/// are back with something reconciled, the run deletes the branch of every
/// entry, none dropped and none added, and it does so exactly once.
pub proof fn lemma_automatic_selects_everything(entries: Seq<Entry>, events: Seq<Event>)
    requires
        distinct_keys(entries),
        entries.len() > 0,
        events.len() > 0,
        events[0] == Event::Resolved,
    ensures
        decide(true, Stage::Resolving, entries, events[0]) == (
            Stage::Deleting,
            Request::Delete(branches_for(entries, keys_of(entries))),
        ),
        branches_for(entries, keys_of(entries)) == branches_of(entries),
        deletions(true, Stage::Resolving, entries, events) == 1,
{
    lemma_all_keys_give_all_branches(entries);
    lemma_nothing_after_deleting(true, Stage::Deleting, entries, events.drop_first());
}

/// A confirmed selection that is not empty leads to exactly one deletion, of
/// exactly the branches that the confirmed keys stand for, whatever comes in
/// afterwards. An empty one leads to none.
pub proof fn lemma_confirmed_selection_deletes_once(
    all: bool,
    entries: Seq<Entry>,
    events: Seq<Event>,
    selection: Vec<PullRequestRef>,
)
    requires
        events.len() > 0,
        events[0] == Event::Confirmed(selection),
    ensures
        selection@.len() > 0 ==> deletions(all, Stage::Selecting, entries, events) == 1 && decide(
            all,
            Stage::Selecting,
            entries,
            events[0],
        ).1 == Request::Delete(branches_for(entries, selection@)),
        selection@.len() == 0 ==> deletions(all, Stage::Selecting, entries, events) == 0,
{
    let step = decide(all, Stage::Selecting, entries, events[0]);
    lemma_nothing_after_deleting(all, step.0, entries, events.drop_first());
}

} // verus!
