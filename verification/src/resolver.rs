use crate::policy::{MergeStatePolicy, PullRequestRef};
use crate::reconciled::{distinct_keys, has_key, lemma_upsert_keeps_keys_distinct, slot, upsert, Entry, Reconciled};
use crate::scheduler::Scheduler;
use vstd::prelude::*;
use vstd::seq_lib::seq_to_set_is_finite;
use vstd::set_lib::{lemma_int_range, lemma_len_subset, set_int_range};

verus! {

/// What looking up the pull request of one branch came to.
#[derive(Clone, Copy, Debug, PartialEq, Eq, Structural)]
pub enum Lookup {
    /// The branch has this pull request.
    Found(PullRequestRef),
    /// The branch has no pull request.
    Absent,
    /// The lookup itself failed.
    Failed,
}

/// One finished lookup: the branch that was asked about, and the outcome.
#[derive(Clone, Debug, PartialEq, Eq)]
pub struct Resolution {
    pub branch: String,
    pub lookup: Lookup,
}

/// The pull request that a lookup contributes under `policy`: the one found,
/// where its state is admitted; nothing for an absent pull request, a failed
/// lookup, or a state that the policy leaves out.
pub open spec fn qualifying(policy: MergeStatePolicy, lookup: Lookup) -> Option<PullRequestRef> {
    match lookup {
        Lookup::Found(pr) => if policy.admits(pr.state) {
            Some(pr)
        } else {
            None
        },
        _ => None,
    }
}

/// The entries after one more finished lookup has been filtered and recorded.
pub open spec fn accumulate(s: Seq<Entry>, policy: MergeStatePolicy, r: Resolution) -> Seq<Entry> {
    match qualifying(policy, r.lookup) {
        Some(pr) => upsert(s, pr, r.branch@),
        None => s,
    }
}

/// The entries after the lookups of `rs` have been filtered and recorded one
/// by one, in the order in which they finished.
pub open spec fn reconcile_spec(policy: MergeStatePolicy, rs: Seq<Resolution>) -> Seq<Entry>
    decreases rs.len(),
{
    if rs.len() == 0 {
        Seq::empty()
    } else {
        accumulate(reconcile_spec(policy, rs.drop_last()), policy, rs.last())
    }
}

/// `r` is a lookup that found the pull request of `e` in an admitted state,
/// for the branch of `e`.
pub open spec fn source_of(policy: MergeStatePolicy, r: Resolution, e: Entry) -> bool {
    r.lookup == Lookup::Found(e.0) && policy.admits(e.0.state) && r.branch@ == e.1
}

/// Some lookup of `rs` is a source of `e`.
pub open spec fn sourced(policy: MergeStatePolicy, rs: Seq<Resolution>, e: Entry) -> bool {
    exists|i: int| 0 <= i < rs.len() && source_of(policy, #[trigger] rs[i], e)
}

/// No pull request qualifies for two different branch names.
pub open spec fn single_valued(policy: MergeStatePolicy, rs: Seq<Resolution>) -> bool {
    forall|i: int, j: int|
        0 <= i < rs.len() && 0 <= j < rs.len() && qualifying(policy, (#[trigger] rs[i]).lookup).is_some()
            && qualifying(policy, rs[i].lookup) == qualifying(policy, (#[trigger] rs[j]).lookup)
            ==> rs[i].branch@ == rs[j].branch@
}

/// The early filter: the pull request of a lookup that found one in a state
/// the policy admits.
pub fn filter(policy: MergeStatePolicy, lookup: Lookup) -> (result: Option<PullRequestRef>)
    ensures
        result == qualifying(policy, lookup),
{
    match lookup {
        Lookup::Found(pr) => if policy.accepts(pr.state) {
            Some(pr)
        } else {
            None
        },
        _ => None,
    }
}

/// Filters one finished lookup and records it if it qualifies.
pub fn accept(reconciled: &mut Reconciled, policy: MergeStatePolicy, resolution: &Resolution)
    requires
        old(reconciled).wf(),
    ensures
        final(reconciled).wf(),
        final(reconciled)@ == accumulate(old(reconciled)@, policy, *resolution),
{
    match filter(policy, resolution.lookup) {
        Some(pr) => {
            reconciled.insert(pr, resolution.branch.clone());
        },
        None => {},
    }
}

/// Filters and records every finished lookup, in the order given. Every entry
/// of the result comes from a lookup that found its pull request in a state
/// the policy admits, and no pull request is keyed twice.
pub fn reconcile(policy: MergeStatePolicy, resolutions: &Vec<Resolution>) -> (result: Reconciled)
    ensures
        result.wf(),
        result@ == reconcile_spec(policy, resolutions@),
        distinct_keys(result@),
        forall|k: int|
            0 <= k < result@.len() ==> policy.admits((#[trigger] result@[k]).0.state) && sourced(
                policy,
                resolutions@,
                result@[k],
            ),
{
    let mut result = Reconciled::new();
    let mut i: usize = 0;
    while i < resolutions.len()
        invariant
            0 <= i <= resolutions.len(),
            result.wf(),
            result@ == reconcile_spec(policy, resolutions@.take(i as int)),
        decreases resolutions.len() - i,
    {
        proof {
            let next = resolutions@.take(i + 1);
            assert(next.drop_last() =~= resolutions@.take(i as int));
            assert(next.last() == resolutions@[i as int]);
        }
        accept(&mut result, policy, &resolutions[i]);
        i = i + 1;
    }
    assert(resolutions@.take(i as int) =~= resolutions@);
    proof {
        result.lemma_keys_distinct();
        assert forall|k: int| 0 <= k < result@.len() implies policy.admits((#[trigger] result@[k]).0.state)
            && sourced(policy, resolutions@, result@[k]) by {
            lemma_entry_has_source(policy, resolutions@, k);
        }
    }
    result
}

/// A sequence of distinct numbers below `n` has at most `n` members.
proof fn lemma_distinct_below(s: Seq<int>, n: int)
    requires
        0 <= n,
        s.no_duplicates(),
        forall|k: int| 0 <= k < s.len() ==> 0 <= #[trigger] s[k] < n,
    ensures
        s.len() <= n,
{
    s.unique_seq_to_set();
    lemma_int_range(0, n);
    assert(s.to_set().subset_of(set_int_range(0, n))) by {
        assert forall|x: int| s.to_set().contains(x) implies set_int_range(0, n).contains(x) by {
            assert(s.contains(x));
            let k = choose|k: int| 0 <= k < s.len() && s[k] == x;
            assert(0 <= s[k] < n);
        }
    }
    lemma_len_subset(s.to_set(), set_int_range(0, n));
}

/// The resolver of one run: it hands out the lookups of the listed branches
/// under the bound on the number in flight, and filters and records each one
/// as it comes back. Branches are numbered by their place in the listing.
pub struct Resolver {
    policy: MergeStatePolicy,
    scheduler: Scheduler,
    branches: Vec<String>,
    pending: Vec<bool>,
    reconciled: Reconciled,
    seen: Ghost<Seq<Resolution>>,
    order: Ghost<Seq<int>>,
}

impl Resolver {
    /// The policy that the lookups are filtered by.
    pub closed spec fn policy(&self) -> MergeStatePolicy {
        self.policy
    }

    /// How many lookups went out and came back so far.
    pub closed spec fn schedule(&self) -> Scheduler {
        self.scheduler
    }

    /// The names of the listed branches.
    pub closed spec fn branches(&self) -> Seq<String> {
        self.branches@
    }

    /// Whether the lookup of branch `index` is in flight.
    pub closed spec fn is_pending(&self, index: int) -> bool {
        0 <= index < self.pending@.len() && self.pending@[index]
    }

    /// The lookups that came back so far, in the order in which they did.
    pub closed spec fn seen(&self) -> Seq<Resolution> {
        self.seen@
    }

    /// The branches whose lookups came back so far, in the order in which
    /// they did.
    pub closed spec fn order(&self) -> Seq<int> {
        self.order@
    }

    /// The entries reconciled so far.
    pub closed spec fn view(&self) -> Seq<Entry> {
        self.reconciled@
    }

    /// The bound on the lookups in flight holds, no branch came back twice,
    /// and the entries are what the lookups seen so far reconcile to.
    pub closed spec fn wf(&self) -> bool {
        &&& self.scheduler.wf()
        &&& self.reconciled.wf()
        &&& self.branches@.len() == self.scheduler.total
        &&& self.pending@.len() == self.scheduler.total
        &&& self.reconciled@ == reconcile_spec(self.policy, self.seen@)
        &&& self.seen@.len() == self.scheduler.finished
        &&& self.order@.len() == self.scheduler.finished
        &&& self.order@.no_duplicates()
        &&& forall|k: int|
            0 <= k < self.order@.len() ==> {
                &&& 0 <= #[trigger] self.order@[k] < self.scheduler.started
                &&& !self.pending@[self.order@[k]]
                &&& self.seen@[k].branch == self.branches@[self.order@[k]]
            }
        &&& forall|i: int|
            0 <= i < self.pending@.len() && #[trigger] self.pending@[i] ==> i < self.scheduler.started
        &&& forall|i: int|
            0 <= i < self.scheduler.started && !(#[trigger] self.pending@[i]) ==> self.order@.contains(i)
    }

    /// What well-formedness says: the bound holds; the entries are what the
    /// lookups seen reconcile to; each lookup seen belongs to a branch that
    /// was handed out and is no longer in flight, and no branch came back
    /// twice.
    pub proof fn lemma_wf(&self)
        requires
            self.wf(),
        ensures
            self.schedule().wf(),
            self.schedule().total == self.branches().len(),
            self@ == reconcile_spec(self.policy(), self.seen()),
            self.seen().len() == self.schedule().finished,
            self.order().len() == self.schedule().finished,
            self.order().no_duplicates(),
            forall|k: int|
                0 <= k < self.order().len() ==> 0 <= #[trigger] self.order()[k] < self.schedule().started
                    && !self.is_pending(self.order()[k]) && self.seen()[k].branch == self.branches()[self.order()[k]],
            forall|i: int| #[trigger] self.is_pending(i) ==> 0 <= i < self.schedule().started,
    {
    }

    /// While the lookup of some branch is in flight, fewer lookups are back
    /// than went out.
    pub proof fn lemma_pending_is_in_flight(&self, index: int)
        requires
            self.wf(),
            self.is_pending(index),
        ensures
            self.schedule().in_flight() > 0,
    {
        let grown = self.order@.push(index);
        assert forall|i: int, j: int| 0 <= i < grown.len() && 0 <= j < grown.len() && i != j implies grown[i]
            != grown[j] by {
            if i < self.order@.len() {
                assert(!self.pending@[self.order@[i]]);
            }
            if j < self.order@.len() {
                assert(!self.pending@[self.order@[j]]);
            }
        }
        assert forall|k: int| 0 <= k < grown.len() implies 0 <= #[trigger] grown[k] < self.scheduler.started by {
            if k < self.order@.len() {
                assert(0 <= self.order@[k] < self.scheduler.started);
            }
        }
        lemma_distinct_below(grown, self.scheduler.started as int);
    }

    /// While fewer lookups are back than went out, the lookup of some branch
    /// is in flight: there is always an answer to wait for.
    pub proof fn lemma_in_flight_is_pending(&self)
        requires
            self.wf(),
            self.schedule().in_flight() > 0,
        ensures
            exists|i: int| #[trigger] self.is_pending(i),
    {
        if forall|i: int| !#[trigger] self.is_pending(i) {
            let started = self.scheduler.started as int;
            let back = self.order@.to_set();
            self.order@.unique_seq_to_set();
            seq_to_set_is_finite(self.order@);
            lemma_int_range(0, started);
            assert(set_int_range(0, started).subset_of(back)) by {
                assert forall|i: int| set_int_range(0, started).contains(i) implies back.contains(i) by {
                    assert(!self.is_pending(i));
                    assert(self.order@.contains(i));
                }
            }
            lemma_len_subset(set_int_range(0, started), back);
        }
    }

    pub fn new(policy: MergeStatePolicy, branches: Vec<String>, width: usize) -> (result: Resolver)
        requires
            width >= 1,
        ensures
            result.wf(),
            result.policy() == policy,
            result.branches() == branches@,
            result.schedule() == (Scheduler { total: branches.len(), width, started: 0, finished: 0 }),
            result.seen() == Seq::<Resolution>::empty(),
            result.order() == Seq::<int>::empty(),
            forall|i: int| !result.is_pending(i),
    {
        let mut pending: Vec<bool> = Vec::new();
        while pending.len() < branches.len()
            invariant
                pending@.len() <= branches@.len(),
                forall|i: int| 0 <= i < pending@.len() ==> !pending@[i],
            decreases branches.len() - pending.len(),
        {
            pending.push(false);
        }
        Resolver {
            policy,
            scheduler: Scheduler::new(branches.len(), width),
            branches,
            pending,
            reconciled: Reconciled::new(),
            seen: Ghost(Seq::empty()),
            order: Ghost(Seq::empty()),
        }
    }

    /// The next branch to look up, by its place in the listing, where the
    /// bound leaves room and a branch is left. That branch is in flight from
    /// now on.
    pub fn dispatch(&mut self) -> (result: Option<usize>)
        requires
            old(self).wf(),
        ensures
            final(self).wf(),
            final(self).policy() == old(self).policy(),
            final(self).branches() == old(self).branches(),
            final(self).seen() == old(self).seen(),
            final(self).order() == old(self).order(),
            old(self).schedule().may_start() ==> result == Some(old(self).schedule().started),
            old(self).schedule().may_start() ==> final(self).schedule() == (Scheduler {
                started: (old(self).schedule().started + 1) as usize,
                ..old(self).schedule()
            }),
            old(self).schedule().may_start() ==> forall|j: int|
                #[trigger] final(self).is_pending(j) == (old(self).is_pending(j) || j == old(self).schedule().started),
            !old(self).schedule().may_start() ==> result.is_none(),
            !old(self).schedule().may_start() ==> final(self).schedule() == old(self).schedule(),
            !old(self).schedule().may_start() ==> forall|j: int|
                #[trigger] final(self).is_pending(j) == old(self).is_pending(j),
    {
        match self.scheduler.start() {
            Some(index) => {
                self.pending.set(index, true);
                proof {
                    assert forall|i: int|
                        0 <= i < self.scheduler.started && !(#[trigger] self.pending@[i]) implies self.order@.contains(i) by {
                        assert(!old(self).pending@[i]);
                    }
                }
                Some(index)
            },
            None => None,
        }
    }

    /// Takes in the lookup of branch `index` that came back: filters it and
    /// records it if it qualifies. Answers whether that lookup was in flight;
    /// where it was not, nothing changes.
    pub fn complete(&mut self, index: usize, lookup: Lookup) -> (result: bool)
        requires
            old(self).wf(),
        ensures
            final(self).wf(),
            final(self).policy() == old(self).policy(),
            final(self).branches() == old(self).branches(),
            result == old(self).is_pending(index as int),
            result ==> final(self).seen() == old(self).seen().push(
                (Resolution { branch: old(self).branches()[index as int], lookup }),
            ),
            result ==> final(self).order() == old(self).order().push(index as int),
            result ==> final(self).schedule() == (Scheduler {
                finished: (old(self).schedule().finished + 1) as usize,
                ..old(self).schedule()
            }),
            result ==> forall|j: int|
                #[trigger] final(self).is_pending(j) == (old(self).is_pending(j) && j != index),
            !result ==> final(self).seen() == old(self).seen(),
            !result ==> final(self).order() == old(self).order(),
            !result ==> final(self).schedule() == old(self).schedule(),
            !result ==> forall|j: int| #[trigger] final(self).is_pending(j) == old(self).is_pending(j),
    {
        if index < self.pending.len() && self.pending[index] {
            proof {
                self.lemma_pending_is_in_flight(index as int);
            }
            let was_in_flight = self.scheduler.finish();
            assert(was_in_flight);
            self.pending.set(index, false);
            let resolution = Resolution { branch: self.branches[index].clone(), lookup };
            accept(&mut self.reconciled, self.policy, &resolution);
            proof {
                let grown = self.seen@.push(resolution);
                assert(grown.drop_last() =~= self.seen@);
                assert(grown.last() == resolution);
                self.seen@ = grown;
                self.order@ = self.order@.push(index as int);
                assert forall|i: int|
                    0 <= i < self.scheduler.started && !(#[trigger] self.pending@[i]) implies self.order@.contains(i) by {
                    if i == index {
                        assert(self.order@[self.order@.len() - 1] == i);
                    } else {
                        assert(!old(self).pending@[i]);
                        assert(old(self).order@.contains(i));
                        let k = choose|k: int| 0 <= k < old(self).order@.len() && old(self).order@[k] == i;
                        assert(self.order@[k] == i);
                    }
                }
                assert forall|k: int| 0 <= k < self.order@.len() implies {
                    &&& 0 <= #[trigger] self.order@[k] < self.scheduler.started
                    &&& !self.pending@[self.order@[k]]
                    &&& self.seen@[k].branch == self.branches@[self.order@[k]]
                } by {
                    if k < old(self).order@.len() {
                        assert(self.order@[k] == old(self).order@[k]);
                        assert(!old(self).pending@[old(self).order@[k]]);
                    }
                }
            }
            true
        } else {
            false
        }
    }

    /// How many lookups are in flight; never more than the width.
    pub fn outstanding(&self) -> (result: usize)
        requires
            self.wf(),
        ensures
            result == self.schedule().in_flight(),
            result <= self.schedule().width,
    {
        self.scheduler.outstanding()
    }

    pub fn is_done(&self) -> (result: bool)
        ensures
            result == self.schedule().done(),
    {
        self.scheduler.is_done()
    }

    /// The reconciled entries, once every branch was looked up and every
    /// lookup is back; nothing before that. By then every listed branch came
    /// back exactly once.
    pub fn finish(self) -> (result: Option<Reconciled>)
        requires
            self.wf(),
        ensures
            self.schedule().done() == result.is_some(),
            result matches Some(r) ==> r.wf() && r@ == reconcile_spec(self.policy(), self.seen()),
            result.is_some() ==> self.seen().len() == self.branches().len(),
            result.is_some() ==> self.order().no_duplicates(),
            result.is_some() ==> forall|i: int| 0 <= i < self.branches().len() ==> self.order().contains(i),
    {
        if self.scheduler.is_done() {
            proof {
                assert forall|i: int| 0 <= i < self.branches@.len() implies self.order@.contains(i) by {
                    if self.pending@[i] {
                        self.lemma_pending_is_in_flight(i);
                    }
                }
            }
            Some(self.reconciled)
        } else {
            None
        }
    }
}

/// Once every lookup is back, each listed branch has come back, and where its
/// lookup qualifies its pull request is among the reconciled keys.
pub proof fn lemma_done_covers_every_branch(resolver: Resolver, i: int)
    requires
        resolver.wf(),
        resolver.schedule().done(),
        0 <= i < resolver.branches().len(),
    ensures
        exists|k: int|
            0 <= k < resolver.seen().len() && #[trigger] resolver.order()[k] == i && resolver.seen()[k].branch
                == resolver.branches()[i] && (qualifying(resolver.policy(), resolver.seen()[k].lookup).is_some()
                ==> has_key(resolver@, qualifying(resolver.policy(), resolver.seen()[k].lookup).unwrap())),
{
    resolver.lemma_wf();
    let order = resolver.order();
    if resolver.is_pending(i) {
        resolver.lemma_pending_is_in_flight(i);
    }
    assert(order.contains(i));
    let k = choose|k: int| 0 <= k < order.len() && order[k] == i;
    if qualifying(resolver.policy(), resolver.seen()[k].lookup).is_some() {
        lemma_qualifying_is_keyed(resolver.policy(), resolver.seen(), k);
    }
}

proof fn lemma_seen_covered(first: Resolver, second: Resolver)
    requires
        first.wf(),
        second.wf(),
        second.schedule().done(),
        first.branches() == second.branches(),
        forall|a: int, b: int|
            0 <= a < first.seen().len() && 0 <= b < second.seen().len() && #[trigger] first.order()[a]
                == #[trigger] second.order()[b] ==> first.seen()[a].lookup == second.seen()[b].lookup,
    ensures
        forall|r: Resolution| first.seen().contains(r) ==> #[trigger] second.seen().contains(r),
{
    first.lemma_wf();
    second.lemma_wf();
    assert forall|r: Resolution| first.seen().contains(r) implies #[trigger] second.seen().contains(r) by {
        let a = choose|a: int| 0 <= a < first.seen().len() && first.seen()[a] == r;
        let i = first.order()[a];
        lemma_done_covers_every_branch(second, i);
        let b = choose|b: int|
            0 <= b < second.seen().len() && #[trigger] second.order()[b] == i && second.seen()[b].branch
                == second.branches()[i];
        assert(second.seen()[b] == r);
    }
}

/// Two runs over the same branches, in which each branch has the same lookup,
/// reconcile to the same set of entries however the lookups were ordered in
/// coming back, provided that no pull request qualifies for two different
/// branch names.
pub proof fn lemma_two_runs_agree(first: Resolver, second: Resolver)
    requires
        first.wf(),
        second.wf(),
        first.schedule().done(),
        second.schedule().done(),
        first.policy() == second.policy(),
        first.branches() == second.branches(),
        forall|a: int, b: int|
            0 <= a < first.seen().len() && 0 <= b < second.seen().len() && #[trigger] first.order()[a]
                == #[trigger] second.order()[b] ==> first.seen()[a].lookup == second.seen()[b].lookup,
        single_valued(first.policy(), first.seen()),
    ensures
        first@.to_set() == second@.to_set(),
{
    first.lemma_wf();
    second.lemma_wf();
    lemma_seen_covered(first, second);
    lemma_seen_covered(second, first);
    assert(first.seen().to_set() =~= second.seen().to_set());
    lemma_order_does_not_matter(first.policy(), first.seen(), second.seen());
}

proof fn lemma_sourced_grows(policy: MergeStatePolicy, rs: Seq<Resolution>, e: Entry)
    requires
        rs.len() > 0,
        sourced(policy, rs.drop_last(), e),
    ensures
        sourced(policy, rs, e),
{
    let init = rs.drop_last();
    let i = choose|i: int| 0 <= i < init.len() && source_of(policy, #[trigger] init[i], e);
    assert(rs[i] == init[i]);
}

/// Every reconciled entry comes from a lookup that found its pull request, in
/// a state the policy admits, for the branch the entry names.
pub proof fn lemma_entry_has_source(policy: MergeStatePolicy, rs: Seq<Resolution>, k: int)
    requires
        0 <= k < reconcile_spec(policy, rs).len(),
    ensures
        sourced(policy, rs, reconcile_spec(policy, rs)[k]),
    decreases rs.len(),
{
    if rs.len() > 0 {
        let init = rs.drop_last();
        let last = rs.last();
        let prev = reconcile_spec(policy, init);
        let cur = reconcile_spec(policy, rs);
        match qualifying(policy, last.lookup) {
            None => {
                lemma_entry_has_source(policy, init, k);
                lemma_sourced_grows(policy, rs, cur[k]);
            },
            Some(pr) => {
                if cur[k] == (pr, last.branch@) {
                    assert(source_of(policy, rs[rs.len() - 1], cur[k]));
                } else {
                    assert(k < prev.len() && prev[k] == cur[k]);
                    lemma_entry_has_source(policy, init, k);
                    lemma_sourced_grows(policy, rs, cur[k]);
                }
            },
        }
    }
}

/// The reconciled entries never key one pull request twice.
pub proof fn lemma_reconciled_keys_distinct(policy: MergeStatePolicy, rs: Seq<Resolution>)
    ensures
        distinct_keys(reconcile_spec(policy, rs)),
    decreases rs.len(),
{
    if rs.len() > 0 {
        lemma_reconciled_keys_distinct(policy, rs.drop_last());
        match qualifying(policy, rs.last().lookup) {
            None => {},
            Some(pr) => {
                lemma_upsert_keeps_keys_distinct(reconcile_spec(policy, rs.drop_last()), pr, rs.last().branch@);
            },
        }
    }
}

/// A branch for which no lookup found a pull request is named by no
/// reconciled entry.
pub proof fn lemma_branch_without_pull_request_absent(
    policy: MergeStatePolicy,
    rs: Seq<Resolution>,
    branch: Seq<char>,
)
    requires
        forall|i: int| 0 <= i < rs.len() && (#[trigger] rs[i]).branch@ == branch ==> !(rs[i].lookup is Found),
    ensures
        forall|k: int|
            0 <= k < reconcile_spec(policy, rs).len() ==> (#[trigger] reconcile_spec(policy, rs)[k]).1 != branch,
{
    assert forall|k: int| 0 <= k < reconcile_spec(policy, rs).len() implies (#[trigger] reconcile_spec(
        policy,
        rs,
    )[k]).1 != branch by {
        lemma_entry_has_source(policy, rs, k);
    }
}

/// The state of every reconciled pull request satisfies the policy.
pub proof fn lemma_reconciled_states_admitted(policy: MergeStatePolicy, rs: Seq<Resolution>)
    ensures
        forall|k: int|
            0 <= k < reconcile_spec(policy, rs).len() ==> policy.admits(
                (#[trigger] reconcile_spec(policy, rs)[k]).0.state,
            ),
{
    assert forall|k: int| 0 <= k < reconcile_spec(policy, rs).len() implies policy.admits(
        (#[trigger] reconcile_spec(policy, rs)[k]).0.state,
    ) by {
        lemma_entry_has_source(policy, rs, k);
    }
}

/// Every lookup that qualifies has its pull request among the reconciled keys.
pub proof fn lemma_qualifying_is_keyed(policy: MergeStatePolicy, rs: Seq<Resolution>, i: int)
    requires
        0 <= i < rs.len(),
        qualifying(policy, rs[i].lookup).is_some(),
    ensures
        has_key(reconcile_spec(policy, rs), qualifying(policy, rs[i].lookup).unwrap()),
    decreases rs.len(),
{
    let init = rs.drop_last();
    let last = rs.last();
    let prev = reconcile_spec(policy, init);
    let cur = reconcile_spec(policy, rs);
    let key = qualifying(policy, rs[i].lookup).unwrap();
    if i == rs.len() - 1 {
        if has_key(prev, key) {
            assert(cur[slot(prev, key)].0 == key);
        } else {
            assert(cur[prev.len() as int].0 == key);
        }
    } else {
        assert(init[i] == rs[i]);
        lemma_qualifying_is_keyed(policy, init, i);
        let m = slot(prev, key);
        match qualifying(policy, last.lookup) {
            None => {},
            Some(pr) => {
                assert(cur[m].0 == key);
            },
        }
    }
}

/// Where no pull request qualifies for two different branch names, every
/// qualifying lookup has its own entry among the reconciled ones.
pub proof fn lemma_source_has_entry(policy: MergeStatePolicy, rs: Seq<Resolution>, i: int)
    requires
        single_valued(policy, rs),
        0 <= i < rs.len(),
        qualifying(policy, rs[i].lookup).is_some(),
    ensures
        reconcile_spec(policy, rs).contains((qualifying(policy, rs[i].lookup).unwrap(), rs[i].branch@)),
    decreases rs.len(),
{
    let init = rs.drop_last();
    let last = rs.last();
    let prev = reconcile_spec(policy, init);
    let cur = reconcile_spec(policy, rs);
    let e = (qualifying(policy, rs[i].lookup).unwrap(), rs[i].branch@);
    if i == rs.len() - 1 {
        if has_key(prev, e.0) {
            assert(cur[slot(prev, e.0)] == e);
        } else {
            assert(cur[prev.len() as int] == e);
        }
    } else {
        assert(init[i] == rs[i]);
        assert(single_valued(policy, init)) by {
            assert forall|a: int, b: int|
                0 <= a < init.len() && 0 <= b < init.len() && qualifying(
                    policy,
                    (#[trigger] init[a]).lookup,
                ).is_some() && qualifying(policy, init[a].lookup) == qualifying(
                    policy,
                    (#[trigger] init[b]).lookup,
                ) implies init[a].branch@ == init[b].branch@ by {
                assert(init[a] == rs[a]);
                assert(init[b] == rs[b]);
            }
        }
        lemma_source_has_entry(policy, init, i);
        let m = choose|m: int| 0 <= m < prev.len() && prev[m] == e;
        match qualifying(policy, last.lookup) {
            None => {
                assert(cur[m] == e);
            },
            Some(pr) => {
                if has_key(prev, pr) && slot(prev, pr) == m {
                    assert(rs[i].branch@ == rs[rs.len() - 1].branch@);
                }
                assert(cur[m] == e);
            },
        }
    }
}

/// Two runs over the same lookups, finished in whatever order, reconcile to
/// the same set of entries, provided that no pull request qualifies for two
/// different branch names.
pub proof fn lemma_order_does_not_matter(policy: MergeStatePolicy, a: Seq<Resolution>, b: Seq<Resolution>)
    requires
        single_valued(policy, a),
        a.to_set() == b.to_set(),
    ensures
        reconcile_spec(policy, a).to_set() == reconcile_spec(policy, b).to_set(),
{
    assert(single_valued(policy, b)) by {
        assert forall|i: int, j: int|
            0 <= i < b.len() && 0 <= j < b.len() && qualifying(policy, (#[trigger] b[i]).lookup).is_some()
                && qualifying(policy, b[i].lookup) == qualifying(
                policy,
                (#[trigger] b[j]).lookup,
            ) implies b[i].branch@ == b[j].branch@ by {
            assert(b.to_set().contains(b[i]));
            assert(b.to_set().contains(b[j]));
            assert(a.contains(b[i]));
            assert(a.contains(b[j]));
            let x = choose|x: int| 0 <= x < a.len() && a[x] == b[i];
            let y = choose|y: int| 0 <= y < a.len() && a[y] == b[j];
            assert(a[x].branch@ == a[y].branch@);
        }
    }
    lemma_same_lookups_cover(policy, a, b);
    lemma_same_lookups_cover(policy, b, a);
    assert(reconcile_spec(policy, a).to_set() =~= reconcile_spec(policy, b).to_set());
}

proof fn lemma_same_lookups_cover(policy: MergeStatePolicy, a: Seq<Resolution>, b: Seq<Resolution>)
    requires
        single_valued(policy, b),
        a.to_set() == b.to_set(),
    ensures
        forall|e: Entry| reconcile_spec(policy, a).contains(e) ==> #[trigger] reconcile_spec(policy, b).contains(e),
{
    let ra = reconcile_spec(policy, a);
    assert forall|e: Entry| ra.contains(e) implies #[trigger] reconcile_spec(policy, b).contains(e) by {
        let k = choose|k: int| 0 <= k < ra.len() && ra[k] == e;
        lemma_entry_has_source(policy, a, k);
        let i = choose|i: int| 0 <= i < a.len() && source_of(policy, #[trigger] a[i], e);
        assert(a.to_set().contains(a[i]));
        assert(b.contains(a[i]));
        let j = choose|j: int| 0 <= j < b.len() && b[j] == a[i];
        lemma_source_has_entry(policy, b, j);
    }
}

} // verus!
