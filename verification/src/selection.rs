use crate::policy::PullRequestRef;
use crate::reconciled::{branch_of, distinct_keys, has_key, keys_of, slot, Entry, Reconciled};
use vstd::prelude::*;

verus! {

/// The strings of `v` as contracts see them.
pub open spec fn names_of(v: Seq<String>) -> Seq<Seq<char>> {
    Seq::new(v.len(), |i: int| v[i]@)
}

/// The branch names of `entries`, in order.
pub open spec fn branches_of(entries: Seq<Entry>) -> Seq<Seq<char>> {
    Seq::new(entries.len(), |i: int| entries[i].1)
}

/// The branch names that the keys of `selection` stand for, in the order of
/// the selection. A key that `entries` does not hold contributes nothing.
pub open spec fn branches_for(entries: Seq<Entry>, selection: Seq<PullRequestRef>) -> Seq<Seq<char>>
    decreases selection.len(),
{
    if selection.len() == 0 {
        Seq::empty()
    } else {
        let rest = branches_for(entries, selection.drop_last());
        match branch_of(entries, selection.last()) {
            Some(branch) => rest.push(branch),
            None => rest,
        }
    }
}

/// The selection of automatic mode: every reconciled key, in order.
pub fn select_all(reconciled: &Reconciled) -> (result: Vec<PullRequestRef>)
    requires
        reconciled.wf(),
    ensures
        result@ == keys_of(reconciled@),
{
    reconciled.keys()
}

/// The names of the branches to delete for a confirmed selection.
pub fn branches_to_delete(reconciled: &Reconciled, selection: &Vec<PullRequestRef>) -> (result: Vec<String>)
    requires
        reconciled.wf(),
    ensures
        names_of(result@) == branches_for(reconciled@, selection@),
{
    let mut result: Vec<String> = Vec::new();
    let mut i: usize = 0;
    assert(names_of(result@) =~= branches_for(reconciled@, selection@.take(0)));
    while i < selection.len()
        invariant
            0 <= i <= selection.len(),
            reconciled.wf(),
            names_of(result@) == branches_for(reconciled@, selection@.take(i as int)),
        decreases selection.len() - i,
    {
        let ghost before = names_of(result@);
        proof {
            let next = selection@.take(i + 1);
            assert(next.drop_last() =~= selection@.take(i as int));
            assert(next.last() == selection@[i as int]);
        }
        match reconciled.get(selection[i]) {
            Some(branch) => {
                result.push(branch);
                assert(names_of(result@) =~= before.push(branch@));
            },
            None => {},
        }
        i = i + 1;
    }
    assert(selection@.take(i as int) =~= selection@);
    result
}

/// Among entries with distinct keys, each key stands for its own entry's
/// branch.
pub proof fn lemma_branch_of_own_key(entries: Seq<Entry>, i: int)
    requires
        distinct_keys(entries),
        0 <= i < entries.len(),
    ensures
        branch_of(entries, entries[i].0) == Some(entries[i].1),
{
    assert(has_key(entries, entries[i].0));
    assert(slot(entries, entries[i].0) == i);
}

proof fn lemma_first_keys_give_first_branches(entries: Seq<Entry>, n: int)
    requires
        distinct_keys(entries),
        0 <= n <= entries.len(),
    ensures
        branches_for(entries, keys_of(entries).take(n)) == branches_of(entries).take(n),
    decreases n,
{
    if n == 0 {
        assert(branches_of(entries).take(0) =~= Seq::<Seq<char>>::empty());
    } else {
        let sel = keys_of(entries).take(n);
        assert(sel.drop_last() =~= keys_of(entries).take(n - 1));
        assert(sel.last() == entries[n - 1].0);
        lemma_first_keys_give_first_branches(entries, n - 1);
        lemma_branch_of_own_key(entries, n - 1);
        assert(branches_of(entries).take(n) =~= branches_of(entries).take(n - 1).push(entries[n - 1].1));
    }
}

/// Selecting every key selects every branch: with all keys confirmed, the
/// names to delete are the branch names of all entries, none dropped and none
/// added.
pub proof fn lemma_all_keys_give_all_branches(entries: Seq<Entry>)
    requires
        distinct_keys(entries),
    ensures
        branches_for(entries, keys_of(entries)) == branches_of(entries),
        branches_for(entries, keys_of(entries)).len() == entries.len(),
{
    lemma_first_keys_give_first_branches(entries, entries.len() as int);
    assert(keys_of(entries).take(entries.len() as int) =~= keys_of(entries));
    assert(branches_of(entries).take(entries.len() as int) =~= branches_of(entries));
}

/// Every name to delete is the branch of a selected key that is held.
pub proof fn lemma_deleted_names_are_selected(entries: Seq<Entry>, selection: Seq<PullRequestRef>, k: int)
    requires
        0 <= k < branches_for(entries, selection).len(),
    ensures
        exists|i: int|
            0 <= i < selection.len() && branch_of(entries, #[trigger] selection[i]) == Some(
                branches_for(entries, selection)[k],
            ),
    decreases selection.len(),
{
    let init = selection.drop_last();
    let rest = branches_for(entries, init);
    if k < rest.len() {
        lemma_deleted_names_are_selected(entries, init, k);
        let i = choose|i: int|
            0 <= i < init.len() && branch_of(entries, #[trigger] init[i]) == Some(rest[k]);
        assert(selection[i] == init[i]);
    } else {
        assert(branch_of(entries, selection[selection.len() - 1]) == Some(branches_for(entries, selection)[k]));
    }
}

} // verus!
