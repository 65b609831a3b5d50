use crate::ordered::{holds_key, map_get, map_insert, map_is_empty, map_keys, map_len, map_new, pairs};
use crate::policy::{PullRequestRef, PullRequestState};
use indexmap::IndexMap;
use std::collections::hash_map::RandomState;
use vstd::prelude::*;

verus! {

/// One reconciled entry as contracts see it: a pull request and the name of
/// the branch it came from.
pub type Entry = (PullRequestRef, Seq<char>);

/// The number under which a state is stored in a key.
pub open spec fn state_code(state: PullRequestState) -> u8 {
    match state {
        PullRequestState::Open => 0u8,
        PullRequestState::Merged => 1u8,
        PullRequestState::Closed => 2u8,
    }
}

/// The state that a stored number stands for.
pub open spec fn state_of_code(code: u8) -> PullRequestState {
    if code == 0 {
        PullRequestState::Open
    } else if code == 1 {
        PullRequestState::Merged
    } else {
        PullRequestState::Closed
    }
}

/// The stored form of a pull request: its identity and its state's number.
pub open spec fn stored_key(pr: PullRequestRef) -> (u64, u8) {
    (pr.id, state_code(pr.state))
}

/// The pull request that a stored key stands for.
pub open spec fn key_of_stored(key: (u64, u8)) -> PullRequestRef {
    PullRequestRef { id: key.0, state: state_of_code(key.1) }
}

/// Whether some entry of `s` is keyed by `key`.
pub open spec fn has_key(s: Seq<Entry>, key: PullRequestRef) -> bool {
    exists|i: int| 0 <= i < s.len() && (#[trigger] s[i]).0 == key
}

/// A place in `s` that is keyed by `key`, where there is one.
pub open spec fn slot(s: Seq<Entry>, key: PullRequestRef) -> int {
    choose|i: int| 0 <= i < s.len() && (#[trigger] s[i]).0 == key
}

/// No two entries of `s` share a key.
pub open spec fn distinct_keys(s: Seq<Entry>) -> bool {
    forall|i: int, j: int|
        0 <= i < s.len() && 0 <= j < s.len() && i != j ==> (#[trigger] s[i]).0 != (#[trigger] s[j]).0
}

/// Insert-or-overwrite: an entry already keyed by `key` keeps its place and
/// takes the new branch name; otherwise the new entry goes last.
pub open spec fn upsert(s: Seq<Entry>, key: PullRequestRef, branch: Seq<char>) -> Seq<Entry> {
    if has_key(s, key) {
        s.update(slot(s, key), (key, branch))
    } else {
        s.push((key, branch))
    }
}

/// The keys of `s`, in order.
pub open spec fn keys_of(s: Seq<Entry>) -> Seq<PullRequestRef> {
    Seq::new(s.len(), |i: int| s[i].0)
}

/// The branch name stored under `key`, where there is one.
pub open spec fn branch_of(s: Seq<Entry>, key: PullRequestRef) -> Option<Seq<char>> {
    if has_key(s, key) {
        Some(s[slot(s, key)].1)
    } else {
        None
    }
}

pub fn code_of_state(state: PullRequestState) -> (code: u8)
    ensures
        code == state_code(state),
        code <= 2,
        state_of_code(code) == state,
{
    match state {
        PullRequestState::Open => 0,
        PullRequestState::Merged => 1,
        PullRequestState::Closed => 2,
    }
}

pub fn state_from_code(code: u8) -> (state: PullRequestState)
    ensures
        state == state_of_code(code),
        code <= 2 ==> state_code(state) == code,
{
    if code == 0 {
        PullRequestState::Open
    } else if code == 1 {
        PullRequestState::Merged
    } else {
        PullRequestState::Closed
    }
}

/// The pull requests found cleanable, each with the branch it came from, in
/// the order in which they were first recorded.
pub struct Reconciled {
    map: IndexMap<(u64, u8), String, RandomState>,
}

impl Reconciled {
    /// The entries, in the order in which their keys were first recorded.
    pub closed spec fn view(&self) -> Seq<Entry> {
        Seq::new(pairs(self.map).len(), |i: int| (key_of_stored(pairs(self.map)[i].0), pairs(self.map)[i].1))
    }

    /// Every stored key stands for a pull request, and no key is held twice.
    pub closed spec fn wf(&self) -> bool {
        &&& forall|i: int| 0 <= i < pairs(self.map).len() ==> (#[trigger] pairs(self.map)[i]).0.1 <= 2
        &&& distinct_keys(self@)
    }

    proof fn lemma_key_held(&self, key: PullRequestRef)
        requires
            self.wf(),
        ensures
            holds_key(pairs(self.map), stored_key(key)) == has_key(self@, key),
            forall|i: int|
                0 <= i < self@.len() ==> ((#[trigger] self@[i]).0 == key <==> pairs(self.map)[i].0
                    == stored_key(key)),
    {
        let p = pairs(self.map);
        assert forall|i: int| 0 <= i < self@.len() implies ((#[trigger] self@[i]).0 == key <==> p[i].0
            == stored_key(key)) by {
            assert(p[i].0.1 <= 2);
        }
        if holds_key(p, stored_key(key)) {
            let i = choose|i: int| 0 <= i < p.len() && (#[trigger] p[i]).0 == stored_key(key);
            assert(self@[i].0 == key);
        }
        if has_key(self@, key) {
            let i = slot(self@, key);
            assert(p[i].0 == stored_key(key));
        }
    }

    /// In a well-formed collection no pull request is keyed twice.
    pub proof fn lemma_keys_distinct(&self)
        requires
            self.wf(),
        ensures
            distinct_keys(self@),
    {
    }

    pub fn new() -> (result: Reconciled)
        ensures
            result.wf(),
            result@ == Seq::<Entry>::empty(),
    {
        let result = Reconciled { map: map_new() };
        assert(result@ =~= Seq::<Entry>::empty());
        result
    }

    /// Records that `branch` belongs to `key`. A key already held keeps its
    /// place and takes the new branch name; a new key goes last.
    pub fn insert(&mut self, key: PullRequestRef, branch: String)
        requires
            old(self).wf(),
        ensures
            final(self).wf(),
            final(self)@ == upsert(old(self)@, key, branch@),
    {
        let code = code_of_state(key.state);
        proof {
            self.lemma_key_held(key);
        }
        let ghost before = pairs(self.map);
        let ghost seen = self@;
        map_insert(&mut self.map, (key.id, code), branch);
        proof {
            let after = pairs(self.map);
            if has_key(seen, key) {
                let i = slot(seen, key);
                assert(before[i].0 == stored_key(key));
                assert(after == before.update(i, (stored_key(key), branch@)));
                assert(self@ =~= seen.update(i, (key, branch@)));
            } else {
                assert(after == before.push((stored_key(key), branch@)));
                assert(self@ =~= seen.push((key, branch@)));
            }
            assert forall|i: int| 0 <= i < after.len() implies (#[trigger] after[i]).0.1 <= 2 by {
                if i < before.len() {
                    assert(before[i].0.1 <= 2);
                }
            }
            lemma_upsert_keeps_keys_distinct(seen, key, branch@);
        }
    }

    pub fn is_empty(&self) -> (result: bool)
        ensures
            result == (self@.len() == 0),
    {
        map_is_empty(&self.map)
    }

    pub fn len(&self) -> (result: usize)
        ensures
            result == self@.len(),
    {
        map_len(&self.map)
    }

    /// The keys, in the order in which they were first recorded.
    pub fn keys(&self) -> (result: Vec<PullRequestRef>)
        requires
            self.wf(),
        ensures
            result@ == keys_of(self@),
    {
        let stored = map_keys(&self.map);
        let mut result: Vec<PullRequestRef> = Vec::new();
        let mut i: usize = 0;
        while i < stored.len()
            invariant
                0 <= i <= stored.len(),
                stored@.len() == pairs(self.map).len(),
                forall|k: int| 0 <= k < stored@.len() ==> stored@[k] == (#[trigger] pairs(self.map)[k]).0,
                result@.len() == i,
                forall|k: int| 0 <= k < i ==> (#[trigger] result@[k]) == self@[k].0,
            decreases stored.len() - i,
        {
            let (id, code) = stored[i];
            assert(pairs(self.map)[i as int].0 == (id, code));
            result.push(PullRequestRef { id, state: state_from_code(code) });
            i = i + 1;
        }
        assert(result@ =~= keys_of(self@));
        result
    }

    /// The branch recorded under `key`, or nothing where `key` is not held.
    pub fn get(&self, key: PullRequestRef) -> (result: Option<String>)
        requires
            self.wf(),
        ensures
            result matches Some(branch) ==> branch_of(self@, key) == Some(branch@),
            result.is_none() ==> branch_of(self@, key).is_none(),
    {
        let code = code_of_state(key.state);
        proof {
            self.lemma_key_held(key);
        }
        let found = map_get(&self.map, (key.id, code));
        proof {
            if has_key(self@, key) {
                let i = slot(self@, key);
                assert(pairs(self.map)[i].0 == stored_key(key));
            }
        }
        found
    }
}

/// Insert-or-overwrite keeps keys distinct.
pub proof fn lemma_upsert_keeps_keys_distinct(s: Seq<Entry>, key: PullRequestRef, branch: Seq<char>)
    requires
        distinct_keys(s),
    ensures
        distinct_keys(upsert(s, key, branch)),
{
    let t = upsert(s, key, branch);
    if has_key(s, key) {
        let n = slot(s, key);
        assert forall|i: int, j: int| 0 <= i < t.len() && 0 <= j < t.len() && i != j implies (#[trigger] t[i]).0
            != (#[trigger] t[j]).0 by {
            assert(s[i].0 == t[i].0);
            assert(s[j].0 == t[j].0);
        }
    } else {
        assert forall|i: int, j: int| 0 <= i < t.len() && 0 <= j < t.len() && i != j implies (#[trigger] t[i]).0
            != (#[trigger] t[j]).0 by {
            if i < s.len() && j < s.len() {
                assert(s[i].0 == t[i].0);
                assert(s[j].0 == t[j].0);
            } else if i < s.len() {
                assert(s[i].0 != key);
            } else {
                assert(s[j].0 != key);
            }
        }
    }
}

} // verus!
