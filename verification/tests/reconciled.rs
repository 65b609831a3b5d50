use fork_cleanup::policy::{MergeStatePolicy, PullRequestRef, PullRequestState};
use fork_cleanup::reconciled::{code_of_state, state_from_code, Reconciled};
use fork_cleanup::resolver::{accept, filter, reconcile, Lookup, Resolution};

fn pr(id: u64, state: PullRequestState) -> PullRequestRef {
    PullRequestRef { id, state }
}

fn resolution(branch: &str, lookup: Lookup) -> Resolution {
    Resolution { branch: branch.to_string(), lookup }
}

fn entries(reconciled: &Reconciled) -> Vec<(PullRequestRef, String)> {
    let mut out = Vec::new();
    for key in reconciled.keys() {
        out.push((key, reconciled.get(key).unwrap()));
    }
    out
}

fn sorted(mut v: Vec<(PullRequestRef, String)>) -> Vec<(u64, String)> {
    v.sort_by(|a, b| a.0.id.cmp(&b.0.id));
    v.into_iter().map(|(k, b)| (k.id, b)).collect()
}

#[test]
fn state_codes_round_trip() {
    assert_eq!(code_of_state(PullRequestState::Open), 0);
    assert_eq!(code_of_state(PullRequestState::Merged), 1);
    assert_eq!(code_of_state(PullRequestState::Closed), 2);
    for state in [PullRequestState::Open, PullRequestState::Merged, PullRequestState::Closed] {
        assert_eq!(state_from_code(code_of_state(state)), state);
    }
}

#[test]
fn new_collection_is_empty() {
    let reconciled = Reconciled::new();
    assert!(reconciled.is_empty());
    assert_eq!(reconciled.len(), 0);
    assert_eq!(reconciled.keys(), Vec::<PullRequestRef>::new());
    assert_eq!(reconciled.get(pr(1, PullRequestState::Merged)), None);
}

#[test]
fn insert_appends_new_keys_in_order() {
    let mut reconciled = Reconciled::new();
    reconciled.insert(pr(9, PullRequestState::Merged), "nine".to_string());
    reconciled.insert(pr(3, PullRequestState::Closed), "three".to_string());
    reconciled.insert(pr(5, PullRequestState::Merged), "five".to_string());
    assert!(!reconciled.is_empty());
    assert_eq!(reconciled.len(), 3);
    assert_eq!(
        reconciled.keys(),
        vec![
            pr(9, PullRequestState::Merged),
            pr(3, PullRequestState::Closed),
            pr(5, PullRequestState::Merged),
        ]
    );
    assert_eq!(reconciled.get(pr(3, PullRequestState::Closed)), Some("three".to_string()));
    assert_eq!(reconciled.get(pr(4, PullRequestState::Closed)), None);
}

#[test]
fn insert_overwrites_the_branch_of_a_held_key_in_place() {
    let mut reconciled = Reconciled::new();
    reconciled.insert(pr(1, PullRequestState::Merged), "first".to_string());
    reconciled.insert(pr(2, PullRequestState::Merged), "second".to_string());
    reconciled.insert(pr(1, PullRequestState::Merged), "again".to_string());
    assert_eq!(reconciled.len(), 2);
    assert_eq!(
        reconciled.keys(),
        vec![pr(1, PullRequestState::Merged), pr(2, PullRequestState::Merged)]
    );
    assert_eq!(reconciled.get(pr(1, PullRequestState::Merged)), Some("again".to_string()));
    assert_eq!(reconciled.get(pr(2, PullRequestState::Merged)), Some("second".to_string()));
}

#[test]
fn keys_differ_by_state_as_well_as_identity() {
    let mut reconciled = Reconciled::new();
    reconciled.insert(pr(1, PullRequestState::Merged), "m".to_string());
    reconciled.insert(pr(1, PullRequestState::Closed), "c".to_string());
    assert_eq!(reconciled.len(), 2);
    assert_eq!(reconciled.get(pr(1, PullRequestState::Merged)), Some("m".to_string()));
    assert_eq!(reconciled.get(pr(1, PullRequestState::Closed)), Some("c".to_string()));
    assert_eq!(reconciled.get(pr(1, PullRequestState::Open)), None);
}

#[test]
fn filter_drops_what_does_not_qualify() {
    let merged = pr(1, PullRequestState::Merged);
    let closed = pr(2, PullRequestState::Closed);
    let open = pr(3, PullRequestState::Open);
    assert_eq!(filter(MergeStatePolicy::MergedOnly, Lookup::Found(merged)), Some(merged));
    assert_eq!(filter(MergeStatePolicy::MergedOnly, Lookup::Found(closed)), None);
    assert_eq!(filter(MergeStatePolicy::ClosedOnly, Lookup::Found(closed)), Some(closed));
    assert_eq!(filter(MergeStatePolicy::ClosedOnly, Lookup::Found(merged)), None);
    assert_eq!(filter(MergeStatePolicy::MergedOrClosed, Lookup::Found(merged)), Some(merged));
    assert_eq!(filter(MergeStatePolicy::MergedOrClosed, Lookup::Found(closed)), Some(closed));
    assert_eq!(filter(MergeStatePolicy::MergedOrClosed, Lookup::Found(open)), None);
    assert_eq!(filter(MergeStatePolicy::MergedOrClosed, Lookup::Absent), None);
    assert_eq!(filter(MergeStatePolicy::MergedOrClosed, Lookup::Failed), None);
}

#[test]
fn accept_records_only_qualifying_lookups() {
    let mut reconciled = Reconciled::new();
    let policy = MergeStatePolicy::MergedOrClosed;
    accept(&mut reconciled, policy, &resolution("a", Lookup::Absent));
    accept(&mut reconciled, policy, &resolution("b", Lookup::Failed));
    accept(&mut reconciled, policy, &resolution("c", Lookup::Found(pr(1, PullRequestState::Open))));
    assert!(reconciled.is_empty());
    accept(&mut reconciled, policy, &resolution("d", Lookup::Found(pr(2, PullRequestState::Closed))));
    assert_eq!(entries(&reconciled), vec![(pr(2, PullRequestState::Closed), "d".to_string())]);
}

#[test]
fn branch_without_pull_request_never_appears() {
    let lookups = vec![
        resolution("lonely", Lookup::Absent),
        resolution("kept", Lookup::Found(pr(1, PullRequestState::Merged))),
        resolution("broken", Lookup::Failed),
    ];
    for policy in
        [MergeStatePolicy::MergedOnly, MergeStatePolicy::ClosedOnly, MergeStatePolicy::MergedOrClosed]
    {
        let reconciled = reconcile(policy, &lookups);
        for (_, branch) in entries(&reconciled) {
            assert_ne!(branch, "lonely");
            assert_ne!(branch, "broken");
        }
    }
}

#[test]
fn reconciled_states_satisfy_the_policy() {
    let lookups = vec![
        resolution("a", Lookup::Found(pr(1, PullRequestState::Merged))),
        resolution("b", Lookup::Found(pr(2, PullRequestState::Closed))),
        resolution("c", Lookup::Found(pr(3, PullRequestState::Open))),
        resolution("d", Lookup::Found(pr(4, PullRequestState::Merged))),
    ];
    let merged = reconcile(MergeStatePolicy::MergedOnly, &lookups);
    assert_eq!(
        entries(&merged),
        vec![
            (pr(1, PullRequestState::Merged), "a".to_string()),
            (pr(4, PullRequestState::Merged), "d".to_string()),
        ]
    );
    let closed = reconcile(MergeStatePolicy::ClosedOnly, &lookups);
    assert_eq!(entries(&closed), vec![(pr(2, PullRequestState::Closed), "b".to_string())]);
    let both = reconcile(MergeStatePolicy::MergedOrClosed, &lookups);
    assert_eq!(both.len(), 3);
    for key in both.keys() {
        assert!(MergeStatePolicy::MergedOrClosed.accepts(key.state));
    }
}

#[test]
fn order_of_completion_does_not_change_the_set() {
    let a = resolution("a", Lookup::Found(pr(1, PullRequestState::Merged)));
    let b = resolution("b", Lookup::Found(pr(2, PullRequestState::Closed)));
    let c = resolution("c", Lookup::Absent);
    let d = resolution("d", Lookup::Found(pr(4, PullRequestState::Merged)));
    let first = reconcile(
        MergeStatePolicy::MergedOrClosed,
        &vec![a.clone(), b.clone(), c.clone(), d.clone()],
    );
    let second = reconcile(MergeStatePolicy::MergedOrClosed, &vec![d, c, b, a]);
    assert_eq!(
        second.keys(),
        vec![
            pr(4, PullRequestState::Merged),
            pr(2, PullRequestState::Closed),
            pr(1, PullRequestState::Merged),
        ]
    );
    assert_eq!(sorted(entries(&first)), sorted(entries(&second)));
    assert_eq!(
        sorted(entries(&first)),
        vec![(1, "a".to_string()), (2, "b".to_string()), (4, "d".to_string())]
    );
}

#[test]
fn same_snapshot_twice_gives_the_same_result() {
    let lookups = vec![
        resolution("a", Lookup::Found(pr(1, PullRequestState::Merged))),
        resolution("b", Lookup::Found(pr(2, PullRequestState::Open))),
    ];
    let first = reconcile(MergeStatePolicy::MergedOrClosed, &lookups);
    let second = reconcile(MergeStatePolicy::MergedOrClosed, &lookups);
    assert_eq!(entries(&first), entries(&second));
}

#[test]
fn colliding_pull_request_keeps_place_and_takes_last_branch() {
    let shared = pr(1, PullRequestState::Merged);
    let lookups = vec![
        resolution("a", Lookup::Found(shared)),
        resolution("b", Lookup::Found(pr(2, PullRequestState::Merged))),
        resolution("c", Lookup::Found(shared)),
    ];
    let reconciled = reconcile(MergeStatePolicy::MergedOnly, &lookups);
    assert_eq!(
        entries(&reconciled),
        vec![(shared, "c".to_string()), (pr(2, PullRequestState::Merged), "b".to_string())]
    );
}

#[test]
fn reconcile_of_nothing_is_empty() {
    let reconciled = reconcile(MergeStatePolicy::MergedOrClosed, &Vec::new());
    assert!(reconciled.is_empty());
}
