use fork_cleanup::policy::{MergeStatePolicy, PullRequestState};

#[test]
fn merged_only_flag_narrows_to_merged() {
    let policy = MergeStatePolicy::from_flags(true, false);
    assert_eq!(policy, MergeStatePolicy::MergedOnly);
    assert_eq!(policy.label(), "merged");
    assert!(policy.accepts(PullRequestState::Merged));
    assert!(!policy.accepts(PullRequestState::Closed));
    assert!(!policy.accepts(PullRequestState::Open));
}

#[test]
fn closed_only_flag_narrows_to_closed() {
    let policy = MergeStatePolicy::from_flags(false, true);
    assert_eq!(policy, MergeStatePolicy::ClosedOnly);
    assert_eq!(policy.label(), "closed");
    assert!(policy.accepts(PullRequestState::Closed));
    assert!(!policy.accepts(PullRequestState::Merged));
    assert!(!policy.accepts(PullRequestState::Open));
}

#[test]
fn no_flag_accepts_both_terminal_states() {
    let policy = MergeStatePolicy::from_flags(false, false);
    assert_eq!(policy, MergeStatePolicy::MergedOrClosed);
    assert_eq!(policy.label(), "merged or closed");
    assert!(policy.accepts(PullRequestState::Merged));
    assert!(policy.accepts(PullRequestState::Closed));
    assert!(!policy.accepts(PullRequestState::Open));
}

#[test]
fn both_flags_accept_both_terminal_states() {
    let policy = MergeStatePolicy::from_flags(true, true);
    assert_eq!(policy, MergeStatePolicy::MergedOrClosed);
    assert_eq!(policy.label(), "merged or closed");
    assert!(policy.accepts(PullRequestState::Merged));
    assert!(policy.accepts(PullRequestState::Closed));
    assert!(!policy.accepts(PullRequestState::Open));
}

#[test]
fn no_policy_accepts_an_open_pull_request() {
    for only_merged in [false, true] {
        for only_closed in [false, true] {
            let policy = MergeStatePolicy::from_flags(only_merged, only_closed);
            assert!(!policy.accepts(PullRequestState::Open));
        }
    }
}
