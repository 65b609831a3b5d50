use fork_cleanup::cleanup::{Action, Cleanup, Event, Stage};
use fork_cleanup::policy::{MergeStatePolicy, PullRequestRef, PullRequestState};
use fork_cleanup::reconciled::Reconciled;
use fork_cleanup::resolver::{reconcile, Lookup, Resolution};
use fork_cleanup::selection::{branches_to_delete, select_all};

fn options(only_merged: bool, only_closed: bool, all: bool) -> Cleanup {
    Cleanup::new(only_merged, only_closed, all, 4, None).unwrap()
}

fn merged(id: u64) -> PullRequestRef {
    PullRequestRef { id, state: PullRequestState::Merged }
}

fn three_merged() -> Reconciled {
    let mut reconciled = Reconciled::new();
    reconciled.insert(merged(1), "one".to_string());
    reconciled.insert(merged(2), "two".to_string());
    reconciled.insert(merged(3), "three".to_string());
    reconciled
}

#[test]
fn options_need_a_width_of_at_least_one() {
    assert_eq!(Cleanup::new(false, false, false, 0, None), None);
    let made = Cleanup::new(true, false, true, 3, Some("SECRET-REDACTED".to_string())).unwrap();
    assert!(made.only_merged);
    assert!(!made.only_closed);
    assert!(made.all);
    assert_eq!(made.concurrent_calls, 3);
    assert_eq!(made.token, Some("SECRET-REDACTED".to_string()));
    assert_eq!(made.policy(), MergeStatePolicy::MergedOnly);
}

#[test]
fn options_make_a_resolver_of_their_width() {
    let branches = ["a", "b", "c", "d", "e", "f"].iter().map(|b| b.to_string()).collect();
    let mut resolver = options(false, true, false).resolver(branches);
    let mut handed_out = 0;
    while resolver.dispatch().is_some() {
        handed_out += 1;
    }
    assert_eq!(handed_out, 4);
    assert_eq!(resolver.outstanding(), 4);
    // The resolver filters by the policy of the options: closed only.
    assert!(resolver.complete(0, Lookup::Found(merged(1))));
    assert!(resolver.complete(1, Lookup::Found(PullRequestRef { id: 2, state: PullRequestState::Closed })));
    while let Some(index) = resolver.dispatch() {
        assert!(resolver.complete(index, Lookup::Absent));
    }
    assert!(resolver.complete(2, Lookup::Absent));
    assert!(resolver.complete(3, Lookup::Absent));
    let reconciled = resolver.finish().unwrap();
    assert_eq!(reconciled.keys(), vec![PullRequestRef { id: 2, state: PullRequestState::Closed }]);
    assert_eq!(
        reconciled.get(PullRequestRef { id: 2, state: PullRequestState::Closed }),
        Some("b".to_string())
    );
}

#[test]
fn merged_only_automatic_run_deletes_the_merged_branch() {
    let cleanup = options(true, false, true);
    let (stage, action) = cleanup.run(Stage::Listing, &Reconciled::new(), Event::Listed);
    assert_eq!(stage, Stage::Resolving);
    assert_eq!(action, Action::Resolve);

    let feat_a = PullRequestRef { id: 1, state: PullRequestState::Merged };
    let feat_b = PullRequestRef { id: 2, state: PullRequestState::Open };
    let lookups = vec![
        Resolution { branch: "feat-a".to_string(), lookup: Lookup::Found(feat_a) },
        Resolution { branch: "feat-b".to_string(), lookup: Lookup::Found(feat_b) },
        Resolution { branch: "feat-c".to_string(), lookup: Lookup::Absent },
    ];
    let reconciled = reconcile(cleanup.policy(), &lookups);
    assert_eq!(reconciled.keys(), vec![feat_a]);
    assert_eq!(reconciled.get(feat_a), Some("feat-a".to_string()));
    assert_eq!(reconciled.len(), 1);

    let (stage, action) = cleanup.run(stage, &reconciled, Event::Resolved);
    assert_eq!(stage, Stage::Deleting);
    assert_eq!(action, Action::Delete(vec!["feat-a".to_string()]));

    let (stage, action) = cleanup.run(stage, &reconciled, Event::Deleted);
    assert_eq!(stage, Stage::Succeeded);
    assert_eq!(action, Action::Stop);
    assert!(stage.is_over());
}

#[test]
fn empty_result_ends_the_run_without_prompt_or_deletion() {
    for all in [false, true] {
        let cleanup = options(false, false, all);
        let (stage, action) = cleanup.run(Stage::Resolving, &Reconciled::new(), Event::Resolved);
        assert_eq!(stage, Stage::Succeeded);
        assert_eq!(action, Action::Stop);
        let (stage, action) = cleanup.run(stage, &Reconciled::new(), Event::Deleted);
        assert_eq!(stage, Stage::Succeeded);
        assert_eq!(action, Action::Stop);
    }
}

#[test]
fn automatic_mode_selects_every_key() {
    let reconciled = three_merged();
    assert_eq!(select_all(&reconciled), vec![merged(1), merged(2), merged(3)]);
    let (stage, action) = options(false, false, true).run(Stage::Resolving, &reconciled, Event::Resolved);
    assert_eq!(stage, Stage::Deleting);
    assert_eq!(
        action,
        Action::Delete(vec!["one".to_string(), "two".to_string(), "three".to_string()])
    );
}

#[test]
fn interactive_mode_offers_every_key() {
    let reconciled = three_merged();
    let (stage, action) = options(false, false, false).run(Stage::Resolving, &reconciled, Event::Resolved);
    assert_eq!(stage, Stage::Selecting);
    assert_eq!(action, Action::Prompt(vec![merged(1), merged(2), merged(3)]));
}

#[test]
fn confirmed_subset_is_deleted_in_one_call() {
    let reconciled = three_merged();
    let cleanup = options(false, false, false);
    let (stage, action) =
        cleanup.run(Stage::Selecting, &reconciled, Event::Confirmed(vec![merged(3), merged(1)]));
    assert_eq!(stage, Stage::Deleting);
    assert_eq!(action, Action::Delete(vec!["three".to_string(), "one".to_string()]));
    // Nothing that follows asks for another deletion.
    let (stage, action) = cleanup.run(stage, &reconciled, Event::Confirmed(vec![merged(2)]));
    assert_eq!(stage, Stage::Failed);
    assert_eq!(action, Action::Stop);
}

#[test]
fn empty_confirmation_deletes_nothing() {
    let reconciled = three_merged();
    let (stage, action) =
        options(false, false, false).run(Stage::Selecting, &reconciled, Event::Confirmed(Vec::new()));
    assert_eq!(stage, Stage::Succeeded);
    assert_eq!(action, Action::Stop);
}

#[test]
fn cancelled_prompt_fails_the_run_without_deletion() {
    let reconciled = three_merged();
    let (stage, action) = options(false, false, false).run(Stage::Selecting, &reconciled, Event::Cancelled);
    assert_eq!(stage, Stage::Failed);
    assert_eq!(action, Action::Stop);
    assert!(stage.is_over());
}

#[test]
fn reported_failure_fails_the_run_in_every_open_stage() {
    let reconciled = three_merged();
    for stage in [Stage::Listing, Stage::Resolving, Stage::Selecting, Stage::Deleting] {
        assert!(!stage.is_over());
        let (next, action) = options(false, false, true).run(stage, &reconciled, Event::Failure);
        assert_eq!(next, Stage::Failed);
        assert_eq!(action, Action::Stop);
    }
}

#[test]
fn ended_run_stays_as_it_is() {
    let reconciled = three_merged();
    let cleanup = options(false, false, true);
    for event in [Event::Listed, Event::Resolved, Event::Cancelled, Event::Deleted, Event::Failure] {
        let (stage, action) = cleanup.run(Stage::Succeeded, &reconciled, event.clone());
        assert_eq!(stage, Stage::Succeeded);
        assert_eq!(action, Action::Stop);
        let (stage, action) = cleanup.run(Stage::Failed, &reconciled, event);
        assert_eq!(stage, Stage::Failed);
        assert_eq!(action, Action::Stop);
    }
}

#[test]
fn selected_key_that_is_not_held_is_skipped() {
    let reconciled = three_merged();
    let selection = vec![merged(2), merged(7), merged(1)];
    assert_eq!(branches_to_delete(&reconciled, &selection), vec!["two".to_string(), "one".to_string()]);
    assert_eq!(branches_to_delete(&reconciled, &Vec::new()), Vec::<String>::new());
    let (stage, action) =
        options(false, false, false).run(Stage::Selecting, &reconciled, Event::Confirmed(vec![merged(7)]));
    assert_eq!(stage, Stage::Deleting);
    assert_eq!(action, Action::Delete(Vec::new()));
}
