use git_upstream::errors::Error;
use git_upstream::orchestrate::{Orchestrator, Phase};

fn names(list: &[&str]) -> Vec<String> {
    list.iter().map(|s| s.to_string()).collect()
}

/// Drive a run against simulated outcomes: `outcomes[i]` is what pushing
/// to candidate `i` would return. Returns the remotes actually pushed to,
/// in order, and the final phase.
fn simulate(order: &[&str], fail_fast: bool, outcomes: &[bool]) -> (Vec<String>, Phase) {
    let mut orchestrator = Orchestrator::new(names(order), fail_fast);
    assert_eq!(orchestrator.phase(), Phase::Pending);
    orchestrator.start();
    let mut pushed = Vec::new();
    while let Phase::Attempting { idx } = orchestrator.phase() {
        pushed.push(orchestrator.current_remote().clone());
        orchestrator.record(outcomes[idx]);
    }
    (pushed, orchestrator.phase())
}

#[test]
fn halts_at_first_success() {
    let (pushed, phase) = simulate(&["a", "b", "c"], false, &[false, true, true]);
    assert_eq!(phase, Phase::Succeeded { idx: 1 });
    // the candidate after the success is never pushed to
    assert_eq!(pushed, vec!["a", "b"]);
}

#[test]
fn immediate_success_pushes_once() {
    let (pushed, phase) = simulate(&["a", "b"], false, &[true, true]);
    assert_eq!(phase, Phase::Succeeded { idx: 0 });
    assert_eq!(pushed, vec!["a"]);
}

#[test]
fn fail_fast_stops_after_one_failure() {
    let (pushed, phase) = simulate(&["a", "b", "c"], true, &[false, true, true]);
    assert_eq!(phase, Phase::FailedFast { idx: 0 });
    assert_eq!(pushed, vec!["a"]);
}

#[test]
fn failure_advances_to_next_candidate() {
    let (pushed, phase) = simulate(&["a", "b"], false, &[false, false]);
    assert_eq!(phase, Phase::ExhaustedAllFailed);
    assert_eq!(pushed, vec!["a", "b"]);
}

#[test]
fn two_failures_then_success_succeeds_with_three_pushes() {
    let (pushed, phase) = simulate(&["a", "b", "c"], false, &[false, false, true]);
    assert_eq!(phase, Phase::Succeeded { idx: 2 });
    assert_eq!(pushed, vec!["a", "b", "c"]);
}

#[test]
fn empty_order_exhausts_immediately() {
    let (pushed, phase) = simulate(&[], false, &[]);
    assert_eq!(phase, Phase::ExhaustedAllFailed);
    assert_eq!(pushed, Vec::<String>::new());
}

#[test]
fn fail_fast_failure_names_the_remote() {
    let mut orchestrator = Orchestrator::new(names(&["a", "b"]), true);
    orchestrator.start();
    orchestrator.record(false);
    assert_eq!(orchestrator.phase(), Phase::FailedFast { idx: 0 });
    match orchestrator.failure_error("main") {
        Error::PushFailed { remote } => assert_eq!(remote, "a"),
        _ => panic!("expected PushFailed"),
    }
}

#[test]
fn exhaustion_names_branch_and_every_attempted_remote() {
    let mut orchestrator = Orchestrator::new(names(&["a", "b"]), false);
    orchestrator.start();
    orchestrator.record(false);
    orchestrator.record(false);
    assert_eq!(orchestrator.phase(), Phase::ExhaustedAllFailed);
    match orchestrator.failure_error("main") {
        Error::AllRemotesFailed { branch, attempted } => {
            assert_eq!(branch, "main");
            assert_eq!(attempted, vec!["a", "b"]);
        }
        _ => panic!("expected AllRemotesFailed"),
    }
}

#[test]
fn current_remote_follows_the_order() {
    let mut orchestrator = Orchestrator::new(names(&["x", "y"]), false);
    orchestrator.start();
    assert_eq!(orchestrator.current_remote().as_str(), "x");
    orchestrator.record(false);
    assert_eq!(orchestrator.current_remote().as_str(), "y");
}
