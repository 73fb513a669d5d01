use prep::publication::{
    begin_step, commit_step, recovery_action, BeginAction, BeginCleanup, BeginEvent, CommitAction,
    CommitEvent, CommitState, CommitStep, LeaseProbe, RecoveryAction, MAX_STAGING_ATTEMPTS,
};
use prep::store::{PublishOutcome, PublishedResult, Store, StoreError, StoreResultId};

fn published() -> PublishedResult {
    let id = StoreResultId::parse(&format!("sha256:{}", "ab".repeat(32))).expect("valid result id");
    Store::at_root("/store").published(&id)
}

fn advance(state: CommitState, event: CommitEvent, expected: CommitAction) -> CommitState {
    match commit_step(state, event) {
        CommitStep::Next(next, action) => {
            assert_eq!(action, expected);
            next
        }
        other => panic!("unexpected {other:?}"),
    }
}

fn failure(message: &str) -> StoreError {
    StoreError::InvalidPath(message.to_owned())
}

#[test]
fn begin_retries_a_taken_name_while_attempts_remain() {
    assert!(matches!(begin_step(0, BeginEvent::LeaseCreated), BeginAction::LockLease));
    assert!(matches!(begin_step(0, BeginEvent::LeaseLocked), BeginAction::CreateStaging));
    assert!(matches!(begin_step(0, BeginEvent::StagingCreated), BeginAction::CreatePrefix));
    assert!(matches!(begin_step(0, BeginEvent::PrefixCreated), BeginAction::Done));
    assert!(matches!(
        begin_step(0, BeginEvent::LeaseExists),
        BeginAction::Retry(BeginCleanup::Nothing)
    ));
    assert!(matches!(
        begin_step(MAX_STAGING_ATTEMPTS - 2, BeginEvent::StagingExists),
        BeginAction::Retry(BeginCleanup::ReleaseLease)
    ));
    match begin_step(MAX_STAGING_ATTEMPTS - 1, BeginEvent::StagingExists) {
        BeginAction::Fail(BeginCleanup::ReleaseLease, StoreError::InvalidPath(message)) => {
            assert_eq!(message, "unable to allocate a unique staging transaction")
        }
        other => panic!("unexpected {other:?}"),
    }
}

#[test]
fn begin_undoes_what_a_failed_attempt_created() {
    assert!(matches!(
        begin_step(3, BeginEvent::LeaseFailed(failure("lease"))),
        BeginAction::Fail(BeginCleanup::Nothing, StoreError::InvalidPath(_))
    ));
    assert!(matches!(
        begin_step(3, BeginEvent::StagingFailed(failure("staging"))),
        BeginAction::Fail(BeginCleanup::ReleaseLease, StoreError::InvalidPath(_))
    ));
    assert!(matches!(
        begin_step(3, BeginEvent::PrefixFailed(failure("prefix"))),
        BeginAction::Fail(BeginCleanup::RemoveStagingAndReleaseLease, StoreError::InvalidPath(_))
    ));
}

#[test]
fn recovery_removes_only_unleased_valid_transactions() {
    let valid = Some("txn-1-2-3".to_owned());
    assert_eq!(recovery_action(true, false, &valid, None), RecoveryAction::ProbeLease);
    assert_eq!(
        recovery_action(true, false, &valid, Some(LeaseProbe::Acquired)),
        RecoveryAction::Remove
    );
    assert_eq!(recovery_action(true, false, &valid, Some(LeaseProbe::Held)), RecoveryAction::Skip);
    assert_eq!(
        recovery_action(false, false, &valid, Some(LeaseProbe::Acquired)),
        RecoveryAction::Refuse("staging root contains a non-directory entry".to_owned())
    );
    assert_eq!(
        recovery_action(true, true, &valid, None),
        RecoveryAction::Refuse("staging root contains a non-directory entry".to_owned())
    );
    assert_eq!(
        recovery_action(true, false, &None, None),
        RecoveryAction::Refuse("staging transaction name is not valid UTF-8".to_owned())
    );
    assert_eq!(
        recovery_action(true, false, &Some("../escape".to_owned()), Some(LeaseProbe::Acquired)),
        RecoveryAction::Refuse("staging transaction has an invalid identifier".to_owned())
    );
}

#[test]
fn commit_publishes_after_every_check() {
    let state = CommitState::start(published());
    let state = advance(state, CommitEvent::Done, CommitAction::ProbeDestination);
    let state = advance(state, CommitEvent::Exists(false), CommitAction::Rename);
    let state = advance(state, CommitEvent::Done, CommitAction::ValidatePublished);
    let state = advance(state, CommitEvent::Done, CommitAction::ReleaseLease);
    let state = advance(state, CommitEvent::Done, CommitAction::SyncResults);
    match commit_step(state, CommitEvent::Done) {
        CommitStep::Finish(Ok(PublishOutcome::Published(result))) => assert_eq!(result, published()),
        other => panic!("unexpected {other:?}"),
    }
}

#[test]
fn commit_never_overwrites_an_existing_result() {
    let state = CommitState::start(published());
    let state = advance(state, CommitEvent::Done, CommitAction::ProbeDestination);
    let state = advance(state, CommitEvent::Exists(true), CommitAction::ValidateExisting);
    let state = advance(state, CommitEvent::Done, CommitAction::RemoveStaging);
    let state = advance(state, CommitEvent::Done, CommitAction::ReleaseLease);
    match commit_step(state, CommitEvent::Done) {
        CommitStep::Finish(Ok(PublishOutcome::Existing(result))) => assert_eq!(result, published()),
        other => panic!("unexpected {other:?}"),
    }
}

#[test]
fn commit_adopts_a_result_that_won_the_rename_race() {
    let state = CommitState::start(published());
    let state = advance(state, CommitEvent::Done, CommitAction::ProbeDestination);
    let state = advance(state, CommitEvent::Exists(false), CommitAction::Rename);
    let state = advance(state, CommitEvent::Failed(failure("rename")), CommitAction::ProbeDestination);
    let state = advance(state, CommitEvent::Exists(true), CommitAction::ValidateExisting);
    let state = advance(state, CommitEvent::Done, CommitAction::RemoveStaging);
    let state = advance(state, CommitEvent::Done, CommitAction::ReleaseLease);
    assert!(matches!(
        commit_step(state, CommitEvent::Done),
        CommitStep::Finish(Ok(PublishOutcome::Existing(_)))
    ));
    let state = CommitState::start(published());
    let state = advance(state, CommitEvent::Done, CommitAction::ProbeDestination);
    let state = advance(state, CommitEvent::Exists(false), CommitAction::Rename);
    let state = advance(state, CommitEvent::Failed(failure("rename")), CommitAction::ProbeDestination);
    match commit_step(state, CommitEvent::Exists(false)) {
        CommitStep::Finish(Err(StoreError::InvalidPath(message))) => assert_eq!(message, "rename"),
        other => panic!("unexpected {other:?}"),
    }
}

#[test]
fn commit_rolls_back_a_result_that_fails_validation() {
    let state = CommitState::start(published());
    let state = advance(state, CommitEvent::Done, CommitAction::ProbeDestination);
    let state = advance(state, CommitEvent::Exists(false), CommitAction::Rename);
    let state = advance(state, CommitEvent::Done, CommitAction::ValidatePublished);
    let state = advance(state, CommitEvent::Failed(failure("bad metadata")), CommitAction::RollBack);
    let state = advance(state, CommitEvent::Done, CommitAction::ReleaseLease);
    match commit_step(state, CommitEvent::Done) {
        CommitStep::Finish(Err(StoreError::InvalidPath(message))) => assert_eq!(message, "bad metadata"),
        other => panic!("unexpected {other:?}"),
    }
}

#[test]
fn commit_reports_a_failed_rollback_as_corruption() {
    let state = CommitState::start(published());
    let state = advance(state, CommitEvent::Done, CommitAction::ProbeDestination);
    let state = advance(state, CommitEvent::Exists(false), CommitAction::Rename);
    let state = advance(state, CommitEvent::Done, CommitAction::ValidatePublished);
    let state = advance(state, CommitEvent::Done, CommitAction::ReleaseLease);
    let state = advance(state, CommitEvent::Failed(failure("sync")), CommitAction::RollBack);
    match commit_step(state, CommitEvent::Failed(failure("busy"))) {
        CommitStep::Finish(Err(StoreError::CorruptResult { path, message })) => {
            assert_eq!(path, format!("/store/results/sha256/{}", "ab".repeat(32)));
            assert_eq!(message, "publication failed: sync; rollback failed: busy");
        }
        other => panic!("unexpected {other:?}"),
    }
}

#[test]
fn commit_stops_on_a_failed_check_before_publication() {
    let state = CommitState::start(published());
    match commit_step(state, CommitEvent::Failed(failure("tree"))) {
        CommitStep::Finish(Err(StoreError::InvalidPath(message))) => assert_eq!(message, "tree"),
        other => panic!("unexpected {other:?}"),
    }
    let state = CommitState::start(published());
    match commit_step(state, CommitEvent::Exists(true)) {
        CommitStep::Finish(Err(StoreError::InvalidPath(message))) => {
            assert_eq!(message, "commit step out of order")
        }
        other => panic!("unexpected {other:?}"),
    }
}

#[test]
fn commit_rolls_back_on_an_out_of_order_outcome_after_publication() {
    let state = CommitState::start(published());
    let state = advance(state, CommitEvent::Done, CommitAction::ProbeDestination);
    let state = advance(state, CommitEvent::Exists(false), CommitAction::Rename);
    let state = advance(state, CommitEvent::Done, CommitAction::ValidatePublished);
    let state = advance(state, CommitEvent::Exists(true), CommitAction::RollBack);
    let state = advance(state, CommitEvent::Done, CommitAction::ReleaseLease);
    match commit_step(state, CommitEvent::Done) {
        CommitStep::Finish(Err(StoreError::InvalidPath(message))) => {
            assert_eq!(message, "commit step out of order")
        }
        other => panic!("unexpected {other:?}"),
    }
}
