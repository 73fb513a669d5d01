//! The decisions of the store's transactions: how a staging transaction is
//! started under a fresh name, how a staged result is published or found
//! already there and rolled back when publication fails, and which abandoned
//! staging transactions recovery may remove. The filesystem work each step
//! asks for is done by the caller, who reports back how it went.
use crate::store::{
    store_error_message, transaction_valid, valid_transaction_id, PublishOutcome, PublishedResult,
    StoreError,
};
use crate::text::{concat2, concat4};
use vstd::prelude::*;
use vstd::string::*;

verus! {

/// How many fresh transaction names starting a transaction tries.
pub const MAX_STAGING_ATTEMPTS: u32 = 128;

/// What happened to the last request made while starting a transaction.
#[derive(Debug)]
pub enum BeginEvent {
    LeaseCreated,
    LeaseExists,
    LeaseFailed(StoreError),
    LeaseLocked,
    StagingCreated,
    StagingExists,
    StagingFailed(StoreError),
    PrefixCreated,
    PrefixFailed(StoreError),
}

/// What to undo of the current attempt.
#[derive(Debug, Clone, Copy, PartialEq, Eq)]
pub enum BeginCleanup {
    Nothing,
    ReleaseLease,
    RemoveStagingAndReleaseLease,
}

/// The next request while starting a transaction.
#[derive(Debug)]
pub enum BeginAction {
    LockLease,
    CreateStaging,
    CreatePrefix,
    Retry(BeginCleanup),
    Fail(BeginCleanup, StoreError),
    Done,
}

/// The failure when no fresh name could be had.
pub open spec fn exhausted_message() -> Seq<char> {
    "unable to allocate a unique staging transaction"@
}

/// After a name turned out to be taken in attempt `attempt` (counted from
/// zero): undo `cleanup`, then try another name while attempts remain.
pub open spec fn after_collision(attempt: u32, cleanup: BeginCleanup, r: BeginAction) -> bool {
    if attempt + 1 < MAX_STAGING_ATTEMPTS {
        r == BeginAction::Retry(cleanup)
    } else {
        r matches BeginAction::Fail(c, StoreError::InvalidPath(m)) && c == cleanup && m@
            == exhausted_message()
    }
}

/// The request that follows `event` in attempt `attempt`.
pub open spec fn begin_step_spec(attempt: u32, event: BeginEvent, r: BeginAction) -> bool {
    match event {
        BeginEvent::LeaseCreated => r == BeginAction::LockLease,
        BeginEvent::LeaseExists => after_collision(attempt, BeginCleanup::Nothing, r),
        BeginEvent::LeaseFailed(e) => r == BeginAction::Fail(BeginCleanup::Nothing, e),
        BeginEvent::LeaseLocked => r == BeginAction::CreateStaging,
        BeginEvent::StagingCreated => r == BeginAction::CreatePrefix,
        BeginEvent::StagingExists => after_collision(attempt, BeginCleanup::ReleaseLease, r),
        BeginEvent::StagingFailed(e) => r == BeginAction::Fail(BeginCleanup::ReleaseLease, e),
        BeginEvent::PrefixCreated => r == BeginAction::Done,
        BeginEvent::PrefixFailed(e) => r == BeginAction::Fail(
            BeginCleanup::RemoveStagingAndReleaseLease,
            e,
        ),
    }
}

/// A step of starting a staging transaction: a lease is created and locked,
/// then the staging directory and its prefix are created. A name already
/// taken is given up (with the lease released if it was held) and another is
/// tried while attempts remain; any other failure ends the start, undoing
/// what this attempt created.
pub fn begin_step(attempt: u32, event: BeginEvent) -> (r: BeginAction)
    ensures
        begin_step_spec(attempt, event, r),
        r is Retry ==> attempt + 1 < MAX_STAGING_ATTEMPTS,
        r is Done ==> event is PrefixCreated,
{
    match event {
        BeginEvent::LeaseCreated => BeginAction::LockLease,
        BeginEvent::LeaseExists => collided(attempt, BeginCleanup::Nothing),
        BeginEvent::LeaseFailed(e) => BeginAction::Fail(BeginCleanup::Nothing, e),
        BeginEvent::LeaseLocked => BeginAction::CreateStaging,
        BeginEvent::StagingCreated => BeginAction::CreatePrefix,
        BeginEvent::StagingExists => collided(attempt, BeginCleanup::ReleaseLease),
        BeginEvent::StagingFailed(e) => BeginAction::Fail(BeginCleanup::ReleaseLease, e),
        BeginEvent::PrefixCreated => BeginAction::Done,
        BeginEvent::PrefixFailed(e) => BeginAction::Fail(BeginCleanup::RemoveStagingAndReleaseLease, e),
    }
}

fn collided(attempt: u32, cleanup: BeginCleanup) -> (r: BeginAction)
    ensures
        after_collision(attempt, cleanup, r),
{
    if attempt < MAX_STAGING_ATTEMPTS - 1 {
        BeginAction::Retry(cleanup)
    } else {
        BeginAction::Fail(
            cleanup,
            StoreError::InvalidPath(String::from_str("unable to allocate a unique staging transaction")),
        )
    }
}

/// Whether the lease of a staging transaction could be taken.
#[derive(Debug, Clone, Copy, PartialEq, Eq)]
pub enum LeaseProbe {
    Acquired,
    Held,
}

/// What recovery does with an entry of the staging root: refuse the store,
/// probe the entry's lease, remove the abandoned entry, or leave it to its
/// owner.
#[derive(Debug, PartialEq, Eq)]
pub enum RecoveryAction {
    Refuse(String),
    ProbeLease,
    Remove,
    Skip,
}

/// The action recovery takes on an entry: a directory that is no symlink,
/// named by a valid transaction identifier, is removed only when its lease
/// was free; anything else in the staging root is refused.
pub open spec fn recovery_spec(
    is_dir: bool,
    is_symlink: bool,
    name: Option<String>,
    lease: Option<LeaseProbe>,
    r: RecoveryAction,
) -> bool {
    if !is_dir || is_symlink {
        r matches RecoveryAction::Refuse(m) && m@ == "staging root contains a non-directory entry"@
    } else {
        match name {
            None => r matches RecoveryAction::Refuse(m) && m@
                == "staging transaction name is not valid UTF-8"@,
            Some(n) => if !transaction_valid(n@) {
                r matches RecoveryAction::Refuse(m) && m@
                    == "staging transaction has an invalid identifier"@
            } else {
                match lease {
                    None => r == RecoveryAction::ProbeLease,
                    Some(LeaseProbe::Acquired) => r == RecoveryAction::Remove,
                    Some(LeaseProbe::Held) => r == RecoveryAction::Skip,
                }
            },
        }
    }
}

/// Decides what recovery does with an entry of the staging root, given its
/// kind, its name if it is UTF-8 and, once probed, its lease. Leased work is
/// never removed.
pub fn recovery_action(
    is_dir: bool,
    is_symlink: bool,
    name: &Option<String>,
    lease: Option<LeaseProbe>,
) -> (r: RecoveryAction)
    ensures
        recovery_spec(is_dir, is_symlink, *name, lease, r),
        r is Remove ==> lease == Some(LeaseProbe::Acquired) && (name matches Some(n)
            && transaction_valid(n@)),
{
    if !is_dir || is_symlink {
        return RecoveryAction::Refuse(String::from_str("staging root contains a non-directory entry"));
    }
    match name {
        None => RecoveryAction::Refuse(String::from_str("staging transaction name is not valid UTF-8")),
        Some(n) => {
            if !valid_transaction_id(n.as_str()) {
                return RecoveryAction::Refuse(
                    String::from_str("staging transaction has an invalid identifier"),
                );
            }
            match lease {
                None => RecoveryAction::ProbeLease,
                Some(LeaseProbe::Acquired) => RecoveryAction::Remove,
                Some(LeaseProbe::Held) => RecoveryAction::Skip,
            }
        },
    }
}

/// Where a commit stands: the request whose outcome is awaited.
#[derive(Debug)]
pub enum CommitStage {
    Preparing,
    ProbingDestination,
    Renaming,
    ProbingAfterFailedRename(StoreError),
    ValidatingExisting,
    RemovingStaging,
    ReleasingAdopted,
    ValidatingPublished,
    ReleasingPublished,
    SyncingResults,
    RollingBack(StoreError, bool),
    ReleasingAfterRollback(StoreError),
}

/// How the awaited request went.
#[derive(Debug)]
pub enum CommitEvent {
    Done,
    Failed(StoreError),
    Exists(bool),
}

/// The next request of a commit.
#[derive(Debug, Clone, Copy, PartialEq, Eq)]
pub enum CommitAction {
    ProbeDestination,
    Rename,
    ValidateExisting,
    RemoveStaging,
    ReleaseLease,
    ValidatePublished,
    SyncResults,
    RollBack,
}

/// A commit in progress: the result it publishes and where it stands.
#[derive(Debug)]
pub struct CommitState {
    published: PublishedResult,
    stage: CommitStage,
}

/// What a commit step gives: the next request, or how the commit ended.
#[derive(Debug)]
pub enum CommitStep {
    Next(CommitState, CommitAction),
    Finish(Result<PublishOutcome, StoreError>),
}

impl CommitState {
    /// The result the commit publishes.
    pub closed spec fn published(self) -> PublishedResult {
        self.published
    }

    /// The request whose outcome the commit awaits.
    pub closed spec fn stage(self) -> CommitStage {
        self.stage
    }

    /// A commit of `published` whose checks before publication are running:
    /// the staged prefix is checked, synced and described by its metadata.
    pub fn start(published: PublishedResult) -> (r: Self)
        ensures
            r.published() == published,
            r.stage() is Preparing,
    {
        CommitState { published, stage: CommitStage::Preparing }
    }
}

/// The step continues with request `action`, awaited in `stage`.
pub open spec fn next(p: PublishedResult, stage: CommitStage, action: CommitAction, r: CommitStep) -> bool {
    r matches CommitStep::Next(s, a) && s.published() == p && s.stage() == stage && a == action
}

/// The error for an outcome that does not answer the awaited request.
pub open spec fn commit_out_of_order(r: CommitStep) -> bool {
    r matches CommitStep::Finish(Err(StoreError::InvalidPath(m))) && m@
        == "commit step out of order"@
}

/// Once the result is published, an outcome that does not answer the awaited
/// request is a failure too: the published result is rolled back.
pub open spec fn rolls_back_out_of_order(p: PublishedResult, release: bool, r: CommitStep) -> bool {
    r matches CommitStep::Next(s, CommitAction::RollBack) && s.published() == p && (s.stage() matches CommitStage::RollingBack(
        StoreError::InvalidPath(m),
        rel,
    ) && m@ == "commit step out of order"@ && rel == release)
}

/// The error when publication failed with `failure` and rolling the
/// published result back failed with `rollback`.
pub open spec fn rollback_failed(p: PublishedResult, failure: StoreError, rollback: StoreError, r: CommitStep) -> bool {
    r matches CommitStep::Finish(Err(StoreError::CorruptResult { path, message })) && path@
        == p@.1 && exists|f: Seq<char>, b: Seq<char>|
        #![trigger store_error_message(failure, f), store_error_message(rollback, b)]
        store_error_message(failure, f) && store_error_message(rollback, b) && message@
            == "publication failed: "@ + f + "; rollback failed: "@ + b
}

/// The error when publication failed with `failure`, the result was rolled
/// back, and releasing the lease failed with `cleanup`.
pub open spec fn lease_cleanup_failed(p: PublishedResult, failure: StoreError, cleanup: StoreError, r: CommitStep) -> bool {
    r matches CommitStep::Finish(Err(StoreError::CorruptResult { path, message })) && path@
        == p@.1 && exists|f: Seq<char>, c: Seq<char>|
        #![trigger store_error_message(failure, f), store_error_message(cleanup, c)]
        store_error_message(failure, f) && store_error_message(cleanup, c) && message@
            == "publication failed: "@ + f + "; result rollback succeeded; lease cleanup failed: "@
            + c
}

/// A commit's step from `state` on `event`.
pub open spec fn commit_step_spec(state: CommitState, event: CommitEvent, r: CommitStep) -> bool {
    let p = state.published();
    match state.stage() {
        CommitStage::Preparing => match event {
            CommitEvent::Done => next(p, CommitStage::ProbingDestination, CommitAction::ProbeDestination, r),
            CommitEvent::Failed(e) => r == CommitStep::Finish(Err(e)),
            _ => commit_out_of_order(r),
        },
        CommitStage::ProbingDestination => match event {
            CommitEvent::Exists(true) => next(p, CommitStage::ValidatingExisting, CommitAction::ValidateExisting, r),
            CommitEvent::Exists(false) => next(p, CommitStage::Renaming, CommitAction::Rename, r),
            CommitEvent::Failed(e) => r == CommitStep::Finish(Err(e)),
            _ => commit_out_of_order(r),
        },
        CommitStage::Renaming => match event {
            CommitEvent::Done => next(p, CommitStage::ValidatingPublished, CommitAction::ValidatePublished, r),
            CommitEvent::Failed(e) => next(
                p,
                CommitStage::ProbingAfterFailedRename(e),
                CommitAction::ProbeDestination,
                r,
            ),
            _ => commit_out_of_order(r),
        },
        CommitStage::ProbingAfterFailedRename(e) => match event {
            CommitEvent::Exists(true) => next(p, CommitStage::ValidatingExisting, CommitAction::ValidateExisting, r),
            CommitEvent::Exists(false) => r == CommitStep::Finish(Err(e)),
            CommitEvent::Failed(e2) => r == CommitStep::Finish(Err(e2)),
            _ => commit_out_of_order(r),
        },
        CommitStage::ValidatingExisting => match event {
            CommitEvent::Done => next(p, CommitStage::RemovingStaging, CommitAction::RemoveStaging, r),
            CommitEvent::Failed(e) => r == CommitStep::Finish(Err(e)),
            _ => commit_out_of_order(r),
        },
        CommitStage::RemovingStaging => match event {
            CommitEvent::Done => next(p, CommitStage::ReleasingAdopted, CommitAction::ReleaseLease, r),
            CommitEvent::Failed(e) => r == CommitStep::Finish(Err(e)),
            _ => commit_out_of_order(r),
        },
        CommitStage::ReleasingAdopted => match event {
            CommitEvent::Done => r == CommitStep::Finish(Ok(PublishOutcome::Existing(p))),
            CommitEvent::Failed(e) => r == CommitStep::Finish(Err(e)),
            _ => commit_out_of_order(r),
        },
        CommitStage::ValidatingPublished => match event {
            CommitEvent::Done => next(p, CommitStage::ReleasingPublished, CommitAction::ReleaseLease, r),
            CommitEvent::Failed(f) => next(p, CommitStage::RollingBack(f, true), CommitAction::RollBack, r),
            _ => rolls_back_out_of_order(p, true, r),
        },
        CommitStage::ReleasingPublished => match event {
            CommitEvent::Done => next(p, CommitStage::SyncingResults, CommitAction::SyncResults, r),
            CommitEvent::Failed(f) => next(p, CommitStage::RollingBack(f, false), CommitAction::RollBack, r),
            _ => rolls_back_out_of_order(p, false, r),
        },
        CommitStage::SyncingResults => match event {
            CommitEvent::Done => r == CommitStep::Finish(Ok(PublishOutcome::Published(p))),
            CommitEvent::Failed(f) => next(p, CommitStage::RollingBack(f, false), CommitAction::RollBack, r),
            _ => rolls_back_out_of_order(p, false, r),
        },
        CommitStage::RollingBack(f, release) => match event {
            CommitEvent::Done => if release {
                next(p, CommitStage::ReleasingAfterRollback(f), CommitAction::ReleaseLease, r)
            } else {
                r == CommitStep::Finish(Err(f))
            },
            CommitEvent::Failed(b) => rollback_failed(p, f, b, r),
            _ => commit_out_of_order(r),
        },
        CommitStage::ReleasingAfterRollback(f) => match event {
            CommitEvent::Done => r == CommitStep::Finish(Err(f)),
            CommitEvent::Failed(c) => lease_cleanup_failed(p, f, c, r),
            _ => commit_out_of_order(r),
        },
    }
}

fn step_to(published: PublishedResult, stage: CommitStage, action: CommitAction) -> (r: CommitStep)
    ensures
        next(published, stage, action, r),
{
    CommitStep::Next(CommitState { published, stage }, action)
}

fn out_of_order_error() -> (e: StoreError)
    ensures
        e matches StoreError::InvalidPath(m) && m@ == "commit step out of order"@,
{
    StoreError::InvalidPath(String::from_str("commit step out of order"))
}

fn out_of_order() -> (r: CommitStep)
    ensures
        commit_out_of_order(r),
{
    CommitStep::Finish(Err(StoreError::InvalidPath(String::from_str("commit step out of order"))))
}

/// A step of publishing a staged result. Before anything is renamed the
/// staged prefix is checked; an existing result at the destination is never
/// overwritten but validated and adopted, the staging removed and the lease
/// released; otherwise the staging is renamed onto the destination, the
/// published result validated, the lease released and the results directory
/// synced. Any failure after the rename rolls the published result back.
pub fn commit_step(state: CommitState, event: CommitEvent) -> (r: CommitStep)
    ensures
        commit_step_spec(state, event, r),
        r matches CommitStep::Next(_, CommitAction::Rename) ==> state.stage() is ProbingDestination
            && event == CommitEvent::Exists(false),
        r matches CommitStep::Finish(Ok(PublishOutcome::Published(_))) ==> state.stage() is SyncingResults
            && event is Done,
        r matches CommitStep::Finish(Ok(PublishOutcome::Existing(_))) ==> state.stage() is ReleasingAdopted
            && event is Done,
        (state.stage() is ValidatingPublished || state.stage() is ReleasingPublished
            || state.stage() is SyncingResults) && !(event is Done) ==> r matches CommitStep::Next(
            _,
            CommitAction::RollBack,
        ),
        r matches CommitStep::Finish(Err(_)) ==> !(state.stage() is ValidatingPublished
            || state.stage() is ReleasingPublished || state.stage() is SyncingResults),
        state.stage() is RollingBack && event is Failed ==> r matches CommitStep::Finish(
            Err(StoreError::CorruptResult { .. }),
        ),
{
    let CommitState { published, stage } = state;
    match stage {
        CommitStage::Preparing => match event {
            CommitEvent::Done => step_to(published, CommitStage::ProbingDestination, CommitAction::ProbeDestination),
            CommitEvent::Failed(e) => CommitStep::Finish(Err(e)),
            _ => out_of_order(),
        },
        CommitStage::ProbingDestination => match event {
            CommitEvent::Exists(true) => step_to(published, CommitStage::ValidatingExisting, CommitAction::ValidateExisting),
            CommitEvent::Exists(false) => step_to(published, CommitStage::Renaming, CommitAction::Rename),
            CommitEvent::Failed(e) => CommitStep::Finish(Err(e)),
            _ => out_of_order(),
        },
        CommitStage::Renaming => match event {
            CommitEvent::Done => step_to(published, CommitStage::ValidatingPublished, CommitAction::ValidatePublished),
            CommitEvent::Failed(e) => step_to(
                published,
                CommitStage::ProbingAfterFailedRename(e),
                CommitAction::ProbeDestination,
            ),
            _ => out_of_order(),
        },
        CommitStage::ProbingAfterFailedRename(e) => match event {
            CommitEvent::Exists(true) => step_to(published, CommitStage::ValidatingExisting, CommitAction::ValidateExisting),
            CommitEvent::Exists(false) => CommitStep::Finish(Err(e)),
            CommitEvent::Failed(e2) => CommitStep::Finish(Err(e2)),
            _ => out_of_order(),
        },
        CommitStage::ValidatingExisting => match event {
            CommitEvent::Done => step_to(published, CommitStage::RemovingStaging, CommitAction::RemoveStaging),
            CommitEvent::Failed(e) => CommitStep::Finish(Err(e)),
            _ => out_of_order(),
        },
        CommitStage::RemovingStaging => match event {
            CommitEvent::Done => step_to(published, CommitStage::ReleasingAdopted, CommitAction::ReleaseLease),
            CommitEvent::Failed(e) => CommitStep::Finish(Err(e)),
            _ => out_of_order(),
        },
        CommitStage::ReleasingAdopted => match event {
            CommitEvent::Done => CommitStep::Finish(Ok(PublishOutcome::Existing(published))),
            CommitEvent::Failed(e) => CommitStep::Finish(Err(e)),
            _ => out_of_order(),
        },
        CommitStage::ValidatingPublished => match event {
            CommitEvent::Done => step_to(published, CommitStage::ReleasingPublished, CommitAction::ReleaseLease),
            CommitEvent::Failed(f) => step_to(published, CommitStage::RollingBack(f, true), CommitAction::RollBack),
            _ => step_to(published, CommitStage::RollingBack(out_of_order_error(), true), CommitAction::RollBack),
        },
        CommitStage::ReleasingPublished => match event {
            CommitEvent::Done => step_to(published, CommitStage::SyncingResults, CommitAction::SyncResults),
            CommitEvent::Failed(f) => step_to(published, CommitStage::RollingBack(f, false), CommitAction::RollBack),
            _ => step_to(published, CommitStage::RollingBack(out_of_order_error(), false), CommitAction::RollBack),
        },
        CommitStage::SyncingResults => match event {
            CommitEvent::Done => CommitStep::Finish(Ok(PublishOutcome::Published(published))),
            CommitEvent::Failed(f) => step_to(published, CommitStage::RollingBack(f, false), CommitAction::RollBack),
            _ => step_to(published, CommitStage::RollingBack(out_of_order_error(), false), CommitAction::RollBack),
        },
        CommitStage::RollingBack(f, release) => match event {
            CommitEvent::Done => if release {
                step_to(published, CommitStage::ReleasingAfterRollback(f), CommitAction::ReleaseLease)
            } else {
                CommitStep::Finish(Err(f))
            },
            CommitEvent::Failed(b) => {
                let fd = f.describe();
                let bd = b.describe();
                let message = concat4("publication failed: ", fd.as_str(), "; rollback failed: ", bd.as_str());
                let path = String::from_str(published.path());
                proof {
                    assert(store_error_message(f, fd@) && store_error_message(b, bd@));
                }
                CommitStep::Finish(Err(StoreError::CorruptResult { path, message }))
            },
            _ => out_of_order(),
        },
        CommitStage::ReleasingAfterRollback(f) => match event {
            CommitEvent::Done => CommitStep::Finish(Err(f)),
            CommitEvent::Failed(c) => {
                let fd = f.describe();
                let cd = c.describe();
                let message = concat4(
                    "publication failed: ",
                    fd.as_str(),
                    "; result rollback succeeded; lease cleanup failed: ",
                    cd.as_str(),
                );
                let path = String::from_str(published.path());
                proof {
                    assert(store_error_message(f, fd@) && store_error_message(c, cd@));
                }
                CommitStep::Finish(Err(StoreError::CorruptResult { path, message }))
            },
            _ => out_of_order(),
        },
    }
}

} // verus!
