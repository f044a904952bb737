//! The recovery policy: whether a store is opened, created or recreated.

use vstd::prelude::*;

use crate::cache::RecoverMode;
use crate::error::{invalid_superblock, superblock_error, Error};
use crate::store::config::ExtentStoreConfig;
use crate::store::format::{creates, StoreLayout};

verus! {

/// How a store came to be open.
#[derive(Debug, PartialEq, Eq)]
pub enum RecoveryOutcome {
    Created,
    Recovered,
    /// The reason for which what was there was given up.
    Recreated(String),
}

/// What to do with the store's directory.
#[derive(Debug, PartialEq, Eq)]
pub enum RecoveryStep {
    /// Give up what is there and start with an empty store.
    Recreate(RecoveryOutcome),
    /// Create a store in an empty directory.
    Create,
    /// Open what is there and check its layout.
    Open,
    /// The store is open.
    Done,
}

/// `step` starts an empty store, which counts as created.
pub open spec fn starts_empty(step: RecoveryStep) -> bool {
    step matches RecoveryStep::Recreate(outcome) && outcome is Created
}

/// `step` starts an empty store for this reason.
pub open spec fn gives_up(step: RecoveryStep, reason: Seq<char>) -> bool {
    step matches RecoveryStep::Recreate(outcome) && (outcome matches RecoveryOutcome::Recreated(text) && text@
        == reason)
}

/// The first step of opening a store.
pub open spec fn opening(
    mode: RecoverMode,
    state_exists: bool,
    directory_is_empty: bool,
    result: Result<RecoveryStep, Error>,
) -> bool {
    match mode {
        RecoverMode::Skip => result matches Ok(step) && starts_empty(step),
        RecoverMode::Quiet => if state_exists {
            result matches Ok(step) && step is Open
        } else if directory_is_empty {
            result matches Ok(step) && starts_empty(step)
        } else {
            result matches Ok(step) && gives_up(step, "state file is missing"@)
        },
        RecoverMode::Strict => if state_exists {
            result matches Ok(step) && step is Open
        } else if directory_is_empty {
            result matches Ok(step) && step is Create
        } else {
            result matches Err(error) && superblock_error(
                error,
                "Extent cache directory is non-empty but has no state file"@,
            )
        },
    }
}

/// Decides how to open a store.
pub fn plan_open(mode: RecoverMode, state_exists: bool, directory_is_empty: bool) -> (result: Result<
    RecoveryStep,
    Error,
>)
    ensures
        opening(mode, state_exists, directory_is_empty, result),
{
    match mode {
        RecoverMode::Skip => Ok(RecoveryStep::Recreate(RecoveryOutcome::Created)),
        RecoverMode::Quiet => if state_exists {
            Ok(RecoveryStep::Open)
        } else if directory_is_empty {
            Ok(RecoveryStep::Recreate(RecoveryOutcome::Created))
        } else {
            Ok(RecoveryStep::Recreate(RecoveryOutcome::Recreated("state file is missing".to_owned())))
        },
        RecoverMode::Strict => if state_exists {
            Ok(RecoveryStep::Open)
        } else if directory_is_empty {
            Ok(RecoveryStep::Create)
        } else {
            Err(invalid_superblock("Extent cache directory is non-empty but has no state file"))
        },
    }
}

/// What follows an attempt to open what was there, with the text of its failure.
pub open spec fn opened(mode: RecoverMode, failure: Option<Seq<char>>, step: Option<RecoveryStep>) -> bool {
    match failure {
        None => step matches Some(step) && step is Done,
        Some(text) => if mode is Quiet {
            step matches Some(step) && gives_up(step, text)
        } else {
            step is None
        },
    }
}

/// Decides what follows an attempt to open what was there. `failure` is the text of
/// the attempt's failure. `None` means that the failure itself is the answer.
pub fn after_open(mode: RecoverMode, failure: Option<String>) -> (step: Option<RecoveryStep>)
    ensures
        opened(
            mode,
            match failure {
                Some(text) => Some(text@),
                None => None,
            },
            step,
        ),
{
    match failure {
        None => Some(RecoveryStep::Done),
        Some(text) => match mode {
            RecoverMode::Quiet => Some(RecoveryStep::Recreate(RecoveryOutcome::Recreated(text))),
            _ => None,
        },
    }
}

/// Whether an open store has the layout that the configuration asks for.
pub open spec fn layout_verified(
    entry_charge: usize,
    file_size: u64,
    config: ExtentStoreConfig,
    result: Result<(), Error>,
) -> bool {
    exists|expected: Result<StoreLayout, Error>| #[trigger]
        creates(config, expected) && match expected {
            Ok(layout) => if entry_charge != layout.slot_size || file_size != layout.total_file_size {
                result matches Err(error) && superblock_error(
                    error,
                    "recovered Extent layout does not match static configuration"@,
                )
            } else {
                result is Ok
            },
            Err(error) => result == Err::<(), Error>(error),
        }
}

/// Checks the layout of an open store against the configuration.
pub fn verify_layout(entry_charge: usize, file_size: u64, config: ExtentStoreConfig) -> (result: Result<(), Error>)
    ensures
        layout_verified(entry_charge, file_size, config, result),
{
    let created = StoreLayout::create(config);
    let ghost expected = created;
    match created {
        Ok(layout) => {
            assert(creates(config, expected));
            if entry_charge != layout.slot_size || file_size != layout.total_file_size {
                return Err(invalid_superblock("recovered Extent layout does not match static configuration"));
            }
            Ok(())
        },
        Err(error) => {
            assert(creates(config, expected));
            Err(error)
        },
    }
}

/// Strict recovery never gives up what is there: neither before the store is opened
/// nor after that failed.
pub proof fn law_strict_recovery_keeps_what_is_there(
    state_exists: bool,
    directory_is_empty: bool,
    planned: Result<RecoveryStep, Error>,
    failure: Option<Seq<char>>,
    next: Option<RecoveryStep>,
)
    requires
        opening(RecoverMode::Strict, state_exists, directory_is_empty, planned),
        opened(RecoverMode::Strict, failure, next),
    ensures
        planned matches Ok(step) ==> !(step is Recreate),
        next matches Some(step) ==> !(step is Recreate),
        state_exists || !directory_is_empty ==> !(planned matches Ok(step) && step is Create),
{
}

/// Quiet recovery is never refused, and opens what is there whenever it can.
pub proof fn law_quiet_recovery_always_goes_on(
    state_exists: bool,
    directory_is_empty: bool,
    planned: Result<RecoveryStep, Error>,
    failure: Option<Seq<char>>,
    next: Option<RecoveryStep>,
)
    requires
        opening(RecoverMode::Quiet, state_exists, directory_is_empty, planned),
        opened(RecoverMode::Quiet, failure, next),
    ensures
        planned is Ok,
        planned->Ok_0 is Open <==> state_exists,
        next is Some,
        next->Some_0 is Done <==> failure is None,
{
}

/// What is opened, and what is not: a state is opened unless recovery is skipped, and
/// nothing is opened without one; a store is given up only where something is there that is
/// not opened, and then the reason is told; and only strict recovery fails, only for a
/// directory that holds something but no state.
pub proof fn law_recovery_opens_what_is_there(
    mode: RecoverMode,
    state_exists: bool,
    directory_is_empty: bool,
    planned: Result<RecoveryStep, Error>,
)
    requires
        opening(mode, state_exists, directory_is_empty, planned),
    ensures
        planned matches Ok(step) && step is Open <==> state_exists && mode != RecoverMode::Skip,
        planned is Err <==> mode == RecoverMode::Strict && !state_exists && !directory_is_empty,
        planned matches Ok(RecoveryStep::Recreate(RecoveryOutcome::Recreated(_))) <==> mode == RecoverMode::Quiet
            && !state_exists && !directory_is_empty,
        !(planned matches Ok(RecoveryStep::Recreate(RecoveryOutcome::Recovered))),
        !(planned matches Ok(RecoveryStep::Done)),
        mode == RecoverMode::Skip ==> (planned matches Ok(RecoveryStep::Recreate(RecoveryOutcome::Created))),
        planned matches Ok(RecoveryStep::Create) ==> directory_is_empty && !state_exists,
{
}

/// A failed open is given up for its own reason in quiet recovery, and reported in any other.
pub proof fn law_a_failed_open_keeps_its_reason(mode: RecoverMode, failure: Option<Seq<char>>, next: Option<RecoveryStep>)
    requires
        opened(mode, failure, next),
    ensures
        failure is None ==> next matches Some(RecoveryStep::Done),
        failure matches Some(text) && mode == RecoverMode::Quiet ==> (next matches Some(
            RecoveryStep::Recreate(RecoveryOutcome::Recreated(reason)),
        ) && Some(reason@) == failure),
        failure is Some && mode != RecoverMode::Quiet ==> next is None,
{
}

/// A recovered store is accepted exactly where it has the sizes that the configuration
/// comes to.
pub proof fn law_a_recovered_store_has_the_configured_layout(
    entry_charge: usize,
    file_size: u64,
    config: ExtentStoreConfig,
    result: Result<(), Error>,
)
    requires
        layout_verified(entry_charge, file_size, config, result),
    ensures
        result is Ok ==> exists|layout: StoreLayout|
            #![trigger layout.total_file_size]
            creates(config, Ok(layout)) && layout.slot_size == entry_charge && layout.total_file_size == file_size,
        result is Err ==> exists|expected: Result<StoreLayout, Error>| #[trigger]
            creates(config, expected) && (expected matches Ok(layout) ==> layout.slot_size != entry_charge
                || layout.total_file_size != file_size),
{
    let expected = choose|expected: Result<StoreLayout, Error>| #[trigger]
        creates(config, expected) && match expected {
            Ok(layout) => if entry_charge != layout.slot_size || file_size != layout.total_file_size {
                result matches Err(error) && superblock_error(
                    error,
                    "recovered Extent layout does not match static configuration"@,
                )
            } else {
                result is Ok
            },
            Err(error) => result == Err::<(), Error>(error),
        };
    if result is Ok {
        let layout = expected->Ok_0;
        assert(layout.total_file_size == file_size);
    }
}

} // verus!
