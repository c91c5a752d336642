//! Saving the bookmark store so that a crash never leaves a torn file.
//!
//! The new contents are written to a temporary file beside the store; the
//! old store is moved aside to a backup, the temporary file is moved into
//! its place, and the backup is removed.  Where moving the new file in
//! fails, the backup is moved back.  On the next start, a backup that is
//! left over is either discarded (the store exists) or moved back.
//!
//! The file operations themselves are made by the caller: [`next_step`]
//! says, from the step just made and how it went, which step comes next.

use vstd::prelude::*;
use vstd::string::StringSliceAdditionalSpecFns;
use vstd::utf8::encode_utf8;

use crate::format::{decimal, push_decimal};
use crate::path::{join, join_exec};
use crate::sidebar::{decoded, SidebarBookmarks, SidebarBookmarksView};

verus! {

/// How a file operation went.
#[derive(Clone, Copy, Debug, PartialEq, Eq, Structural)]
pub enum Outcome {
    Succeeded,
    /// It failed because the file it acts on does not exist.
    NotFound,
    /// It failed for another reason.
    Failed,
}

/// A step of saving the store.
#[derive(Clone, Copy, Debug, PartialEq, Eq, Structural)]
pub enum SaveStep {
    /// Create the store's directory and its parents.
    CreateDirectory,
    /// Remove a temporary file left by an earlier save, if there is one.
    RemoveTemporary,
    /// Remove a backup left by an earlier save, if there is one.
    RemoveBackup,
    /// Create the temporary file, write the encoded store to it and sync it.
    WriteTemporary,
    /// Move the current store, if there is one, to the backup.
    MoveStoreAside,
    /// Move the temporary file to the store; `had_store` says whether
    /// a store was moved aside.
    MoveTemporaryIn { had_store: bool },
    /// Move the backup back to the store; how it goes does not matter.
    RestoreStore,
    /// Remove the backup of the replaced store.
    DiscardBackup,
    /// Remove the temporary file after a failure; how it goes does not
    /// matter.
    DiscardTemporary,
    /// Saving is over; `saved` says whether the new store is in place.
    Finished { saved: bool },
}

/// The step after `step`, which went as `outcome`.
pub open spec fn after(step: SaveStep, outcome: Outcome) -> SaveStep {
    let ok = outcome == Outcome::Succeeded;
    let ok_or_absent = outcome != Outcome::Failed;
    match step {
        SaveStep::CreateDirectory => if ok {
            SaveStep::RemoveTemporary
        } else {
            SaveStep::Finished { saved: false }
        },
        SaveStep::RemoveTemporary => if ok_or_absent {
            SaveStep::RemoveBackup
        } else {
            SaveStep::Finished { saved: false }
        },
        SaveStep::RemoveBackup => if ok_or_absent {
            SaveStep::WriteTemporary
        } else {
            SaveStep::Finished { saved: false }
        },
        SaveStep::WriteTemporary => if ok {
            SaveStep::MoveStoreAside
        } else {
            SaveStep::DiscardTemporary
        },
        SaveStep::MoveStoreAside => match outcome {
            Outcome::Succeeded => SaveStep::MoveTemporaryIn { had_store: true },
            Outcome::NotFound => SaveStep::MoveTemporaryIn { had_store: false },
            Outcome::Failed => SaveStep::DiscardTemporary,
        },
        SaveStep::MoveTemporaryIn { had_store } => if ok {
            if had_store {
                SaveStep::DiscardBackup
            } else {
                SaveStep::Finished { saved: true }
            }
        } else if had_store {
            SaveStep::RestoreStore
        } else {
            SaveStep::DiscardTemporary
        },
        SaveStep::RestoreStore => SaveStep::DiscardTemporary,
        SaveStep::DiscardBackup => if ok_or_absent {
            SaveStep::Finished { saved: true }
        } else {
            SaveStep::DiscardTemporary
        },
        SaveStep::DiscardTemporary => SaveStep::Finished { saved: false },
        SaveStep::Finished { saved } => SaveStep::Finished { saved },
    }
}

/// Whether `outcome` of `step` is the error that saving reports: the first
/// failure of a step whose failure ends the save.  Failures while undoing
/// (moving the backup back, removing the temporary file) are not reported.
pub open spec fn reported(step: SaveStep, outcome: Outcome) -> bool {
    match step {
        SaveStep::CreateDirectory | SaveStep::WriteTemporary => outcome != Outcome::Succeeded,
        SaveStep::RemoveTemporary | SaveStep::RemoveBackup | SaveStep::MoveStoreAside
        | SaveStep::DiscardBackup => outcome == Outcome::Failed,
        SaveStep::MoveTemporaryIn { .. } => outcome != Outcome::Succeeded,
        SaveStep::RestoreStore | SaveStep::DiscardTemporary | SaveStep::Finished { .. } => false,
    }
}

/// The step after `step`, which went as `outcome`.
pub fn next_step(step: SaveStep, outcome: Outcome) -> (r: SaveStep)
    ensures
        r == after(step, outcome),
{
    let ok = outcome == Outcome::Succeeded;
    let ok_or_absent = outcome != Outcome::Failed;
    match step {
        SaveStep::CreateDirectory => if ok {
            SaveStep::RemoveTemporary
        } else {
            SaveStep::Finished { saved: false }
        },
        SaveStep::RemoveTemporary => if ok_or_absent {
            SaveStep::RemoveBackup
        } else {
            SaveStep::Finished { saved: false }
        },
        SaveStep::RemoveBackup => if ok_or_absent {
            SaveStep::WriteTemporary
        } else {
            SaveStep::Finished { saved: false }
        },
        SaveStep::WriteTemporary => if ok {
            SaveStep::MoveStoreAside
        } else {
            SaveStep::DiscardTemporary
        },
        SaveStep::MoveStoreAside => match outcome {
            Outcome::Succeeded => SaveStep::MoveTemporaryIn { had_store: true },
            Outcome::NotFound => SaveStep::MoveTemporaryIn { had_store: false },
            Outcome::Failed => SaveStep::DiscardTemporary,
        },
        SaveStep::MoveTemporaryIn { had_store } => if ok {
            if had_store {
                SaveStep::DiscardBackup
            } else {
                SaveStep::Finished { saved: true }
            }
        } else if had_store {
            SaveStep::RestoreStore
        } else {
            SaveStep::DiscardTemporary
        },
        SaveStep::RestoreStore => SaveStep::DiscardTemporary,
        SaveStep::DiscardBackup => if ok_or_absent {
            SaveStep::Finished { saved: true }
        } else {
            SaveStep::DiscardTemporary
        },
        SaveStep::DiscardTemporary => SaveStep::Finished { saved: false },
        SaveStep::Finished { saved } => SaveStep::Finished { saved },
    }
}

/// Whether `outcome` of `step` is the error that saving reports.
pub fn is_reported(step: SaveStep, outcome: Outcome) -> (r: bool)
    ensures
        r == reported(step, outcome),
{
    match step {
        SaveStep::CreateDirectory | SaveStep::WriteTemporary => outcome != Outcome::Succeeded,
        SaveStep::RemoveTemporary | SaveStep::RemoveBackup | SaveStep::MoveStoreAside
        | SaveStep::DiscardBackup => outcome == Outcome::Failed,
        SaveStep::MoveTemporaryIn { .. } => outcome != Outcome::Succeeded,
        SaveStep::RestoreStore | SaveStep::DiscardTemporary | SaveStep::Finished { .. } => false,
    }
}

/// How many steps at most are left after `step`.
pub open spec fn steps_left(step: SaveStep) -> nat {
    match step {
        SaveStep::CreateDirectory => 8,
        SaveStep::RemoveTemporary => 7,
        SaveStep::RemoveBackup => 6,
        SaveStep::WriteTemporary => 5,
        SaveStep::MoveStoreAside => 4,
        SaveStep::MoveTemporaryIn { .. } => 3,
        SaveStep::RestoreStore => 2,
        SaveStep::DiscardBackup => 2,
        SaveStep::DiscardTemporary => 1,
        SaveStep::Finished { .. } => 0,
    }
}

/// Saving always ends: every step but the last leaves fewer steps to make.
pub proof fn lemma_save_ends(step: SaveStep, outcome: Outcome)
    requires
        !(step is Finished),
    ensures
        steps_left(after(step, outcome)) < steps_left(step),
{
}

/// The new store is in place only after the temporary file was moved in:
/// saving ends saved only from moving it in, or from removing the backup
/// that this move left.
pub proof fn lemma_saved_only_after_move_in(step: SaveStep, outcome: Outcome)
    requires
        after(step, outcome) == (SaveStep::Finished { saved: true }),
        !(step is Finished),
    ensures
        (step == SaveStep::MoveTemporaryIn { had_store: false } && outcome == Outcome::Succeeded)
            || (step == SaveStep::DiscardBackup && outcome != Outcome::Failed),
{
}

/// Once the store was moved aside, a failure to move the new file in moves
/// the backup back before anything else.
pub proof fn lemma_store_restored(outcome: Outcome)
    requires
        outcome != Outcome::Succeeded,
    ensures
        after(SaveStep::MoveTemporaryIn { had_store: true }, outcome) == SaveStep::RestoreStore,
{
}

/// Every reported failure from writing the temporary file on leads to
/// removing it, at once or after moving the backup back, and saving then
/// ends unsaved.
pub proof fn lemma_failure_cleans_up(step: SaveStep, outcome: Outcome)
    requires
        reported(step, outcome),
        !(step is CreateDirectory || step is RemoveTemporary || step is RemoveBackup),
    ensures
        after(step, outcome) == SaveStep::DiscardTemporary || after(step, outcome)
            == SaveStep::RestoreStore,
        forall|o: Outcome| after(SaveStep::RestoreStore, o) == SaveStep::DiscardTemporary,
        forall|o: Outcome| after(SaveStep::DiscardTemporary, o) == (SaveStep::Finished { saved: false }),
{
}

/// What to do on start with a backup that a save left behind.
#[derive(Clone, Copy, Debug, PartialEq, Eq, Structural)]
pub enum Recovery {
    /// There is no backup.
    Nothing,
    /// The store exists: the backup is out of date and is removed.
    DiscardBackup,
    /// The store is missing: the backup is moved back in its place.
    RestoreBackup,
}

/// What to do with a left-over backup, given whether it exists and whether
/// the store exists.
pub fn recovery(backup_exists: bool, store_exists: bool) -> (r: Recovery)
    ensures
        r == (if !backup_exists {
            Recovery::Nothing
        } else if store_exists {
            Recovery::DiscardBackup
        } else {
            Recovery::RestoreBackup
        }),
{
    if !backup_exists {
        Recovery::Nothing
    } else if store_exists {
        Recovery::DiscardBackup
    } else {
        Recovery::RestoreBackup
    }
}

/// The name of the backup beside the store.
pub open spec fn backup_name() -> Seq<u8> {
    ".sidebar-v1.backup".spec_bytes()
}

/// The name of the temporary file of the process `pid`.
pub open spec fn temporary_name(pid: u32) -> Seq<u8> {
    encode_utf8(".sidebar-v1-"@ + decimal(pid as nat) + ".new"@)
}

/// The backup of the store in the directory `dir`.
pub fn backup_path(dir: &[u8]) -> (r: Vec<u8>)
    ensures
        r@ == join(dir@, backup_name()),
{
    join_exec(dir, ".sidebar-v1.backup".as_bytes())
}

/// The temporary file of the process `pid` in the directory `dir`.
pub fn temporary_path(dir: &[u8], pid: u32) -> (r: Vec<u8>)
    ensures
        r@ == join(dir@, temporary_name(pid)),
{
    let mut name = ".sidebar-v1-".to_owned();
    push_decimal(&mut name, pid as u64);
    name.append(".new");
    join_exec(dir, name.as_str().as_bytes())
}

/// The store read from its file: the decoded store, or an empty one where
/// the file could not be read or decoded.
pub fn loaded(bytes: Option<&[u8]>) -> (r: SidebarBookmarks)
    ensures
        match bytes {
            Some(b) => match decoded(b@) {
                Ok(v) => r@ == v,
                Err(_) => r@ == (SidebarBookmarksView {
                    paths: Seq::empty(),
                    hidden_defaults: Seq::empty(),
                }),
            },
            None => r@ == (SidebarBookmarksView { paths: Seq::empty(), hidden_defaults: Seq::empty() }),
        },
{
    match bytes {
        Some(b) => match SidebarBookmarks::decode(b) {
            Ok(store) => store,
            Err(_) => SidebarBookmarks::default(),
        },
        None => SidebarBookmarks::default(),
    }
}

} // verus!
