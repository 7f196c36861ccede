use vstd::prelude::*;

use crate::cloud::Finality;
use crate::errors::Error;
use crate::layout::Retention;
use crate::report::OperationStepDecision;
use crate::subjects::GameSubjects;

verus! {

/// Whether an interactive confirmation may be skipped: previews and forced
/// runs never prompt.
pub fn confirmation_not_needed(finality: Finality, force: bool) -> (r: bool)
    ensures
        r == (finality is Preview || force),
{
    finality.preview() || force
}

/// Judges the backup target before any work: a target that is a plain file,
/// is not writable, or is non-empty while merging is off, is unusable.
pub fn check_backup_target(
    exists_as_file: bool,
    writable: bool,
    merge: bool,
    nonempty: bool,
) -> (r: Result<(), Error>)
    ensures
        r is Ok <==> (!exists_as_file && writable && (merge || !nonempty)),
        r is Err ==> (r matches Err(e) && e is CliBackupTargetUnusable),
{
    if exists_as_file || !writable || (!merge && nonempty) {
        Err(Error::CliBackupTargetUnusable)
    } else {
        Ok(())
    }
}

/// Applies the command-line retention overrides onto the configured policy.
pub fn apply_retention_limits(
    base: Retention,
    full_limit: Option<u8>,
    differential_limit: Option<u8>,
) -> (r: Retention)
    ensures
        r.full == (match full_limit {
            Some(f) => f,
            None => base.full,
        }),
        r.differential == (match differential_limit {
            Some(d) => d,
            None => base.differential,
        }),
{
    let mut r = base;
    match full_limit {
        Some(f) => {
            r.full = f;
        },
        None => {},
    }
    match differential_limit {
        Some(d) => {
            r.differential = d;
        },
        None => {},
    }
    r
}

/// A disabled game is skipped, unless the request named games explicitly.
pub fn step_decision(enabled: bool, games_specified: bool) -> (r: OperationStepDecision)
    ensures
        r == (if !enabled && !games_specified {
            OperationStepDecision::Ignored
        } else {
            OperationStepDecision::Processed
        }),
{
    if !enabled && !games_specified {
        OperationStepDecision::Ignored
    } else {
        OperationStepDecision::Processed
    }
}

/// Restoring by backup id addresses exactly one game.
pub fn check_backup_id_constraint(backup_specified: bool, games_requested: usize) -> (r: Result<
    (),
    Error,
>)
    ensures
        r is Ok <==> (!backup_specified || games_requested == 1),
        r is Err ==> (r matches Err(e) && e is CliBackupIdWithMultipleGames),
{
    if backup_specified && games_requested != 1 {
        Err(Error::CliBackupIdWithMultipleGames)
    } else {
        Ok(())
    }
}

/// An operation aborts when any requested name is unknown, and the error
/// carries exactly those names.
pub fn check_unknown_games(subjects: &GameSubjects) -> (r: Result<(), Error>)
    ensures
        r is Ok <==> subjects.invalid@.len() == 0,
        subjects.invalid@.len() > 0 ==> (r matches Err(e) && (e matches
            Error::CliUnrecognizedGames { games } && games@.len() == subjects.invalid@.len()
            && crate::text::view_of_names(games@) == crate::text::view_of_names(
            subjects.invalid@,
        ))),
{
    if subjects.invalid.len() == 0 {
        return Ok(());
    }
    let mut games: Vec<String> = Vec::new();
    let mut i: usize = 0;
    while i < subjects.invalid.len()
        invariant
            0 <= i <= subjects.invalid@.len(),
            games@.len() == i,
            forall|j: int| 0 <= j < i ==> (#[trigger] games@[j])@ == subjects.invalid@[j]@,
        decreases subjects.invalid@.len() - i,
    {
        games.push(subjects.invalid[i].clone());
        i = i + 1;
    }
    proof {
        assert(crate::text::view_of_names(games@) =~= crate::text::view_of_names(
            subjects.invalid@,
        ));
    }
    Err(Error::CliUnrecognizedGames { games })
}

} // verus!
