use vstd::prelude::*;

verus! {

/// The failures the engine reports, as the operations surface them.
#[derive(Clone, Debug)]
pub enum Error {
    ConfigInvalid,
    ManifestUnavailable,
    CliUnrecognizedGames { games: Vec<String> },
    CliBackupTargetUnusable,
    CliBackupIdWithMultipleGames,
    CliInvalidBackupId,
    CliUnableToRequestConfirmation,
    UnableToConfigureCloud,
    UnableToSynchronizeCloud { detail: String },
    SomeEntriesFailed,
}

} // verus!
