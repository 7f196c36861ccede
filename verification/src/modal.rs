use vstd::prelude::*;

use crate::errors::Error;
use crate::manifest::Store;

verus! {

/// A root the interface offers to add: where games are installed and which
/// store owns it.
#[derive(Clone)]
pub struct RootsConfig {
    pub path: String,
    pub store: Store,
}

/// What the interface does when a modal is confirmed.
pub enum Message {
    Idle,
    BackupStart { preview: bool },
    RestoreStart { preview: bool },
    ConfirmAddMissingRoots(Vec<RootsConfig>),
}

/// Whether a modal only informs or asks for a decision.
#[derive(Clone, Copy, PartialEq, Eq, Structural, Debug)]
pub enum ModalVariant {
    Info,
    Confirm,
}

/// The modals the interface can show.
pub enum ModalTheme {
    Error { variant: Error },
    ConfirmBackup,
    ConfirmRestore,
    NoMissingRoots,
    ConfirmAddMissingRoots(Vec<RootsConfig>),
}

/// What the confirm-backup and confirm-restore texts are filled in with.
pub struct ModalContext {
    pub backup_path: String,
    pub backup_path_exists: bool,
    pub backup_merge: bool,
    pub restore_path: String,
}

/// Which wording a modal shows, with the values the wording carries.
pub enum ModalText {
    Error { variant: Error },
    ConfirmBackup { path: String, path_exists: bool, merge: bool },
    ConfirmRestore { path: String },
    NoMissingRoots,
    ConfirmAddMissingRoots { missing: Vec<RootsConfig> },
}

impl ModalTheme {
    /// Errors and empty findings only inform; everything else asks.
    pub fn variant(&self) -> (r: ModalVariant)
        ensures
            r == (match self {
                ModalTheme::Error { .. } | ModalTheme::NoMissingRoots => ModalVariant::Info,
                _ => ModalVariant::Confirm,
            }),
    {
        match self {
            ModalTheme::Error { .. } | ModalTheme::NoMissingRoots => ModalVariant::Info,
            ModalTheme::ConfirmBackup
            | ModalTheme::ConfirmRestore
            | ModalTheme::ConfirmAddMissingRoots(..) => ModalVariant::Confirm,
        }
    }

    /// Picks the wording of the modal and fills in what it mentions: the
    /// backup target and merge flag for a backup, the restore source for a
    /// restore, the failure itself for an error.
    pub fn text(&self, context: &ModalContext) -> (r: ModalText)
        ensures
            self is ConfirmBackup ==> (r matches ModalText::ConfirmBackup {
                path,
                path_exists,
                merge,
            } && path@ == context.backup_path@ && path_exists == context.backup_path_exists
                && merge == context.backup_merge),
            self is ConfirmRestore ==> (r matches ModalText::ConfirmRestore { path } && path@
                == context.restore_path@),
            self is NoMissingRoots ==> r is NoMissingRoots,
            self is Error ==> r is Error,
            self matches ModalTheme::ConfirmAddMissingRoots(m) ==> (
            r matches ModalText::ConfirmAddMissingRoots { missing } && missing@ == m@),
    {
        match self {
            ModalTheme::Error { variant } => ModalText::Error { variant: variant.clone() },
            ModalTheme::ConfirmBackup => ModalText::ConfirmBackup {
                path: context.backup_path.clone(),
                path_exists: context.backup_path_exists,
                merge: context.backup_merge,
            },
            ModalTheme::ConfirmRestore => ModalText::ConfirmRestore {
                path: context.restore_path.clone(),
            },
            ModalTheme::NoMissingRoots => ModalText::NoMissingRoots,
            ModalTheme::ConfirmAddMissingRoots(missing) => ModalText::ConfirmAddMissingRoots {
                missing: clone_roots(missing),
            },
        }
    }

    /// What confirming the modal starts: a backup, a restore, adding the
    /// missing roots, or nothing.
    pub fn message(&self) -> (r: Message)
        ensures
            self is Error || self is NoMissingRoots ==> r is Idle,
            self is ConfirmBackup ==> (r matches Message::BackupStart { preview } && !preview),
            self is ConfirmRestore ==> (r matches Message::RestoreStart { preview } && !preview),
            self matches ModalTheme::ConfirmAddMissingRoots(m) ==> (
            r matches Message::ConfirmAddMissingRoots(v) && v@ == m@),
    {
        match self {
            ModalTheme::Error { .. } | ModalTheme::NoMissingRoots => Message::Idle,
            ModalTheme::ConfirmBackup => Message::BackupStart { preview: false },
            ModalTheme::ConfirmRestore => Message::RestoreStart { preview: false },
            ModalTheme::ConfirmAddMissingRoots(missing) => Message::ConfirmAddMissingRoots(
                clone_roots(missing),
            ),
        }
    }
}

/// Copies a list of roots.
fn clone_roots(v: &Vec<RootsConfig>) -> (r: Vec<RootsConfig>)
    ensures
        r@ == v@,
{
    let mut r: Vec<RootsConfig> = Vec::new();
    let mut i: usize = 0;
    while i < v.len()
        invariant
            0 <= i <= v@.len(),
            r@ == v@.take(i as int),
        decreases v@.len() - i,
    {
        r.push(RootsConfig { path: v[i].path.clone(), store: v[i].store });
        proof {
            assert(r@ =~= v@.take(i + 1));
        }
        i = i + 1;
    }
    proof {
        assert(v@.take(v@.len() as int) =~= v@);
    }
    r
}

} // verus!
