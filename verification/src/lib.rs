//! A save-data backup and restore engine for games: a catalog of where games
//! keep their saves, a scanner that classifies the live files against the
//! previous backup, a retention-bounded full-plus-differential backup store,
//! duplicate detection across games, title lookup, and the supervisor logic
//! for an external cloud synchronizer. The operations' decisions and data
//! transformations live here with their contracts; the shell around the
//! crate does the I/O.

pub mod cloud;
pub mod commit;
pub mod dupes;
pub mod errors;
pub mod layout;
pub mod manifest;
pub mod modal;
pub mod ops;
pub mod ranking;
pub mod report;
pub mod resolver;
pub mod scan;
pub mod subjects;
pub mod text;
pub mod time;
pub mod titles;
pub mod zipfmt;

use vstd::prelude::*;

verus! {

/// Resolves a pair of opposing command-line switches against a configured
/// default: an explicit "on" wins, then an explicit "off", else the default.
pub fn negatable_flag(on: bool, off: bool, default: bool) -> (r: bool)
    ensures
        on ==> r,
        (!on && off) ==> !r,
        (!on && !off) ==> r == default,
{
    if on {
        true
    } else if off {
        false
    } else {
        default
    }
}

} // verus!
