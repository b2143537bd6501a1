//! Log sources. Every source pushes [`Line`]s into one channel consumed by the
//! engine; the engine routes by `origin`.

use vstd::prelude::*;

pub mod file;
pub mod journal;

verus! {

#[derive(Debug, Clone)]
pub enum Origin {
    /// A followed file, by path pattern as configured.
    File(String),
    /// A journald entry with its routing fields.
    ///
    /// `unit` and `uid` come from journald's trusted (`_`-prefixed) fields,
    /// which the sender cannot forge. `identifier` is client-supplied
    /// (`logger -t sshd` sets it freely) and `comm` is trivially chosen by
    /// renaming a binary, so the engine only honours those two when `uid`
    /// is a system account.
    Journal {
        unit: Option<String>,
        identifier: Option<String>,
        comm: Option<String>,
        uid: Option<u32>,
    },
}

#[derive(Debug, Clone)]
pub struct Line {
    pub origin: Origin,
    pub text: String,
}

/// The first user id that is not a system account's.
pub const FIRST_USER_UID: u32 = 1000;

/// Whether the sender of an entry is a system account.
pub open spec fn is_system(uid: Option<u32>) -> bool {
    uid matches Some(u) && u < FIRST_USER_UID
}

} // verus!
