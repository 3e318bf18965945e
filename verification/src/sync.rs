//! Extension point for multi-site offline synchronisation of ledger segments
//! carried on removable media.
use vstd::prelude::*;
use crate::ledger::{Ledger, LedgerError};

verus! {

/// Imports a separately signed, offline-carried ledger segment. No proof and
/// authorisation policy for segments exists yet, so every segment is refused.
pub fn import_remote_segment(ledger: &Ledger, segment: &[u8]) -> (r: Result<(), LedgerError>)
    ensures
        r == Err::<(), LedgerError>(LedgerError::SyncNotImplemented),
{
    Err(LedgerError::SyncNotImplemented)
}

} // verus!
