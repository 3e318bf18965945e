//! Cryptographic attribution and provenance evidence: broadcast encryption,
//! per-session text watermarks, signed decryption records and a hash-chained
//! evidence ledger, with their contracts proved by Verus.
pub mod codec;
pub mod primitives;
pub mod record;
pub mod watermark;
pub mod pqc;
pub mod crypt;
pub mod ledger;
pub mod sync;
pub mod forensics;
pub mod session;
