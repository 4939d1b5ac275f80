//! An encrypted secrets vault with versioned secrets and a hash-chained audit log.
//!
//! The library holds the vault's logic: the audit chain, the envelope encryption of
//! the data key, versioned writes and reads of secrets, and their error reporting.
//! Reading and writing files is left to the caller, which hands the library what it
//! read and stores what the library produced.
pub mod audit;
pub mod crypto;
pub mod model;
pub mod text;
pub mod util;
pub mod vault;
