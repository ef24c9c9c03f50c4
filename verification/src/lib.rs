//! Authenticated program-state storage core for a blockchain virtual machine:
//! a structured value model for on-chain data (`Plaintext`), a path-based
//! accessor into that structure (`find`), and a journal of state mutations
//! (`FinalizeOperation`) applied to persistent key-value mappings, together
//! with its exact inverse log (`RollbackOperation`).

pub mod access;
pub mod errors;
pub mod identifier;
pub mod plaintext;
pub mod field_id;
pub mod finalize;
pub mod rollback;
pub mod store;
