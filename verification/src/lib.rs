//! An in-memory threaded-discussion store.
//!
//! A [`store::MessageStore`] records messages, supports replies forming a
//! tree, tracks per-author message counts, and records deleted identifiers
//! permanently. Every operation is specified by a contract and verified to
//! keep the four internal structures (message table, identifier counter,
//! per-author counts, deleted-id set) mutually consistent.

pub mod counts;
pub mod message;
pub mod principal;
pub mod seqs;
pub mod store;
pub mod text;

pub use message::Message;
pub use message::MessageError;
pub use principal::Principal;
pub use store::MessageStore;
