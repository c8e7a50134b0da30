//! A library for a competitive-programming study companion: it turns a
//! fetched problem page into a structured `Problem` record and keeps a
//! small local store of cached problems, chat transcripts and a daily
//! solve ledger with derived activity statistics.

pub mod chat;
pub mod encode;
pub mod extract;
pub mod store;
pub mod text;

use vstd::prelude::*;

verus! {

/// The failures the library and its callers distinguish: a page that the
/// remote source does not have, a transport failure reaching it, a body
/// that could not be read, a page whose title cannot be extracted, and a
/// storage-engine failure.
#[derive(Debug)]
pub enum CoreError {
    NotFound(String),
    FetchError(String),
    ReadError(String),
    ParseFailure(String),
    StorageError(String),
}

impl CoreError {
    /// The human-readable message carried by the error.
    pub fn message(&self) -> (r: String)
        ensures
            r@ == self.message_spec(),
    {
        match self {
            CoreError::NotFound(m) => m.clone(),
            CoreError::FetchError(m) => m.clone(),
            CoreError::ReadError(m) => m.clone(),
            CoreError::ParseFailure(m) => m.clone(),
            CoreError::StorageError(m) => m.clone(),
        }
    }

    pub open spec fn message_spec(&self) -> Seq<char> {
        match self {
            CoreError::NotFound(m) => m@,
            CoreError::FetchError(m) => m@,
            CoreError::ReadError(m) => m@,
            CoreError::ParseFailure(m) => m@,
            CoreError::StorageError(m) => m@,
        }
    }
}

} // verus!
