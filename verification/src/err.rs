//! Errors surfaced by the store.

use vstd::prelude::*;

verus! {

/// What can go wrong in the store or around it.
#[derive(Debug)]
pub enum KvStoreErr {
    /// A filesystem failure; raised by the caller that performs the file
    /// operations the store asks for.
    IOErr(String),
    /// `remove` was asked for a key that is not present.
    KeyNotFound(String),
    /// An internal invariant was broken.
    InnerErr(String),
    /// Bytes read from storage are not valid UTF-8.
    SystemErr(String),
    /// A malformed or unknown frame arrived over the wire.
    UnexceptErr(String),
    /// The buffer does not yet hold one complete frame.
    IncompleteErr,
}

impl KvStoreErr {
    /// A short description of the error.
    pub fn message(&self) -> String {
        match self {
            KvStoreErr::IOErr(msg) => msg.clone(),
            KvStoreErr::KeyNotFound(key) => key.clone(),
            KvStoreErr::InnerErr(msg) => msg.clone(),
            KvStoreErr::SystemErr(msg) => msg.clone(),
            KvStoreErr::UnexceptErr(msg) => msg.clone(),
            KvStoreErr::IncompleteErr => "incomplete frame".to_owned(),
        }
    }
}

} // verus!
