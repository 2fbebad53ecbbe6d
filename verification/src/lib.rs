//! A local-first note store that keeps a structured catalog and a directory
//! of markdown files with YAML front matter permanently consistent.
use vstd::prelude::*;

pub mod catalog;
pub mod codec;
pub mod codec_laws;
pub mod controller;
pub mod crypto;
pub mod export;
pub mod host;
pub mod models;
pub mod note;
pub mod reconcile;
pub mod tags;
pub mod text;
pub mod vault;
pub mod watcher;

verus! {

/// Relies on `core::mem::replace`: moves `src` into the referent and
/// returns the value that was there.
pub assume_specification<T>[ core::mem::replace ](dest: &mut T, src: T) -> (r: T)
    ensures
        *final(dest) == src,
        r == *old(dest),
;

/// The kinds of failure the library distinguishes.
#[derive(Clone, Copy, Debug, PartialEq, Eq, Structural)]
pub enum ErrorKind {
    NotFound,
    Malformed,
    Io,
    Lock,
    Unavailable,
}

/// An error with its kind and a human-readable message.
#[derive(Clone, Debug)]
pub struct Error {
    pub kind: ErrorKind,
    pub message: String,
}

impl Error {
    pub fn new(kind: ErrorKind, message: String) -> (r: Error)
        ensures
            r.kind == kind,
            r.message@ == message@,
    {
        Error { kind, message }
    }

    /// The human-readable message, for display by callers.
    pub fn message(&self) -> (r: String)
        ensures
            r@ == self.message@,
    {
        self.message.clone()
    }
}

} // verus!
