//! The ways in which an operation of the store can fail.

use vstd::prelude::*;

verus! {

/// Why an operation was refused or failed.
#[derive(Clone, Copy, Debug, PartialEq, Eq, Structural)]
pub enum Error {
    /// The durable storage underneath failed; the operation in flight is
    /// aborted as a whole.
    IoError,
    /// Stored bytes are not the encoding of a node.
    CorruptNode,
    /// The key has no value at the version asked for.
    NotFound,
    /// The version asked for lies outside the committed range, or does not
    /// follow the version it claims to build on.
    VersionError,
    /// A key was handed to another shard than the one that owns it, or the
    /// number of shards handed over is not the number the store was made for.
    ShardMismatch,
}

/// The short description of an error.
pub open spec fn message_of(e: Error) -> Seq<char> {
    match e {
        Error::IoError => "storage failure"@,
        Error::CorruptNode => "corrupt node"@,
        Error::NotFound => "not found"@,
        Error::VersionError => "version out of range"@,
        Error::ShardMismatch => "shard mismatch"@,
    }
}

impl Error {
    /// A short description of the error.
    pub fn message(&self) -> (s: &'static str)
        ensures
            s@ == message_of(*self),
    {
        match self {
            Error::IoError => "storage failure",
            Error::CorruptNode => "corrupt node",
            Error::NotFound => "not found",
            Error::VersionError => "version out of range",
            Error::ShardMismatch => "shard mismatch",
        }
    }
}

} // verus!
