//! What can go wrong in the database.
use crate::text::{put_decimal, put_hex};
#[allow(unused_imports)]
use crate::text::{decimal, hex};
use vstd::prelude::*;
use vstd::string::*;

verus! {

#[allow(inconsistent_fields)]
#[derive(Debug, PartialEq, Eq)]
pub enum Error {
    /// What the operating system said.
    Io(String),
    InvalidHeader,
    UnsupportedVersion(u16),
    Corruption { offset: u64, reason: String },
    BatchTooLarge { points: usize, maximum: usize },
    InvalidConfig(&'static str),
    /// A caller-supplied argument violates a documented precondition, such as a
    /// non-positive rollup resolution or out-of-order aggregate samples. Unlike
    /// `InvalidConfig`, which rejects a durable handle or policy setting, this
    /// rejects one runtime call.
    InvalidArgument(&'static str),
    InvalidModel(String),
    Serialization(String),
    Poisoned,
    Locked { path: String },
    ReadOnly,
    /// A no-clobber rename succeeded, but a later durability or verification
    /// step failed and the process could not fully roll its own directory back.
    SnapshotPublication { path: String, reason: String },
    SourceChanged { path: String },
    /// A producer reused one source sequence with a different transaction or
    /// commit identifier. The writer remains usable.
    IngressSourceSequenceConflict { source_id: u128, sequence: u64 },
    /// A producer reused one commit identifier for another source, sequence, or
    /// transaction payload. The writer remains usable.
    IngressCommitIdConflict { commit_id: u128 },
    /// A producer supplied a new cursor that did not advance. Gaps are valid: the
    /// sequence is an opaque source cursor, not a dense counter.
    IngressSequenceNotIncreasing { source_id: u128, previous: u64, actual: u64 },
}

/// Whether an error reports corruption at `offset` for `reason`.
pub open spec fn corrupt_at(error: Error, offset: u64, reason: Seq<char>) -> bool {
    error matches Error::Corruption { offset: o, reason: r } && o == offset && r@ == reason
}

/// Whether an error rejects an energy model for `reason`.
pub open spec fn invalid_model(error: Error, reason: Seq<char>) -> bool {
    error matches Error::InvalidModel(r) && r@ == reason
}

/// Whether an error reports that a value cannot be written for `reason`.
pub open spec fn unserializable(error: Error, reason: Seq<char>) -> bool {
    error matches Error::Serialization(r) && r@ == reason
}

pub fn corruption(offset: u64, reason: &str) -> (error: Error)
    ensures
        corrupt_at(error, offset, reason@),
{
    Error::Corruption { offset, reason: reason.to_owned() }
}

/// What an error says.
pub open spec fn error_text(error: Error) -> Seq<char> {
    match error {
        Error::Io(reason) => "I/O error: "@ + reason@,
        Error::InvalidHeader => "invalid FTWDB file header"@,
        Error::UnsupportedVersion(version) => "unsupported FTWDB format version "@ + decimal(
            version as nat,
        ),
        Error::Corruption { offset, reason } => "corruption at file offset "@ + decimal(
            offset as nat,
        ) + ": "@ + reason@,
        Error::BatchTooLarge { points, maximum } => "batch has "@ + decimal(points as nat)
            + " points; maximum is "@ + decimal(maximum as nat),
        Error::InvalidConfig(reason) => "invalid configuration: "@ + reason@,
        Error::InvalidArgument(reason) => "invalid argument: "@ + reason@,
        Error::InvalidModel(reason) => "invalid energy model: "@ + reason@,
        Error::Serialization(reason) => "serialization error: "@ + reason@,
        Error::Poisoned =>
            "database writer is poisoned after a failed write; close and reopen it"@,
        Error::Locked { path } => "database file "@ + path@
            + " is locked by another process; close the other opener first"@,
        Error::ReadOnly => "database is open read-only; reopen it writable to modify it"@,
        Error::SnapshotPublication { path, reason } => "snapshot publication at "@ + path@
            + " could not be rolled back cleanly: "@ + reason@,
        Error::SourceChanged { path } => "source file "@ + path@
            + " changed while it was being checked"@,
        Error::IngressSourceSequenceConflict { source_id, sequence } => "ingress source "@ + hex(
            source_id as nat,
            32,
        ) + " sequence "@ + decimal(sequence as nat) + " conflicts with its stored transaction"@,
        Error::IngressCommitIdConflict { commit_id } => "commit identifier "@ + hex(
            commit_id as nat,
            32,
        ) + " conflicts with its stored transaction"@,
        Error::IngressSequenceNotIncreasing { source_id, previous, actual } => "ingress source "@
            + hex(source_id as nat, 32) + " requires a cursor above "@ + decimal(previous as nat)
            + ", got "@ + decimal(actual as nat),
    }
}

impl Error {
    /// What the error says.
    pub fn message(&self) -> (text: String)
        ensures
            text@ == error_text(*self),
    {
        let mut text = String::new();
        match self {
            Error::Io(reason) => {
                text.append("I/O error: ");
                text.append(reason.as_str());
            },
            Error::InvalidHeader => {
                text.append("invalid FTWDB file header");
            },
            Error::UnsupportedVersion(version) => {
                text.append("unsupported FTWDB format version ");
                put_decimal(&mut text, *version as u128);
            },
            Error::Corruption { offset, reason } => {
                text.append("corruption at file offset ");
                put_decimal(&mut text, *offset as u128);
                text.append(": ");
                text.append(reason.as_str());
            },
            Error::BatchTooLarge { points, maximum } => {
                text.append("batch has ");
                put_decimal(&mut text, *points as u128);
                text.append(" points; maximum is ");
                put_decimal(&mut text, *maximum as u128);
            },
            Error::InvalidConfig(reason) => {
                text.append("invalid configuration: ");
                text.append(reason);
            },
            Error::InvalidArgument(reason) => {
                text.append("invalid argument: ");
                text.append(reason);
            },
            Error::InvalidModel(reason) => {
                text.append("invalid energy model: ");
                text.append(reason.as_str());
            },
            Error::Serialization(reason) => {
                text.append("serialization error: ");
                text.append(reason.as_str());
            },
            Error::Poisoned => {
                text.append(
                    "database writer is poisoned after a failed write; close and reopen it",
                );
            },
            Error::Locked { path } => {
                text.append("database file ");
                text.append(path.as_str());
                text.append(" is locked by another process; close the other opener first");
            },
            Error::ReadOnly => {
                text.append("database is open read-only; reopen it writable to modify it");
            },
            Error::SnapshotPublication { path, reason } => {
                text.append("snapshot publication at ");
                text.append(path.as_str());
                text.append(" could not be rolled back cleanly: ");
                text.append(reason.as_str());
            },
            Error::SourceChanged { path } => {
                text.append("source file ");
                text.append(path.as_str());
                text.append(" changed while it was being checked");
            },
            Error::IngressSourceSequenceConflict { source_id, sequence } => {
                text.append("ingress source ");
                put_hex(&mut text, *source_id, 32);
                text.append(" sequence ");
                put_decimal(&mut text, *sequence as u128);
                text.append(" conflicts with its stored transaction");
            },
            Error::IngressCommitIdConflict { commit_id } => {
                text.append("commit identifier ");
                put_hex(&mut text, *commit_id, 32);
                text.append(" conflicts with its stored transaction");
            },
            Error::IngressSequenceNotIncreasing { source_id, previous, actual } => {
                text.append("ingress source ");
                put_hex(&mut text, *source_id, 32);
                text.append(" requires a cursor above ");
                put_decimal(&mut text, *previous as u128);
                text.append(", got ");
                put_decimal(&mut text, *actual as u128);
            },
        }
        assert(text@ =~= error_text(*self));
        text
    }
}

} // verus!
