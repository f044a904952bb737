//! Errors of the library.

use vstd::prelude::*;

use crate::text::{decimal, push_decimal};

verus! {

/// What kind of failure an input or output operation met.
#[derive(Debug, Clone, Copy, PartialEq, Eq, Structural)]
pub enum IoFailureKind {
    NotFound,
    InvalidInput,
    /// Any other kind.
    Other,
}

/// The failure of an input or output operation.
#[derive(Debug)]
pub struct IoFailure {
    pub kind: IoFailureKind,
    pub message: String,
}

/// `failure` is of this kind, with exactly this message.
pub open spec fn io_failure(failure: IoFailure, kind: IoFailureKind, message: Seq<char>) -> bool {
    failure.kind == kind && failure.message@ == message
}

/// Why an operation was refused.
#[derive(Debug)]
pub enum Error {
    EmptyKey,
    KeyTooLarge { len: usize, maximum: usize },
    InvalidConfig(String),
    InvalidSuperblock(String),
    Index(String),
    CheckpointFailed(String),
    StoredEntryTooLarge { len: usize, maximum: usize },
    EmptyValue,
    /// An operation on a file failed.
    Io { context: String, source: IoFailure },
    /// The surrounding cache failed.
    Foyer { context: String, reason: String },
}

/// `error` is `InvalidConfig` with exactly this message.
pub open spec fn config_error(error: Error, message: Seq<char>) -> bool {
    error matches Error::InvalidConfig(text) && text@ == message
}

/// `error` is `InvalidSuperblock` with exactly this message.
pub open spec fn superblock_error(error: Error, message: Seq<char>) -> bool {
    error matches Error::InvalidSuperblock(text) && text@ == message
}

/// `error` is `Index` with exactly this message.
pub open spec fn index_error(error: Error, message: Seq<char>) -> bool {
    error matches Error::Index(text) && text@ == message
}

pub(crate) fn invalid_config(message: &str) -> (error: Error)
    ensures
        config_error(error, message@),
{
    Error::InvalidConfig(message.to_owned())
}

pub(crate) fn invalid_superblock(message: &str) -> (error: Error)
    ensures
        superblock_error(error, message@),
{
    Error::InvalidSuperblock(message.to_owned())
}

impl Error {
    /// The failure of an operation on a file.
    pub fn io(context: &str, source: IoFailure) -> (error: Error)
        ensures
            error matches Error::Io { context: c, source: s } && c@ == context@ && s == source,
    {
        Error::Io { context: context.to_owned(), source }
    }

    /// A failure of the surrounding cache.
    pub fn foyer(context: &str, reason: &str) -> (error: Error)
        ensures
            error matches Error::Foyer { context: c, reason: r } && c@ == context@ && r@ == reason@,
    {
        Error::Foyer { context: context.to_owned(), reason: reason.to_owned() }
    }

    /// The text shown for an error.
    pub open spec fn rendered(self) -> Seq<char> {
        match self {
            Error::EmptyKey => "entry key must not be empty"@,
            Error::KeyTooLarge { len, maximum } => "entry key is too large: len="@ + decimal(len as nat)
                + ", maximum="@ + decimal(maximum as nat),
            Error::InvalidConfig(message) => "invalid Extent config: "@ + message@,
            Error::InvalidSuperblock(message) => "invalid ExtentStore superblock: "@ + message@,
            Error::Index(message) => "EntryIndex error: "@ + message@,
            Error::CheckpointFailed(message) => "ExtentStore checkpoint failed: "@ + message@,
            Error::StoredEntryTooLarge { len, maximum } => "stored entry is too large: len="@ + decimal(
                len as nat,
            ) + ", maximum="@ + decimal(maximum as nat),
            Error::EmptyValue => "entry value must not be empty"@,
            Error::Io { context, source } => "Extent I/O error ("@ + context@ + "): "@ + source.message@,
            Error::Foyer { context, reason } => "extent cache error ("@ + context@ + "): "@ + reason@,
        }
    }

    /// The error as text.
    pub fn message(&self) -> (text: String)
        ensures
            text@ == self.rendered(),
    {
        match self {
            Error::EmptyKey => "entry key must not be empty".to_owned(),
            Error::KeyTooLarge { len, maximum } => {
                let mut text = "entry key is too large: len=".to_owned();
                push_decimal(&mut text, *len as u64);
                text.append(", maximum=");
                push_decimal(&mut text, *maximum as u64);
                text
            },
            Error::InvalidConfig(message) => {
                let mut text = "invalid Extent config: ".to_owned();
                text.append(message.as_str());
                text
            },
            Error::InvalidSuperblock(message) => {
                let mut text = "invalid ExtentStore superblock: ".to_owned();
                text.append(message.as_str());
                text
            },
            Error::Index(message) => {
                let mut text = "EntryIndex error: ".to_owned();
                text.append(message.as_str());
                text
            },
            Error::CheckpointFailed(message) => {
                let mut text = "ExtentStore checkpoint failed: ".to_owned();
                text.append(message.as_str());
                text
            },
            Error::StoredEntryTooLarge { len, maximum } => {
                let mut text = "stored entry is too large: len=".to_owned();
                push_decimal(&mut text, *len as u64);
                text.append(", maximum=");
                push_decimal(&mut text, *maximum as u64);
                text
            },
            Error::EmptyValue => "entry value must not be empty".to_owned(),
            Error::Io { context, source } => {
                let mut text = "Extent I/O error (".to_owned();
                text.append(context.as_str());
                text.append("): ");
                text.append(source.message.as_str());
                text
            },
            Error::Foyer { context, reason } => {
                let mut text = "extent cache error (".to_owned();
                text.append(context.as_str());
                text.append("): ");
                text.append(reason.as_str());
                text
            },
        }
    }
}

} // verus!
