//! What can be wrong with a log.

use vstd::prelude::*;
use vstd::string::*;

use crate::raft::Index;
use crate::text::{decimal, push_decimal};
use crate::wire::{malformed_text, Malformed};

verus! {

#[derive(Debug)]
pub enum Error {
    /// The filesystem failed, and this is what it said.
    Io(String),
    Codec(Malformed),
    /// The log directory is already open by another handle.
    Locked(String),
    /// A record whose checksum matched but whose kind means nothing to this
    /// build. Deliberately fatal: the bytes are exactly what was written, so
    /// skipping it would produce a different log rather than a smaller one.
    UnknownKind(u8),
    /// An `Entries` record that does not continue the log. A writer that
    /// overwrites history must emit a `Truncate` first.
    Discontiguous { expected: Index, found: Index },
    /// A torn tail is expected at the end of the log and nowhere else. A hole in
    /// the middle is not a crash artifact, and guessing past it is worse than
    /// refusing.
    Damaged { path: String, reason: String },
    RecordTooLarge { len: usize, max: u32 },
}

/// What an [`Error`] says, without how an encoding was malformed.
pub enum ErrorView {
    Io(Seq<char>),
    Codec,
    Locked(Seq<char>),
    UnknownKind(u8),
    Discontiguous { expected: Index, found: Index },
    Damaged { path: Seq<char>, reason: Seq<char> },
    RecordTooLarge { len: usize, max: u32 },
}

impl View for Error {
    type V = ErrorView;

    open spec fn view(&self) -> ErrorView {
        match self {
            Error::Io(why) => ErrorView::Io(why@),
            Error::Codec(_) => ErrorView::Codec,
            Error::Locked(path) => ErrorView::Locked(path@),
            Error::UnknownKind(kind) => ErrorView::UnknownKind(*kind),
            Error::Discontiguous { expected, found } => ErrorView::Discontiguous {
                expected: *expected,
                found: *found,
            },
            Error::Damaged { path, reason } => ErrorView::Damaged { path: path@, reason: reason@ },
            Error::RecordTooLarge { len, max } => ErrorView::RecordTooLarge {
                len: *len,
                max: *max,
            },
        }
    }
}

/// What a log error says.
pub open spec fn log_error_text(e: Error) -> Seq<char> {
    match e {
        Error::Io(why) => "io error: "@ + why@,
        Error::Codec(m) => "encoding error: "@ + malformed_text(m),
        Error::Locked(path) => "log directory is already open by another handle: "@ + path@,
        Error::UnknownKind(kind) => "unknown record kind "@ + decimal(kind as nat),
        Error::Discontiguous { expected, found } => "log is not contiguous: expected index "@ + decimal(expected as nat) + ", found "@ + decimal(found as nat),
        Error::Damaged { path, reason } => path@ + " is damaged below the end of the log: "@ + reason@,
        Error::RecordTooLarge { len, max } => "record of "@ + decimal(len as nat) + " bytes exceeds the "@ + decimal(max as nat) + "-byte limit"@,
    }
}

impl Error {
    /// What went wrong, for a person.
    pub fn message(&self) -> (r: String)
        ensures
            r@ == log_error_text(*self),
    {
        let mut out = String::new();
        match self {
            Error::Io(why) => {
                out.append("io error: ");
                out.append(why.as_str());
            },
            Error::Codec(m) => {
                out.append("encoding error: ");
                out.append(m.message().as_str());
            },
            Error::Locked(path) => {
                out.append("log directory is already open by another handle: ");
                out.append(path.as_str());
            },
            Error::UnknownKind(kind) => {
                out.append("unknown record kind ");
                push_decimal(&mut out, *kind as u64);
            },
            Error::Discontiguous { expected, found } => {
                out.append("log is not contiguous: expected index ");
                push_decimal(&mut out, *expected);
                out.append(", found ");
                push_decimal(&mut out, *found);
            },
            Error::Damaged { path, reason } => {
                out.append(path.as_str());
                out.append(" is damaged below the end of the log: ");
                out.append(reason.as_str());
            },
            Error::RecordTooLarge { len, max } => {
                out.append("record of ");
                push_decimal(&mut out, *len as u64);
                out.append(" bytes exceeds the ");
                push_decimal(&mut out, *max as u64);
                out.append("-byte limit");
            },
        }
        proof {
            assert(out@ =~= log_error_text(*self));
        }
        out
    }
}

impl Error {
    /// What a lock that could not be taken means: another handle has the
    /// directory where the lock would have blocked, and the filesystem failed
    /// otherwise.
    pub fn from_lock(would_block: bool, dir: &str, why: String) -> (r: Error)
        ensures
            r@ == if would_block {
                ErrorView::Locked(dir@)
            } else {
                ErrorView::Io(why@)
            },
    {
        if would_block {
            Error::Locked(dir.to_owned())
        } else {
            Error::Io(why)
        }
    }
}

} // verus!
