//! Typed failures of the command layer.
//!
//! A value of [`Error`] is what a handler or the dispatch layer hands back
//! when a request cannot be served; the connection stays open and the value
//! is rendered as a protocol error string for the client.  Failures of the
//! wire codec itself are a different kind (they end the connection) and live
//! in [`crate::codec`].

use vstd::prelude::*;
use vstd::string::StringSliceAdditionalSpecFns;

use crate::bytes::{push_all, str_bytes};

verus! {

/// A failure of command lookup, argument validation, or the execution
/// context, surfaced to the client as a protocol error value.
#[derive(Debug, PartialEq, Eq)]
pub enum Error {
    /// An option token of a command was not understood.
    Syntax,
    /// A command was called with the wrong number of arguments; the field
    /// holds the command name.
    WrongArgNumber(Vec<u8>),
    /// A key holds a value of a kind the operation cannot work on.
    WrongType,
    /// An argument that had to be an integer was not one, or was out of
    /// range.
    InvalidInteger,
    /// No handler is registered under the requested name; the field holds
    /// the name as it arrived.
    CommandNotFound(Vec<u8>),
    /// The request's deadline has passed.
    TimedOut,
    /// The request's retry budget is used up.
    NoRetriesLeft,
}

/// Ghost model of a failure, with byte vectors replaced by sequences.
pub enum ErrorData {
    /// An option token of a command was not understood.
    Syntax,
    /// Wrong number of arguments for the named command.
    WrongArgNumber(Seq<u8>),
    /// A key holds a value of a kind the operation cannot work on.
    WrongType,
    /// An argument that had to be an integer was not one.
    InvalidInteger,
    /// No handler is registered under the named command.
    CommandNotFound(Seq<u8>),
    /// The request's deadline has passed.
    TimedOut,
    /// The request's retry budget is used up.
    NoRetriesLeft,
}

impl View for Error {
    type V = ErrorData;

    open spec fn view(&self) -> ErrorData {
        match self {
            Error::Syntax => ErrorData::Syntax,
            Error::WrongArgNumber(cmd) => ErrorData::WrongArgNumber(cmd@),
            Error::WrongType => ErrorData::WrongType,
            Error::InvalidInteger => ErrorData::InvalidInteger,
            Error::CommandNotFound(name) => ErrorData::CommandNotFound(name@),
            Error::TimedOut => ErrorData::TimedOut,
            Error::NoRetriesLeft => ErrorData::NoRetriesLeft,
        }
    }
}

/// The message text shown for an unknown command.
pub open spec fn spec_command_not_found_msg(name: Seq<u8>) -> Seq<u8> {
    "Command ".spec_bytes() + name + " not found".spec_bytes()
}

/// The message text shown for a wrong argument count.
pub open spec fn spec_wrong_arg_msg(cmd: Seq<u8>) -> Seq<u8> {
    "wrong number of arguments of '".spec_bytes() + cmd + "' command".spec_bytes()
}

/// The message text a given failure shows to the client.
pub open spec fn spec_message(e: ErrorData) -> Seq<u8> {
    match e {
        ErrorData::Syntax => "syntax error".spec_bytes(),
        ErrorData::WrongArgNumber(cmd) => spec_wrong_arg_msg(cmd),
        ErrorData::WrongType =>
            "WRONGTYPE Operation against a key holding the wrong kind of value".spec_bytes(),
        ErrorData::InvalidInteger => "value is not an integer or out of range".spec_bytes(),
        ErrorData::CommandNotFound(name) => spec_command_not_found_msg(name),
        ErrorData::TimedOut => "Timeout".spec_bytes(),
        ErrorData::NoRetriesLeft => "No more retries".spec_bytes(),
    }
}

impl Error {
    /// Renders the failure as its client-visible message text.
    pub fn message(&self) -> (r: Vec<u8>)
        ensures
            r@ == spec_message(self@),
    {
        match self {
            Error::Syntax => str_bytes("syntax error"),
            Error::WrongArgNumber(cmd) => {
                let mut m = str_bytes("wrong number of arguments of '");
                push_all(&mut m, cmd);
                let t = str_bytes("' command");
                push_all(&mut m, &t);
                m
            },
            Error::WrongType => str_bytes(
                "WRONGTYPE Operation against a key holding the wrong kind of value",
            ),
            Error::InvalidInteger => str_bytes("value is not an integer or out of range"),
            Error::CommandNotFound(name) => {
                let mut m = str_bytes("Command ");
                push_all(&mut m, name);
                let t = str_bytes(" not found");
                push_all(&mut m, &t);
                m
            },
            Error::TimedOut => str_bytes("Timeout"),
            Error::NoRetriesLeft => str_bytes("No more retries"),
        }
    }
}

} // verus!
