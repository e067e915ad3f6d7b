//! The errors of running the server as a child process, how a command line
//! splits into a program and its arguments, and what each outcome of waiting
//! on the child makes of the wait.

use vstd::prelude::*;
use crate::text::{split_words, words};

verus! {

/// `std::io::Error`, declared so that errors can carry it; it is opaque here.
#[verifier::external_type_specification]
#[verifier::external_body]
pub struct ExIoError(std::io::Error);

/// Error types for the crate.
#[derive(Debug)]
pub enum Error {
    /// Failed to spawn the process.
    Spawn(std::io::Error),
    /// Failed to wait on the process.
    Wait(std::io::Error),
    /// Failed to kill the process.
    Kill(std::io::Error),
    /// The server did not start listening in time.
    ServerStartTimeout,
    /// The server did not exit in time.
    ServerExitTimeout,
}

/// An `std::io::Error` of kind `InvalidInput` with the message `message`,
/// made by `std::io::Error::new`. Nothing is claimed of it: the value is
/// opaque here and only carried to the caller.
#[verifier::external_body]
fn invalid_input(message: &str) -> std::io::Error {
    std::io::Error::new(std::io::ErrorKind::InvalidInput, message.to_string())
}

/// The program and the arguments of the command line `cmd`: its first word
/// and the words after it. A line without a word is a spawn error.
pub fn split_command_line(cmd: &str) -> (r: Result<(String, Vec<String>), Error>)
    ensures
        match r {
            Ok((path, args)) => {
                &&& words(cmd@).len() > 0
                &&& path@ == words(cmd@)[0]
                &&& args@.len() == words(cmd@).len() - 1
                &&& forall|i: int| 0 <= i < args@.len() ==> (#[trigger] args@[i])@ == words(cmd@)[i + 1]
            },
            Err(e) => words(cmd@).len() == 0 && e is Spawn,
        },
{
    let mut parts = split_words(cmd);
    if parts.len() == 0 {
        return Err(Error::Spawn(invalid_input("Empty command line")));
    }
    let ghost all = parts@;
    let path = parts.remove(0);
    proof {
        assert forall|i: int| 0 <= i < parts@.len() implies (#[trigger] parts@[i])@ == words(cmd@)[i + 1] by {
            assert(parts@[i] == all[i + 1]);
        }
    }
    Ok((path, parts))
}

/// What a wait on the child makes of one poll of its state: `Some` ends the
/// wait with the exit status, or with a wait error where the poll failed;
/// `None` waits on.
pub fn poll_outcome<S>(poll: Result<Option<S>, std::io::Error>) -> (r: Option<Result<S, Error>>)
    ensures
        match poll {
            Ok(Some(s)) => r == Some(Ok::<S, Error>(s)),
            Ok(None) => r is None,
            Err(e) => r == Some(Err::<S, Error>(Error::Wait(e))),
        },
{
    match poll {
        Ok(Some(status)) => Some(Ok(status)),
        Ok(None) => None,
        Err(e) => Some(Err(Error::Wait(e))),
    }
}

/// The error that ends a wait that ran out of time, once the child was told
/// to stop: a kill error where that failed, else the timeout.
pub fn timeout_outcome(kill: Result<(), std::io::Error>) -> (e: Error)
    ensures
        match kill {
            Ok(()) => e is ServerExitTimeout,
            Err(k) => e == Error::Kill(k),
        },
{
    match kill {
        Ok(()) => Error::ServerExitTimeout,
        Err(k) => Error::Kill(k),
    }
}

} // verus!
