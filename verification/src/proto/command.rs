//! The command field of a RIP message.
use vstd::prelude::*;
use crate::error::Error;

verus! {

/// What a message asks of its receiver.
#[derive(Debug, Clone, Copy, PartialEq, Eq, Structural)]
pub enum Command {
    Request,
    Response,
}

/// The byte that stands for a command on the wire.
pub open spec fn command_code(c: Command) -> u8 {
    match c {
        Command::Request => 1,
        Command::Response => 2,
    }
}

/// The command that a byte stands for, where it stands for one.
pub open spec fn command_of_code(code: u8) -> Option<Command> {
    if code == 1 {
        Some(Command::Request)
    } else if code == 2 {
        Some(Command::Response)
    } else {
        None
    }
}

impl Command {
    /// Reads a command from its byte; any byte but 1 and 2 is refused.
    pub fn from(code: u8) -> (r: Result<Command, Error>)
        ensures
            match command_of_code(code) {
                Some(c) => r == Ok::<Command, Error>(c),
                None => r == Err::<Command, Error>(Error::UnknownCommand(code)),
            },
    {
        let variant = match code {
            1 => Command::Request,
            2 => Command::Response,
            _ => return Err(Error::UnknownCommand(code)),
        };
        Ok(variant)
    }

    /// The byte that stands for this command on the wire.
    pub fn as_code(&self) -> (r: u8)
        ensures
            r == command_code(*self),
    {
        match self {
            Command::Request => 1,
            Command::Response => 2,
        }
    }
}

/// Reading back the byte of a command gives the command, and a byte that
/// reads as a command is that command's byte.
pub proof fn lemma_command_code_roundtrip(c: Command, code: u8)
    ensures
        command_of_code(command_code(c)) == Some(c),
        command_of_code(code) == Some(c) ==> command_code(c) == code,
{
}

} // verus!
