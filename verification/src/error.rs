//! What can go wrong while a library is audited.

use vstd::prelude::*;
use crate::marker::{append_label, label};

verus! {

/// A failure, or an outcome that only skips one show.
#[derive(Debug)]
pub enum Error {
    /// A directory could not be listed; the payload is the system's message.
    Io(String),
    /// A text is not what it was expected to be.
    Parse,
    /// The catalog answered with data that could not be read.
    WrongJSON(String),
    /// The catalog could not be reached or does not know the show.
    CannotLoad,
    /// A path has no base name.
    InvalidFile(String),
    /// The catalog does not list the episode with this season and number.
    NotFound(u16, u8),
}

impl Error {
    /// An [`Error::InvalidFile`] for `path`.
    pub fn invalid_file(path: &str) -> (e: Error)
        ensures
            e matches Error::InvalidFile(p) && p@ == path@,
    {
        Error::InvalidFile(String::from_str(path))
    }

    /// What [`Error::message`] says.
    pub open spec fn message_text(&self) -> Seq<char> {
        match self {
            Error::Io(reason) => "i/o error: "@ + reason@,
            Error::Parse => "error parsing input"@,
            Error::WrongJSON(reason) => "wrong JSON data: "@ + reason@,
            Error::CannotLoad => "cannot load show from the API"@,
            Error::InvalidFile(path) => "invalid file "@ + path@,
            Error::NotFound(season, number) => "episode "@ + label(*season, *number)
                + " not found"@,
        }
    }

    /// The failure in words, for a person to read.
    pub fn message(&self) -> (text: String)
        ensures
            text@ == self.message_text(),
    {
        match self {
            Error::Io(reason) => String::from_str("i/o error: ").concat(reason.as_str()),
            Error::Parse => String::from_str("error parsing input"),
            Error::WrongJSON(reason) => String::from_str("wrong JSON data: ").concat(
                reason.as_str(),
            ),
            Error::CannotLoad => String::from_str("cannot load show from the API"),
            Error::InvalidFile(path) => String::from_str("invalid file ").concat(path.as_str()),
            Error::NotFound(season, number) => {
                let mut text = String::from_str("episode ");
                append_label(&mut text, *season, *number);
                text.append(" not found");
                text
            },
        }
    }

    /// Whether the failure ends the whole audit. The others concern one show
    /// only, which is then skipped.
    pub open spec fn fatal(&self) -> bool {
        self is Io
    }

    /// Whether the failure ends the whole audit.
    pub fn is_fatal(&self) -> (fatal: bool)
        ensures
            fatal == self.fatal(),
    {
        match self {
            Error::Io(_) => true,
            _ => false,
        }
    }
}

} // verus!
