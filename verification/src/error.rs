//! What can go wrong with a feed, and how it is worded.
use vstd::prelude::*;
use vstd::string::*;

verus! {

/// An error of the engine. Each holds the text of the error that it stands for.
#[derive(Debug)]
pub enum Error {
    BadConnection(String),
    BadData(String),
    IoError(String),
    BadAddr(String),
}

impl Error {
    /// The message, as contracts see it.
    pub open spec fn message(self) -> Seq<char> {
        match self {
            Error::BadConnection(e) => "WebSocket connection error: "@ + e@,
            Error::BadData(e) => "Data parse error: "@ + e@,
            Error::IoError(e) => "I/O error: "@ + e@,
            Error::BadAddr(e) => "Address parse error: "@ + e@,
        }
    }

    /// The message: what failed, and the text of the error behind it.
    pub fn to_string(&self) -> (s: String)
        ensures
            s@ == self.message(),
    {
        match self {
            Error::BadConnection(e) => {
                "WebSocket connection error: ".to_owned().concat(e.as_str())
            },
            Error::BadData(e) => "Data parse error: ".to_owned().concat(e.as_str()),
            Error::IoError(e) => "I/O error: ".to_owned().concat(e.as_str()),
            Error::BadAddr(e) => "Address parse error: ".to_owned().concat(e.as_str()),
        }
    }
}

/// A message says what failed and ends in the text of the error behind it, whatever that text is.
pub proof fn law_messages_keep_the_cause(text: String)
    ensures
        Error::BadConnection(text).message() == "WebSocket connection error: "@ + text@,
        Error::BadData(text).message() == "Data parse error: "@ + text@,
        Error::IoError(text).message() == "I/O error: "@ + text@,
        Error::BadAddr(text).message() == "Address parse error: "@ + text@,
{
}

} // verus!
