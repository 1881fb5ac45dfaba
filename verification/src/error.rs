//! What can go wrong in the protocol logic.

use vstd::prelude::*;

verus! {

#[derive(Debug)]
pub enum Error {
    /// The configuration is unusable, for the given reason.
    Config(String),
    /// The server answered the auth request with this status.
    AuthFailed(u16),
    /// The client or the server is in no position to do what was asked, for the given reason.
    Protocol(String),
}

impl Error {
    /// Whether this is a configuration error with the text `text`.
    pub open spec fn is_config(self, text: Seq<char>) -> bool {
        self matches Error::Config(s) && s@ == text
    }

    /// Whether this is a protocol error with the text `text`.
    pub open spec fn is_protocol(self, text: Seq<char>) -> bool {
        self matches Error::Protocol(s) && s@ == text
    }

    /// A configuration error with the text `text`.
    pub fn config(text: &str) -> (e: Error)
        ensures
            e.is_config(text@),
    {
        Error::Config(text.to_owned())
    }

    /// A configuration error with the text `text` followed by `detail`.
    pub fn config_with(text: &str, detail: &str) -> (e: Error)
        ensures
            e.is_config(text@ + detail@),
    {
        Error::Config(joined_text(text, detail))
    }

    /// A protocol error with the text `text`.
    pub fn protocol(text: &str) -> (e: Error)
        ensures
            e.is_protocol(text@),
    {
        Error::Protocol(text.to_owned())
    }

    /// A protocol error with the text `text` followed by `detail`.
    pub fn protocol_with(text: &str, detail: &str) -> (e: Error)
        ensures
            e.is_protocol(text@ + detail@),
    {
        Error::Protocol(joined_text(text, detail))
    }
}

fn joined_text(a: &str, b: &str) -> (s: String)
    ensures
        s@ == a@ + b@,
{
    let s = a.to_owned();
    s.concat(b)
}

/// An error of either kind has one text, and is not of the other kind.
pub proof fn law_error_text(e: Error, text: Seq<char>)
    ensures
        e matches Error::Config(s) ==> (e.is_config(text) <==> s@ == text) && !e.is_protocol(text),
        e matches Error::Protocol(s) ==> (e.is_protocol(text) <==> s@ == text) && !e.is_config(
            text,
        ),
        e is AuthFailed ==> !e.is_config(text) && !e.is_protocol(text),
{
}

} // verus!
