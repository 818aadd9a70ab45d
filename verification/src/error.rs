//! The error taxonomy of the library.  Errors from outside crates are carried
//! as their rendered message text, so every variant holds plain data.

use vstd::prelude::*;

verus! {

#[derive(Debug)]
pub enum HttpieError {
    /// An input/output failure, with its message.
    Io(String),
    /// A transport failure, with its message.
    Http(String),
    /// A malformed JSON document, with the parser's message.
    Json(String),
    /// A general parse failure.
    Parse(String),
    /// A request line whose method token is not a supported method.
    InvalidMethod(String),
    /// A document or environment file that could not be read.
    FileNotFound(String),
    /// A request line with fewer than two tokens.
    InvalidRequest(String),
    /// A script that failed outside any test block, or a missing sandbox.
    ScriptError(String),
    /// A script that could not be parsed.
    ScriptParsingError(String),
}

/// The rendered form of an error: a fixed prefix naming the kind, then the
/// carried message.
pub open spec fn error_text(e: HttpieError) -> Seq<char> {
    match e {
        HttpieError::Io(m) => "IO error: "@ + m@,
        HttpieError::Http(m) => "HTTP error: "@ + m@,
        HttpieError::Json(m) => "JSON parsing error: "@ + m@,
        HttpieError::Parse(m) => "Parse error: "@ + m@,
        HttpieError::InvalidMethod(m) => "Invalid HTTP method: "@ + m@,
        HttpieError::FileNotFound(m) => "File not found: "@ + m@,
        HttpieError::InvalidRequest(m) => "Invalid request format: "@ + m@,
        HttpieError::ScriptError(m) => "Script execution error: "@ + m@,
        HttpieError::ScriptParsingError(m) => "Script parsing error: "@ + m@,
    }
}

impl HttpieError {
    /// One line describing the error: kind prefix, then message.
    pub fn message(&self) -> (r: String)
        ensures
            r@ == error_text(*self),
    {
        let (prefix, m): (&str, &String) = match self {
            HttpieError::Io(m) => ("IO error: ", m),
            HttpieError::Http(m) => ("HTTP error: ", m),
            HttpieError::Json(m) => ("JSON parsing error: ", m),
            HttpieError::Parse(m) => ("Parse error: ", m),
            HttpieError::InvalidMethod(m) => ("Invalid HTTP method: ", m),
            HttpieError::FileNotFound(m) => ("File not found: ", m),
            HttpieError::InvalidRequest(m) => ("Invalid request format: ", m),
            HttpieError::ScriptError(m) => ("Script execution error: ", m),
            HttpieError::ScriptParsingError(m) => ("Script parsing error: ", m),
        };
        let mut r = prefix.to_owned();
        r.append(m.as_str());
        r
    }
}

} // verus!
