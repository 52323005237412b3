//! Failure classification for request parsing: structural request-line
//! errors, structural header errors, and the header-name token failure.

use vstd::prelude::*;

verus! {

/// A structural failure in the request line: the field was missing from the
/// line, or (for the method) was not one of the recognized methods.
#[derive(Clone, Copy, Debug, PartialEq, Eq, Structural)]
pub enum RequestLineParseError {
    Method,
    Path,
    Version,
}

impl RequestLineParseError {
    /// A short description of the failure.
    pub fn message(&self) -> (r: &'static str)
        ensures
            r@ == match self {
                RequestLineParseError::Method => "method was missing or invalid"@,
                RequestLineParseError::Path => "path was missing or invalid"@,
                RequestLineParseError::Version => "version was missing or invalid"@,
            },
    {
        match self {
            RequestLineParseError::Method => "method was missing or invalid",
            RequestLineParseError::Path => "path was missing or invalid",
            RequestLineParseError::Version => "version was missing or invalid",
        }
    }
}

/// A structural failure in one header field line.
#[derive(Clone, Copy, Debug, PartialEq, Eq, Structural)]
pub enum HeaderParseError {
    /// The line holds no colon separating name from value.
    NoSeparator,
    /// The name holds a byte outside the token alphabet.
    InvalidName,
    /// The value does not decode as valid text.
    InvalidUtf8Value,
}

impl HeaderParseError {
    /// A short description of the failure.
    pub fn message(&self) -> (r: &'static str)
        ensures
            r@ == match self {
                HeaderParseError::NoSeparator => "separator colon was missing"@,
                HeaderParseError::InvalidName => "name contains non-tchar character"@,
                HeaderParseError::InvalidUtf8Value => "value was invalid UTF-8"@,
            },
    {
        match self {
            HeaderParseError::NoSeparator => "separator colon was missing",
            HeaderParseError::InvalidName => "name contains non-tchar character",
            HeaderParseError::InvalidUtf8Value => "value was invalid UTF-8",
        }
    }
}

/// A header name holding a byte outside the token alphabet.
#[derive(Clone, Copy, Debug, PartialEq, Eq, Structural)]
pub struct HeaderNameParseError;

impl HeaderNameParseError {
    /// A short description of the failure.
    pub fn message(&self) -> (r: &'static str)
        ensures
            r@ == "contains non-tchar character"@,
    {
        "contains non-tchar character"
    }
}

/// A failure anywhere in a header block, tagged by stage, so callers can
/// tell a malformed request line from a malformed header field.
#[derive(Clone, Copy, Debug, PartialEq, Eq, Structural)]
pub enum RequestHeaderParseError {
    RequestLine(RequestLineParseError),
    Header(HeaderParseError),
}

impl RequestHeaderParseError {
    /// A short description of the failure, naming the stage it arose in.
    pub fn message(&self) -> (r: &'static str)
        ensures
            r@ == match self {
                RequestHeaderParseError::RequestLine(e) => match e {
                    RequestLineParseError::Method => "failed to parse Request-Line: method was missing or invalid"@,
                    RequestLineParseError::Path => "failed to parse Request-Line: path was missing or invalid"@,
                    RequestLineParseError::Version => "failed to parse Request-Line: version was missing or invalid"@,
                },
                RequestHeaderParseError::Header(e) => match e {
                    HeaderParseError::NoSeparator => "failed to parse Header: separator colon was missing"@,
                    HeaderParseError::InvalidName => "failed to parse Header: name contains non-tchar character"@,
                    HeaderParseError::InvalidUtf8Value => "failed to parse Header: value was invalid UTF-8"@,
                },
            },
    {
        match self {
            RequestHeaderParseError::RequestLine(e) => match e {
                RequestLineParseError::Method => "failed to parse Request-Line: method was missing or invalid",
                RequestLineParseError::Path => "failed to parse Request-Line: path was missing or invalid",
                RequestLineParseError::Version => "failed to parse Request-Line: version was missing or invalid",
            },
            RequestHeaderParseError::Header(e) => match e {
                HeaderParseError::NoSeparator => "failed to parse Header: separator colon was missing",
                HeaderParseError::InvalidName => "failed to parse Header: name contains non-tchar character",
                HeaderParseError::InvalidUtf8Value => "failed to parse Header: value was invalid UTF-8",
            },
        }
    }
}

} // verus!
