//! The ways in which reading a document fails.

use vstd::prelude::*;

verus! {

/// Why an operation on a document failed. No operation retries or recovers: each failure
/// ends the call that met it.
#[derive(Clone, Copy, Debug, PartialEq, Eq, Structural)]
pub enum Error {
    /// Text that should be a decimal integer is not one, or is out of range.
    ParseInt,
    /// Text that should be a floating-point number is not one. The library reads no
    /// floating-point numbers itself; the variant serves callers that convert the text of
    /// a `Value::Float`.
    ParseFloat,
    /// Bytes that should be UTF-8 text are not. No operation of the library decodes text
    /// itself, so none returns it.
    Utf8,
    /// Bytes that should become an owned UTF-8 string are not UTF-8. No operation of the
    /// library returns it.
    FromUtf8,
    /// The bytes of an archive entry could not be read.
    Io,
    /// The archive is malformed, or holds no entry of the name asked for.
    Zip,
    /// The XML tokenizer reported a read failure.
    XmlRead,
    /// A sheet name, a relationship id or a shared-string index refers to nothing.
    Lookup,
}

impl Error {
    /// The text of `description`, variant by variant.
    pub open spec fn text(self) -> Seq<char> {
        match self {
            Error::ParseInt => "invalid integer"@,
            Error::ParseFloat => "invalid floating-point number"@,
            Error::Utf8 => "invalid UTF-8 text"@,
            Error::FromUtf8 => "invalid UTF-8 string"@,
            Error::Io => "archive entry could not be read"@,
            Error::Zip => "malformed archive or missing entry"@,
            Error::XmlRead => "XML read failure"@,
            Error::Lookup => "unknown sheet, relationship or shared string"@,
        }
    }

    /// A short description of the failure, for messages.
    pub fn description(&self) -> (s: &'static str)
        ensures
            s@ == self.text(),
    {
        match self {
            Error::ParseInt => "invalid integer",
            Error::ParseFloat => "invalid floating-point number",
            Error::Utf8 => "invalid UTF-8 text",
            Error::FromUtf8 => "invalid UTF-8 string",
            Error::Io => "archive entry could not be read",
            Error::Zip => "malformed archive or missing entry",
            Error::XmlRead => "XML read failure",
            Error::Lookup => "unknown sheet, relationship or shared string",
        }
    }
}

} // verus!
