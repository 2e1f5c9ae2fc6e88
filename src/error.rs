//! The errors a scan can end in.
use vstd::prelude::*;
use crate::values::ParseValueError;

verus! {

/// An ill-formed UTF-8 sequence met in the input: at most four bytes.
#[derive(Debug, PartialEq, Eq)]
pub struct Utf8Error {
    bytes: Vec<u8>,
}

impl View for Utf8Error {
    type V = Seq<u8>;

    closed spec fn view(&self) -> Seq<u8> {
        self.bytes@
    }
}

impl Utf8Error {
    /// An error holding the offending bytes.
    pub fn new(error_bytes: &[u8]) -> (r: Utf8Error)
        requires
            error_bytes@.len() <= 4,
        ensures
            r@ == error_bytes@,
    {
        let mut bytes: Vec<u8> = Vec::new();
        let mut i: usize = 0;
        while i < error_bytes.len()
            invariant
                i <= error_bytes@.len(),
                bytes@ == error_bytes@.take(i as int),
            decreases error_bytes@.len() - i,
        {
            bytes.push(error_bytes[i]);
            i = i + 1;
            assert(bytes@ =~= error_bytes@.take(i as int));
        }
        assert(bytes@ =~= error_bytes@);
        Utf8Error { bytes }
    }

    /// The offending byte sequence.
    pub fn error_bytes(&self) -> (r: &[u8])
        ensures
            r@ == self@,
    {
        self.bytes.as_slice()
    }
}

/// Why the input did not match.
#[derive(Debug, PartialEq, Eq)]
pub enum ScanError {
    /// Reading the input failed; the message says how.
    ScanIoError(String),
    /// The input held an ill-formed UTF-8 sequence.
    ScanDecodeError(Utf8Error),
    /// The input did not match this literal text of the template.
    ScanLiteralError(String),
    /// The input did not match this pattern of a capture.
    ScanRegexError(String),
}

/// A pattern that did not compile.
#[derive(Debug, PartialEq, Eq)]
pub struct PatternError {
    /// Index of the rule, positional rules first.
    pub rule: usize,
    pub pattern: String,
}

/// The error of a scan.
#[derive(Debug, PartialEq, Eq)]
pub enum Error {
    /// A pattern of the scanner does not compile.
    RegexError(PatternError),
    /// The input does not match the template.
    ScanError(ScanError),
    /// A capture's text could not be read as its type.
    ParseError(ParseValueError),
}

} // verus!
