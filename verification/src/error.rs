//! What can go wrong.

use vstd::prelude::*;

verus! {

/// [`url::ParseError`]: a value that is passed on, and not looked into.
#[verifier::external_type_specification]
#[verifier::external_body]
pub struct ExParseError(url::ParseError);

/// [`std::io::Error`]: a value that is passed on, and not looked into.
#[verifier::external_type_specification]
#[verifier::external_body]
pub struct ExIoError(std::io::Error);

/// Why a step failed.
#[derive(Debug)]
pub enum Error {
    /// An address is not a URL.
    Url(url::ParseError),
    /// Compressed data cannot be decompressed.
    Io(std::io::Error),
}

} // verus!
