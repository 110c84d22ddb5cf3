//! Failure kinds shared by every encode and decode operation.
use vstd::prelude::*;

verus! {

/// The reason an exact read or write on a stream could not be satisfied.
#[derive(Debug, Clone, Copy, PartialEq, Eq, Structural)]
pub enum IoFault {
    /// The stream ended before the requested number of bytes was available.
    UnexpectedEof,
    /// The sink refused the bytes.
    WriteRefused,
}

/// Errors raised while serializing or deserializing.
#[derive(Debug)]
pub enum Error {
    /// A non-zero integer wrapper decoded a literal zero.
    Zero,
    /// A tagged-union tag had no matching variant.
    InvalidTag(u32),
    /// ASCII-only content contained non-ASCII data.
    InvalidAscii(String),
    /// A length exceeded the configured maximum; carries that maximum.
    DataTooLarge(usize),
    /// A decoded code point is not a valid Unicode scalar value.
    InvalidChar(u32),
    /// The underlying stream could not satisfy an exact read or write.
    Io(IoFault),
    /// Raw bytes were not valid UTF-8 where UTF-8 was required.
    Utf8,
    /// A general error number.
    ErroNo(u32),
    /// An escape hatch for conditions not yet classified.
    Other(&'static str),
}

} // verus!
