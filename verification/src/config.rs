//! The build-time wire configuration: byte order, length representation and
//! the optional maximum-size policy.
//!
//! Choices like these are often expressed as mutually exclusive
//! compile-time switches. Here they are a single immutable value that the
//! application resolves once at start-up and threads through every codec
//! entry point, so the three length modes and the two byte orders stay
//! mutually exclusive by construction.
use vstd::prelude::*;

verus! {

/// Byte order used for multi-byte values that are not pinned by a
/// [`BE`](crate::endian::BE) or [`LE`](crate::endian::LE) wrapper.
#[derive(Debug, Clone, Copy, PartialEq, Eq, Structural)]
pub enum Endian {
    /// Most significant byte first.
    Big,
    /// Least significant byte first.
    Little,
}

/// Wire representation of a [`Length`](crate::endian::Length) value.
/// Exactly one of the three is in force for the lifetime of a configuration.
#[derive(Debug, Clone, Copy, PartialEq, Eq, Structural)]
pub enum LenMode {
    /// A fixed 32-bit unsigned integer in the configured byte order.
    U32,
    /// A fixed 16-bit unsigned integer in the configured byte order.
    U16,
    /// A base-128 variable-length quantity.
    Vlq,
}

/// The immutable wire configuration threaded through every codec call.
#[derive(Debug, Clone, Copy)]
pub struct Config {
    /// Byte order for unwrapped multi-byte values.
    pub endian: Endian,
    /// Representation of length prefixes.
    pub len_mode: LenMode,
    /// Optional maximum accepted by [`Length`](crate::endian::Length):
    /// a count above it fails with [`Error::DataTooLarge`](crate::error::Error).
    pub max_len: Option<usize>,
}

impl Config {
    /// The bound of the maximum-size policy, or `usize::MAX` when none is set.
    pub open spec fn spec_max(self) -> usize {
        match self.max_len {
            Some(m) => m,
            None => usize::MAX,
        }
    }

    /// The bound of the maximum-size policy, or `usize::MAX` when none is
    /// set: the executable counterpart of [`Config::spec_max`].
    pub fn max_allowed(self) -> (r: usize)
        ensures
            r == self.spec_max(),
    {
        match self.max_len {
            Some(m) => m,
            None => usize::MAX,
        }
    }

    /// A big-endian configuration with 32-bit lengths and no size policy.
    pub fn big() -> (c: Config)
        ensures
            c == (Config { endian: Endian::Big, len_mode: LenMode::U32, max_len: None }),
    {
        Config { endian: Endian::Big, len_mode: LenMode::U32, max_len: None }
    }

    /// A little-endian configuration with 32-bit lengths and no size policy.
    pub fn little() -> (c: Config)
        ensures
            c == (Config { endian: Endian::Little, len_mode: LenMode::U32, max_len: None }),
    {
        Config { endian: Endian::Little, len_mode: LenMode::U32, max_len: None }
    }

    /// The same configuration with the given length representation.
    pub fn with_len_mode(self, m: LenMode) -> (c: Config)
        ensures
            c == (Config { len_mode: m, ..self }),
    {
        Config { len_mode: m, ..self }
    }

    /// The same configuration with a maximum-size policy.
    pub fn with_max_len(self, max: usize) -> (c: Config)
        ensures
            c == (Config { max_len: Some(max), ..self }),
    {
        Config { max_len: Some(max), ..self }
    }
}

} // verus!
