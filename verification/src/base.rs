//! The numeral encodings a value can be shown in.

use vstd::prelude::*;

verus! {

/// The encoding used to render a value as text.
#[derive(Debug, Clone, Copy, PartialEq, Eq, Structural)]
pub enum NumberBase {
    /// Digits `0` and `1`.
    Binary,
    /// Digits `0` to `9`.
    Decimal,
    /// Digits `0` to `9` and `a` to `f`.
    Hexadecimal,
    /// Base64 of the value's shortest big-endian byte string.
    Base64,
}

} // verus!
