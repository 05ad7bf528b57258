use vstd::prelude::*;

verus! {

/// The ways in which a fallible operation on a 256-bit integer can fail.
#[derive(Clone, Copy, Debug, PartialEq, Eq, Structural)]
pub enum NumError {
    /// Malformed text: a bad prefix or sign, no digits, or a character that
    /// is not a digit of the radix.
    Format,
    /// The value does not fit in the target width.
    Overflow,
    /// A division or remainder by zero.
    DivisionByZero,
    /// A fixed-width byte decoding was given the wrong number of bytes.
    LengthMismatch,
}

} // verus!
