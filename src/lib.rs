//! Fixed-width 256-bit integers, signed and unsigned, built from a pair of
//! 128-bit words, with verified arithmetic, parsing, rendering and byte
//! encodings.

pub mod bytes;
pub mod cosmos;
pub mod decimal;
pub mod error;
pub mod signed;
pub mod text;
pub mod uint;

pub use crate::decimal::{Decimal, FormatBuffer, FORMAT_CAPACITY};
pub use crate::error::NumError;
pub use crate::signed::I256;
pub use crate::uint::U256;
