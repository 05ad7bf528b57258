//! Conversions to and from CosmWasm's integer and decimal types. Their values
//! are opaque here: they cross as words or big-endian bytes, and the library
//! does the rest.

use vstd::prelude::*;
use cosmwasm_std::{Decimal256, Uint128, Uint256, Uint512, Uint64};
use crate::bytes::be_value;
use crate::error::NumError;
use crate::uint::{U256, word_base};

verus! {

#[verifier::external_type_specification]
#[verifier::external_body]
pub struct ExUint64(Uint64);

#[verifier::external_type_specification]
#[verifier::external_body]
pub struct ExUint128(Uint128);

#[verifier::external_type_specification]
#[verifier::external_body]
pub struct ExUint256(Uint256);

#[verifier::external_type_specification]
#[verifier::external_body]
pub struct ExUint512(Uint512);

#[verifier::external_type_specification]
#[verifier::external_body]
pub struct ExDecimal256(Decimal256);


/// Relies on `Uint64::new`, which wraps the integer.
pub assume_specification[ Uint64::new ](value: u64) -> Uint64;

/// Relies on `Uint64::u64`, which copies the integer out.
pub assume_specification[ Uint64::u64 ](v: &Uint64) -> u64;

/// Relies on `Uint128::new`, which wraps the integer.
pub assume_specification[ Uint128::new ](value: u128) -> Uint128;

/// Relies on `Uint128::u128`, which copies the integer out.
pub assume_specification[ Uint128::u128 ](v: &Uint128) -> u128;

/// Relies on `Uint256::from_be_bytes`, which reads 32 big-endian bytes.
pub assume_specification[ Uint256::from_be_bytes ](data: [u8; 32]) -> Uint256;

/// Relies on `Uint256::to_be_bytes`, which writes 32 big-endian bytes.
pub assume_specification[ Uint256::to_be_bytes ](v: Uint256) -> [u8; 32];

/// Relies on `Uint512::from_uint256`, which widens without change.
pub assume_specification[ Uint512::from_uint256 ](num: Uint256) -> Uint512;

/// Relies on `Uint512::to_be_bytes`, which writes 64 big-endian bytes.
pub assume_specification[ Uint512::to_be_bytes ](v: Uint512) -> [u8; 64];

/// Relies on `Decimal256::new`, which takes its atomic units as given.
pub assume_specification[ Decimal256::new ](value: Uint256) -> Decimal256;

/// Relies on `Decimal256::atomics`, which returns its atomic units.
pub assume_specification[ Decimal256::atomics ](d: &Decimal256) -> Uint256;

impl U256 {
    /// A `Uint64` as a 256-bit value.
    pub fn from_uint64(u: Uint64) -> (r: U256)
        ensures
            r@ <= u64::MAX,
    {
        U256::new(u.u64() as u128)
    }

    /// The low 64 bits as a `Uint64`.
    pub fn to_uint64(self) -> Uint64 {
        Uint64::new(self.as_u64())
    }

    /// A `Uint128` as a 256-bit value.
    pub fn from_uint128(u: Uint128) -> (r: U256)
        ensures
            r@ < word_base(),
    {
        U256::new(u.u128())
    }

    /// The low 128 bits as a `Uint128`.
    pub fn to_uint128(self) -> Uint128 {
        Uint128::new(self.as_u128())
    }

    /// A `Uint256` as a 256-bit value, through its big-endian bytes.
    pub fn from_uint256(u: Uint256) -> U256 {
        U256::from_be_bytes(u.to_be_bytes())
    }

    /// The value as a `Uint256`, through its big-endian bytes.
    pub fn to_uint256(self) -> Uint256 {
        Uint256::from_be_bytes(self.to_be_bytes())
    }

    /// The atomic units of a `Decimal256`, passed through unchanged.
    pub fn from_decimal256(d: Decimal256) -> U256 {
        U256::from_uint256(d.atomics())
    }

    /// The value as the atomic units of a `Decimal256`.
    pub fn to_decimal256(self) -> Decimal256 {
        Decimal256::new(self.to_uint256())
    }

    /// The value of 64 big-endian bytes, or `Overflow` when any of the high
    /// 32 is not zero.
    pub fn from_be_bytes_wide(bytes: [u8; 64]) -> (r: Result<U256, NumError>)
        ensures
            (exists|i: int| 0 <= i < 32 && bytes@[i] != 0) <==> r == Err::<U256, NumError>(NumError::Overflow),
            r.is_ok() ==> r->Ok_0@ == be_value(bytes@.skip(32)),
    {
        let mut low: [u8; 32] = [0u8; 32];
        let mut i: usize = 0;
        while i < 32
            invariant
                i <= 32,
                bytes@.len() == 64,
                forall|k: int| 0 <= k < i ==> bytes@[k] == 0,
            decreases 32 - i,
        {
            if bytes[i] != 0 {
                return Err(NumError::Overflow);
            }
            i = i + 1;
        }
        let mut j: usize = 0;
        while j < 32
            invariant
                j <= 32,
                bytes@.len() == 64,
                low@.len() == 32,
                forall|k: int| 0 <= k < 32 ==> bytes@[k] == 0,
                forall|k: int| 0 <= k < j ==> low@[k] == bytes@[32 + k],
            decreases 32 - j,
        {
            low[j] = bytes[32 + j];
            j = j + 1;
        }
        assert(low@ =~= bytes@.skip(32));
        Ok(U256::from_be_bytes(low))
    }

    /// A `Uint512` as a 256-bit value, or `Overflow` when it does not fit.
    pub fn from_uint512(u: Uint512) -> Result<U256, NumError> {
        U256::from_be_bytes_wide(u.to_be_bytes())
    }

    /// The value as a `Uint512`.
    pub fn to_uint512(self) -> Uint512 {
        Uint512::from_uint256(self.to_uint256())
    }
}

} // verus!
