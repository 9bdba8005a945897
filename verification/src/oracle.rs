//! Decoding of the oracle price record.
//!
//! The record is a fixed little-endian layout of at least 240 bytes: a magic
//! number at offset 0, the price exponent at offset 20, the aggregate price at
//! offset 208, its confidence at offset 216 and the feed status at offset 224.
//! Every other byte is ignored. The exponent must be one that a price can
//! carry, so it has to fit a signed byte.

use vstd::prelude::*;
use crate::bytes::{le_u32, le_u64, read_i32, read_i64, read_u32, read_u64, signed32, signed64};
use crate::error::MarketError;

verus! {

/// Magic number that opens every price record.
pub const ORACLE_MAGIC: u32 = 0xa1b2_c3d4;

/// Offset of the price exponent, a signed 32-bit integer.
pub const ORACLE_EXPONENT_OFFSET: usize = 20;

/// Offset of the aggregate price, a signed 64-bit integer.
pub const ORACLE_PRICE_OFFSET: usize = 208;

/// Offset of the aggregate confidence, an unsigned 64-bit integer.
pub const ORACLE_CONFIDENCE_OFFSET: usize = 216;

/// Offset of the aggregate status, an unsigned 32-bit integer.
pub const ORACLE_STATUS_OFFSET: usize = 224;

/// Status of a feed that is trading.
pub const ORACLE_STATUS_TRADING: u32 = 1;

/// Shortest record that holds every field.
pub const ORACLE_MIN_LEN: usize = 240;

/// Least exponent of a usable record: the least that a price can carry.
pub const ORACLE_EXPONENT_MIN: i32 = -128;

/// Greatest exponent of a usable record: the greatest that a price can carry.
pub const ORACLE_EXPONENT_MAX: i32 = 127;

/// The aggregate price that the record carries.
pub open spec fn oracle_price(bytes: Seq<u8>) -> int {
    signed64(le_u64(bytes, ORACLE_PRICE_OFFSET as int))
}

/// The price exponent that the record carries.
pub open spec fn oracle_exponent(bytes: Seq<u8>) -> int {
    signed32(le_u32(bytes, ORACLE_EXPONENT_OFFSET as int))
}

/// The confidence interval that the record carries.
pub open spec fn oracle_confidence(bytes: Seq<u8>) -> nat {
    le_u64(bytes, ORACLE_CONFIDENCE_OFFSET as int)
}

/// A record is usable when it is long enough, opens with the magic number,
/// reports a trading feed and carries a positive price with an exponent
/// that a price can carry.
pub open spec fn oracle_usable(bytes: Seq<u8>) -> bool {
    &&& bytes.len() >= ORACLE_MIN_LEN
    &&& le_u32(bytes, 0) == ORACLE_MAGIC
    &&& le_u32(bytes, ORACLE_STATUS_OFFSET as int) == ORACLE_STATUS_TRADING
    &&& oracle_price(bytes) > 0
    &&& ORACLE_EXPONENT_MIN <= oracle_exponent(bytes) <= ORACLE_EXPONENT_MAX
}

/// Reads `(price, exponent, confidence)` from an oracle price record.
///
/// Succeeds exactly on usable records; every other input is `InvalidOracle`.
pub fn read_pyth_price(data: &[u8]) -> (r: Result<(i64, i32, u64), MarketError>)
    ensures
        match r {
            Ok((price, exponent, confidence)) => {
                &&& oracle_usable(data@)
                &&& price == oracle_price(data@)
                &&& exponent == oracle_exponent(data@)
                &&& confidence == oracle_confidence(data@)
            },
            Err(e) => e == MarketError::InvalidOracle && !oracle_usable(data@),
        },
{
    if data.len() < ORACLE_MIN_LEN {
        return Err(MarketError::InvalidOracle);
    }
    let magic: u32 = read_u32(data, 0);
    if magic != ORACLE_MAGIC {
        return Err(MarketError::InvalidOracle);
    }
    let exponent: i32 = read_i32(data, ORACLE_EXPONENT_OFFSET);
    let price: i64 = read_i64(data, ORACLE_PRICE_OFFSET);
    let confidence: u64 = read_u64(data, ORACLE_CONFIDENCE_OFFSET);
    let status: u32 = read_u32(data, ORACLE_STATUS_OFFSET);
    if status != ORACLE_STATUS_TRADING {
        return Err(MarketError::InvalidOracle);
    }
    if price <= 0 {
        return Err(MarketError::InvalidOracle);
    }
    if exponent < ORACLE_EXPONENT_MIN || exponent > ORACLE_EXPONENT_MAX {
        return Err(MarketError::InvalidOracle);
    }
    Ok((price, exponent, confidence))
}

} // verus!
