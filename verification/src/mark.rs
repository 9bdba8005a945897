//! The mark price: the reference price for profit, loss and margin.
//!
//! The cached oracle price is preferred. It is quoted per whole unit of each
//! asset, so it is first brought to atoms by the difference of the two
//! decimals, then cut down to a 32-bit mantissa. When no oracle is cached, or
//! its price does not fit a book price, the books decide.

use vstd::prelude::*;
use hypertree::DataIndex;
use crate::error::MarketError;
use crate::price::Price;
use crate::state::{Market, MarketHeader, MarketView, RestingOrder, NIL};

verus! {

/// Drops low digits of `mantissa`, raising `exponent` by one for each, until
/// the mantissa fits 32 bits or the exponent reaches 127.
pub open spec fn normalized(mantissa: nat, exponent: int) -> (nat, int)
    decreases mantissa,
{
    if mantissa > u32::MAX && exponent < i8::MAX {
        normalized(mantissa / 10, exponent + 1)
    } else {
        (mantissa, exponent)
    }
}

/// The exponent of the cached oracle price, in quote atoms per base atom.
pub open spec fn oracle_book_exponent(header: MarketHeader) -> int {
    header.oracle_price_expo + header.quote_mint_decimals - header.base_mint_decimals
}

/// The cached oracle price as a book price, when one is cached and fits.
pub open spec fn oracle_mark(header: MarketHeader) -> Option<Price> {
    let (mantissa, exponent) = normalized(
        header.oracle_price_mantissa as nat,
        oracle_book_exponent(header),
    );
    if header.oracle_price_mantissa > 0 && mantissa <= u32::MAX && i8::MIN <= exponent
        <= i8::MAX {
        Some(Price { mantissa: mantissa as u32, exponent: exponent as i8 })
    } else {
        None
    }
}

impl MarketView {
    /// The price that the books suggest: the lower of the best bid and the
    /// best ask, or the only one there is.
    pub open spec fn book_mark(self) -> Option<Price> {
        if self.bids.len() > 0 && self.asks.len() > 0 {
            let bid = self.order_at(self.bids[0]).price;
            let ask = self.order_at(self.asks[0]).price;
            if bid.scaled() <= ask.scaled() {
                Some(bid)
            } else {
                Some(ask)
            }
        } else if self.bids.len() > 0 {
            Some(self.order_at(self.bids[0]).price)
        } else if self.asks.len() > 0 {
            Some(self.order_at(self.asks[0]).price)
        } else {
            None
        }
    }

    /// The mark price: the oracle's where it applies, else the books'.
    pub open spec fn mark_price(self) -> Result<Price, MarketError> {
        match oracle_mark(self.header) {
            Some(price) => Ok(price),
            None => match self.book_mark() {
                Some(price) => Ok(price),
                None => Err(MarketError::InvalidOracle),
            },
        }
    }
}

/// The cached oracle price as a book price, when one is cached and fits.
pub fn oracle_mark_price(header: &MarketHeader) -> (r: Option<Price>)
    ensures
        r == oracle_mark(*header),
{
    if header.oracle_price_mantissa == 0 {
        return None;
    }
    let mut mantissa: u64 = header.oracle_price_mantissa;
    let mut exponent: i64 = header.oracle_price_expo as i64 + header.quote_mint_decimals as i64
        - header.base_mint_decimals as i64;
    while mantissa > u32::MAX as u64 && exponent < i8::MAX as i64
        invariant
            normalized(mantissa as nat, exponent as int) == normalized(
                header.oracle_price_mantissa as nat,
                oracle_book_exponent(*header),
            ),
            exponent <= i32::MAX + 255 + 64,
        decreases mantissa,
    {
        mantissa = mantissa / 10;
        exponent = exponent + 1;
    }
    if mantissa <= u32::MAX as u64 && exponent >= i8::MIN as i64 && exponent <= i8::MAX as i64 {
        Some(Price::new(mantissa as u32, exponent as i8))
    } else {
        None
    }
}

impl Market {
    /// The mark price, or `InvalidOracle` when neither the oracle nor the
    /// books give one.
    pub fn compute_mark_price(&self) -> (r: Result<Price, MarketError>)
        requires
            self.wf(),
        ensures
            r == self@.mark_price(),
    {
        match oracle_mark_price(&self.header) {
            Some(price) => {
                return Ok(price);
            },
            None => {},
        }
        let best_bid_index: DataIndex = self.get_bids_best_index();
        let best_ask_index: DataIndex = self.get_asks_best_index();
        if best_bid_index == NIL && best_ask_index == NIL {
            return Err(MarketError::InvalidOracle);
        }
        if best_bid_index != NIL && best_ask_index != NIL {
            assert(self@.is_order(self@.book(true)[0]));
            assert(self@.is_order(self@.book(false)[0]));
            let best_bid: RestingOrder = self.order_in(best_bid_index);
            let best_ask: RestingOrder = self.order_in(best_ask_index);
            if best_bid.price.value_le(&best_ask.price) {
                Ok(best_bid.price)
            } else {
                Ok(best_ask.price)
            }
        } else if best_bid_index != NIL {
            assert(self@.is_order(self@.book(true)[0]));
            let best_bid: RestingOrder = self.order_in(best_bid_index);
            Ok(best_bid.price)
        } else {
            assert(self@.is_order(self@.book(false)[0]));
            let best_ask: RestingOrder = self.order_in(best_ask_index);
            Ok(best_ask.price)
        }
    }
}

} // verus!
