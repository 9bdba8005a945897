//! Access to the header of the market.
//!
//! The free list's head, the sequence counter and the position totals move
//! only with the operations that own them. The other fields can be set.

use vstd::prelude::*;
use crate::state::{Market, MarketHeader, MarketView};

verus! {

impl MarketView {
    /// The market with `header` in place of its own.
    pub open spec fn with_header(self, header: MarketHeader) -> MarketView {
        MarketView { header, ..self }
    }
}

impl Market {
    /// The header as it stands.
    pub fn header(&self) -> (header: MarketHeader)
        ensures
            header == self@.header,
    {
        self.header
    }

    /// Caches an oracle price of `mantissa * 10^exponent` on the header. A
    /// zero mantissa means that no oracle price is cached.
    pub fn set_oracle_price(&mut self, mantissa: u64, exponent: i32)
        requires
            old(self).wf(),
        ensures
            final(self).wf(),
            final(self)@ == old(self)@.oracle_cached(mantissa, exponent),
    {
        proof {
            self@.lemma_header_change_wf(self@.oracle_cached(mantissa, exponent));
        }
        self.header.oracle_price_mantissa = mantissa;
        self.header.oracle_price_expo = exponent;
    }

    /// Sets the time of the last funding crank; zero stops the funding clock.
    pub fn set_last_funding_timestamp(&mut self, timestamp: i64)
        requires
            old(self).wf(),
        ensures
            final(self).wf(),
            final(self)@ == old(self)@.funding_stamped(timestamp),
    {
        proof {
            self@.lemma_header_change_wf(self@.funding_stamped(timestamp));
        }
        self.header.last_funding_timestamp = timestamp;
    }

    /// Sets the cumulative funding.
    pub fn set_cumulative_funding(&mut self, cumulative_funding: i64)
        requires
            old(self).wf(),
        ensures
            final(self).wf(),
            final(self)@ == old(self)@.with_header(
                MarketHeader { cumulative_funding, ..old(self)@.header },
            ),
    {
        proof {
            self@.lemma_header_change_wf(
                self@.with_header(MarketHeader { cumulative_funding, ..self@.header }),
            );
        }
        self.header.cumulative_funding = cumulative_funding;
    }

    /// Sets the maintenance margin, in basis points of a position's value.
    pub fn set_maintenance_margin_bps(&mut self, maintenance_margin_bps: u64)
        requires
            old(self).wf(),
        ensures
            final(self).wf(),
            final(self)@ == old(self)@.with_header(
                MarketHeader { maintenance_margin_bps, ..old(self)@.header },
            ),
    {
        proof {
            self@.lemma_header_change_wf(
                self@.with_header(MarketHeader { maintenance_margin_bps, ..self@.header }),
            );
        }
        self.header.maintenance_margin_bps = maintenance_margin_bps;
    }
}

} // verus!
