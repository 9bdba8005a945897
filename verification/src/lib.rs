//! Perpetual-futures bookkeeping for an on-chain limit order book market.
//!
//! The market keeps its traders, their resting orders and two price-ordered
//! books in one pool of fixed-size blocks. On top of that state the crate
//! offers the price arithmetic, the order lifecycle, matching, liquidation
//! of under-margined positions and the periodic funding crank, each with a
//! machine-checked contract.
//!
//! The state and its invariant are in [`state`]; [`frame`] carries the
//! invariant from one state to the next. The operations follow: [`pool`]
//! grows the block pool, [`seats`] keeps the trader directory, [`book`]
//! rests and cancels orders, [`matching`] and [`orders`] trade, [`batch`]
//! applies several of these at once, [`mark`], [`liquidate`] and [`funding`]
//! value and settle positions, and [`header`] gives access to the header.
//! [`price`] has the arithmetic, [`oracle`] reads the price feed, [`global`]
//! holds the reservations of global orders and [`keys`] reads the host's
//! public keys. [`codec`] writes the market as bytes and reads it back, with
//! [`bytes`] for the numbers and [`validate`] to decide the invariant of
//! what was read. What holds of all of it is stated in [`operations`],
//! [`theorems`], [`custody`] and [`holdings`].

pub mod batch;
pub mod book;
pub mod bytes;
pub mod codec;
pub mod custody;
pub mod error;
pub mod frame;
pub mod funding;
pub mod global;
pub mod header;
pub mod holdings;
pub mod keys;
pub mod liquidate;
pub mod mark;
pub mod matching;
pub mod operations;
pub mod oracle;
pub mod orders;
pub mod pool;
pub mod price;
pub mod seats;
pub mod state;
pub mod theorems;
pub mod validate;
