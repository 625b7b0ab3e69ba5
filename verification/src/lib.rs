//! Pricing and inventory core of a two-asset liquidity pool that quotes
//! its curve as a ladder of limit orders on a central limit order book.
//!
//! A pool holds two reserves and prices along one of two curves: the
//! constant product, or the low-slippage curve of [`stableswap`]. It keeps
//! ten asks and nine bids on its venue. With each operation it first settles
//! what happened to the orders it placed ([`util`]), then takes a deposit or
//! pays a withdrawal ([`instructions`]), then places a new ladder
//! ([`ladder`]). What goes to the venue is written in the venue's bytes by
//! [`venue`].
//!
//! All amounts are whole numbers. The curve is solved in exact arithmetic on
//! [`u256`] where the numbers fit and on [`wide`] where they do not. An
//! operation that cannot be carried out leaves the pool as it was and says
//! so in its result.
pub mod errors;
pub mod instructions;
pub mod ladder;
pub mod stableswap;
pub mod state;
pub mod u256;
pub mod util;
pub mod venue;
pub mod wide;
