//! Core of a backtesting engine for binary prediction markets.
//!
//! A binary market has two complementary outcomes, YES and NO, each tradable
//! as a contract paying one dollar on the correct outcome and nothing
//! otherwise. The engine consumes a stream of market trades and resolution
//! events and simulates a trader's limit-order portfolio against them: the
//! [`broker::Broker`] holds resting limit orders and decides, per incoming
//! trade, which of them execute and at what impact-adjusted price; the
//! [`portfolio::Portfolio`] consumes the resulting fills and tracks cash,
//! signed positions, realized and unrealized profit and loss, and settlement.
//!
//! All prices, rates and money amounts are fixed-point integers scaled by
//! [`math::SCALE`]: a price of one dollar (probability one) is `10_000`
//! units. Quantities are whole contracts.

pub mod broker;
pub mod math;
pub mod models;
pub mod portfolio;
pub mod seqs;
