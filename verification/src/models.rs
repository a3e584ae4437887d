//! Core data types: sides, actions, trades, orders, fills, positions,
//! snapshots and market metadata.

use vstd::prelude::*;

use crate::math::{QTY_MAX, SCALE};

verus! {

/// One of the two complementary outcomes of a binary market.
#[derive(Clone, Copy, Debug, PartialEq, Eq, Structural)]
pub enum Side {
    Yes,
    No,
}

impl Side {
    /// Serialized form: `"yes"` or `"no"`.
    pub fn as_str(&self) -> (s: &'static str)
        ensures
            s@ == (if *self is Yes {
                "yes"@
            } else {
                "no"@
            }),
    {
        match self {
            Side::Yes => "yes",
            Side::No => "no",
        }
    }
}

/// Whether a limit order buys or sells contracts of its side.
#[derive(Clone, Copy, Debug, PartialEq, Eq, Structural)]
pub enum OrderAction {
    Buy,
    Sell,
}

impl OrderAction {
    /// Serialized form: `"buy"` or `"sell"`.
    pub fn as_str(&self) -> (s: &'static str)
        ensures
            s@ == (if *self is Buy {
                "buy"@
            } else {
                "sell"@
            }),
    {
        match self {
            OrderAction::Buy => "buy",
            OrderAction::Sell => "sell",
        }
    }
}

/// Lifecycle state of a limit order. Transitions monotonically from
/// `Pending` to either `Filled` or `Cancelled`.
#[derive(Clone, Copy, Debug, PartialEq, Eq, Structural)]
pub enum OrderStatus {
    Pending,
    Filled,
    Cancelled,
}

/// An immutable market trade event.
#[derive(Debug)]
pub struct Trade {
    /// Seconds since the epoch.
    pub timestamp: u64,
    pub market_id: String,
    /// Price of the YES contract, in [0, `SCALE`].
    pub yes_price: u64,
    /// Price of the NO contract, in [0, `SCALE`]. Not forced to complement
    /// `yes_price`.
    pub no_price: u64,
    /// Matched size of the trade, in contracts.
    pub quantity: u64,
    /// Which side of the book the aggressing taker was on.
    pub taker_side: Side,
}

impl Trade {
    pub open spec fn wf(self) -> bool {
        self.yes_price <= SCALE && self.no_price <= SCALE && self.quantity <= QTY_MAX
    }
}

impl Clone for Trade {
    fn clone(&self) -> (r: Self)
        ensures
            r == *self,
    {
        Trade {
            timestamp: self.timestamp,
            market_id: self.market_id.clone(),
            yes_price: self.yes_price,
            no_price: self.no_price,
            quantity: self.quantity,
            taker_side: self.taker_side,
        }
    }
}

/// A limit order resting with the broker.
#[derive(Debug)]
pub struct Order {
    /// Unique id assigned by the broker: a decimal counter starting at 1.
    pub order_id: u64,
    pub market_id: String,
    pub action: OrderAction,
    pub side: Side,
    /// The limit price, in [0, `SCALE`].
    pub price: u64,
    /// Ordered size, in contracts.
    pub quantity: u64,
    pub status: OrderStatus,
    pub created_at: u64,
    pub filled_at: Option<u64>,
    pub fill_price: Option<u64>,
    pub filled_quantity: u64,
}

impl Order {
    pub open spec fn wf(self) -> bool {
        self.price <= SCALE && self.quantity <= QTY_MAX
    }
}

impl Clone for Order {
    fn clone(&self) -> (r: Self)
        ensures
            r == *self,
    {
        Order {
            order_id: self.order_id,
            market_id: self.market_id.clone(),
            action: self.action,
            side: self.side,
            price: self.price,
            quantity: self.quantity,
            status: self.status,
            created_at: self.created_at,
            filled_at: self.filled_at,
            fill_price: self.fill_price,
            filled_quantity: self.filled_quantity,
        }
    }
}

/// An immutable record of one matched execution.
#[derive(Debug)]
pub struct Fill {
    /// Id of the order that executed.
    pub order_id: u64,
    pub market_id: String,
    pub action: OrderAction,
    pub side: Side,
    /// Execution price after market impact, in [0, `SCALE`].
    pub price: u64,
    /// Executed size, in contracts.
    pub quantity: u64,
    /// Copied from the trade that caused the fill.
    pub timestamp: u64,
    /// Commission charged, in money units.
    pub commission: i128,
}

impl Fill {
    pub open spec fn wf(self) -> bool {
        self.price <= SCALE && self.quantity <= QTY_MAX && 0 <= self.commission
            <= SCALE as int * QTY_MAX as int
    }
}

impl Clone for Fill {
    fn clone(&self) -> (r: Self)
        ensures
            r == *self,
    {
        Fill {
            order_id: self.order_id,
            market_id: self.market_id.clone(),
            action: self.action,
            side: self.side,
            price: self.price,
            quantity: self.quantity,
            timestamp: self.timestamp,
            commission: self.commission,
        }
    }
}

/// Net position in one market, in signed YES-equivalent contracts.
///
/// `quantity > 0` is a long-YES position; `quantity < 0` is a long-NO
/// position of `|quantity|` contracts. Instead of a rounded average entry
/// price the position carries its exact total entry cost, in money units:
/// the sum, over the contracts still open, of the price actually paid per
/// contract (the YES price for long-YES, the NO price for long-NO). The
/// average entry price of the specification is the derived quotient
/// [`Position::avg_entry_price`], so volume-weighted averaging and cash
/// accounting are exact.
#[derive(Debug)]
pub struct Position {
    pub market_id: String,
    /// Signed net quantity in YES-equivalent contracts.
    pub quantity: i64,
    /// Total cost of the open contracts, in money units. Zero when flat.
    pub entry_cost: i128,
    /// Cumulative realized profit and loss, in money units.
    pub realized_pnl: i128,
}

impl Position {
    /// Structural invariant: the quantity is bounded, the entry cost is
    /// between zero and `|quantity| * SCALE` (the average entry price lies
    /// in [0, 1]), and a flat position carries no cost.
    pub open spec fn wf(self) -> bool {
        &&& -(QTY_MAX as int) <= self.quantity <= QTY_MAX as int
        &&& 0 <= self.entry_cost <= vstd::math::abs(self.quantity as int) * SCALE as int
        &&& self.quantity == 0 ==> self.entry_cost == 0
    }

    /// The average entry price in YES-equivalent terms, rounded toward the
    /// extreme entered from: `entry_cost / quantity` for long-YES, and one
    /// minus the average NO entry price for long-NO. Zero when flat.
    pub open spec fn spec_avg_entry_price(self) -> int {
        if self.quantity == 0 {
            0
        } else if self.quantity > 0 {
            self.entry_cost as int / (self.quantity as int)
        } else {
            SCALE as int - self.entry_cost as int / (-(self.quantity as int))
        }
    }

    pub fn new(market_id: String) -> (p: Position)
        ensures
            p.market_id == market_id,
            p.quantity == 0,
            p.entry_cost == 0,
            p.realized_pnl == 0,
            p.wf(),
    {
        Position { market_id, quantity: 0, entry_cost: 0, realized_pnl: 0 }
    }

    /// The derived average entry price, in YES-equivalent price units.
    pub fn avg_entry_price(&self) -> (r: u64)
        requires
            self.wf(),
        ensures
            r as int == self.spec_avg_entry_price(),
            r <= SCALE,
    {
        if self.quantity == 0 {
            0
        } else if self.quantity > 0 {
            let q: i128 = self.quantity as i128;
            proof {
                assert(self.entry_cost as int / q as int <= SCALE as int && self.entry_cost as int
                    / q as int >= 0) by (nonlinear_arith)
                    requires
                        0 < q,
                        0 <= self.entry_cost as int <= q as int * SCALE as int,
                ;
            }
            (self.entry_cost / q) as u64
        } else {
            let q: i128 = -(self.quantity as i128);
            proof {
                assert(self.entry_cost as int / q as int <= SCALE as int && self.entry_cost as int
                    / q as int >= 0) by (nonlinear_arith)
                    requires
                        0 < q,
                        0 <= self.entry_cost as int <= q as int * SCALE as int,
                ;
            }
            SCALE - (self.entry_cost / q) as u64
        }
    }
}

impl Clone for Position {
    fn clone(&self) -> (r: Self)
        ensures
            r == *self,
    {
        Position {
            market_id: self.market_id.clone(),
            quantity: self.quantity,
            entry_cost: self.entry_cost,
            realized_pnl: self.realized_pnl,
        }
    }
}

/// A point-in-time view of the portfolio.
#[derive(Clone, Copy, Debug)]
pub struct Snapshot {
    pub timestamp: u64,
    pub cash: i128,
    /// `cash + unrealized_pnl`.
    pub total_equity: i128,
    pub unrealized_pnl: i128,
    /// Number of open, unresolved positions.
    pub num_positions: usize,
}

/// Market metadata extracted for lifecycle event processing.
#[derive(Debug)]
pub struct MarketData {
    pub market_id: String,
    pub title: String,
    pub open_time: Option<u64>,
    pub close_time: Option<u64>,
    pub result: Option<Side>,
}

impl Clone for MarketData {
    fn clone(&self) -> (r: Self)
        ensures
            r == *self,
    {
        MarketData {
            market_id: self.market_id.clone(),
            title: self.title.clone(),
            open_time: self.open_time,
            close_time: self.close_time,
            result: self.result,
        }
    }
}

} // verus!
