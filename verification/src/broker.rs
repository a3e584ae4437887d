//! Broker: resting limit orders, per-trade fill matching with a market
//! impact model, and liquidity and cash gating.

use vstd::arithmetic::div_mod::{
    lemma_div_is_ordered, lemma_div_multiples_vanish, lemma_div_pos_is_pos,
    lemma_fundamental_div_mod,
};
use vstd::arithmetic::mul::lemma_mul_nonnegative;
use vstd::math::{max, min};
use vstd::prelude::*;

use crate::math::{
    isqrt, spec_isqrt, MAX_PRICE, MIN_PRICE, MONEY_CAP, QTY_MAX, SCALE, SIZE_FLOOR, SPREAD_NUM,
    VAR_FLOOR,
};
use crate::models::{Fill, Order, OrderAction, OrderStatus, Side, Trade};
use crate::seqs::{find_by, lemma_find_by, lemma_sum_by_cons, sum_by};

verus! {

/// Base price at which a resting order fills against a trade, if it fires.
/// A resting order only executes against a taker on the opposite side of
/// the book, at a price at or better than its limit.
pub open spec fn spec_match_price(o: Order, t: Trade) -> Option<u64> {
    match (o.action, o.side) {
        (OrderAction::Buy, Side::Yes) => if t.taker_side is No && t.yes_price <= o.price {
            Some(t.yes_price)
        } else {
            None
        },
        (OrderAction::Sell, Side::Yes) => if t.taker_side is Yes && t.yes_price >= o.price {
            Some(t.yes_price)
        } else {
            None
        },
        (OrderAction::Buy, Side::No) => if t.taker_side is Yes && t.no_price <= o.price {
            Some(t.no_price)
        } else {
            None
        },
        (OrderAction::Sell, Side::No) => if t.taker_side is No && t.no_price >= o.price {
            Some(t.no_price)
        } else {
            None
        },
    }
}

/// Spread multiplier, scaled by `SCALE`: `0.25 / max(p * (1 - p), 0.01)`,
/// floored at one. One at even odds, up to 25 at extreme prices.
pub open spec fn spec_spread_factor(price: int) -> int {
    let v = max(price * (SCALE as int - price) / SCALE as int, VAR_FLOOR as int);
    max(SPREAD_NUM as int * SCALE as int / v, SCALE as int)
}

/// Size multiplier, scaled by `SCALE`: the square root of the order size
/// over the market's average trade size (`avg`, scaled), floored at one.
pub open spec fn spec_size_factor(order_qty: int, avg: int) -> int {
    let a = max(avg, SIZE_FLOOR as int);
    max(spec_isqrt(order_qty * SCALE as int * SCALE as int * SCALE as int / a), SCALE as int)
}

/// Price impact in price units: the base slippage scaled by both factors.
pub open spec fn spec_impact(slippage: int, price: int, order_qty: int, avg: int) -> int {
    slippage * spec_spread_factor(price) * spec_size_factor(order_qty, avg) / (SCALE as int
        * SCALE as int)
}

/// The impact-adjusted fill price: with zero slippage the base price is
/// used unchanged; otherwise the impact is added to buys and subtracted
/// from sells, clamped to [`MIN_PRICE`, `MAX_PRICE`].
pub open spec fn spec_impact_price(
    slippage: int,
    price: int,
    action: OrderAction,
    order_qty: int,
    avg: int,
) -> int {
    if slippage == 0 {
        price
    } else {
        let impact = spec_impact(slippage, price, order_qty, avg);
        match action {
            OrderAction::Buy => min(price + impact, MAX_PRICE as int),
            OrderAction::Sell => max(price - impact, MIN_PRICE as int),
        }
    }
}

/// One step of the exponentially weighted moving average of trade size,
/// with decay `alpha` (scaled): `ema * (1 - alpha) + qty * alpha`, all in
/// size units scaled by `SCALE`, rounded down.
pub open spec fn spec_ema_next(ema: int, trade_qty: int, alpha: int) -> int {
    (ema * (SCALE as int - alpha) + trade_qty * SCALE as int * alpha) / SCALE as int
}

/// Base price of a matching order, or none.
fn match_order(order: &Order, trade: &Trade) -> (r: Option<u64>)
    ensures
        r == spec_match_price(*order, *trade),
{
    match (order.action, order.side) {
        (OrderAction::Buy, Side::Yes) => if matches!(trade.taker_side, Side::No)
            && trade.yes_price <= order.price {
            Some(trade.yes_price)
        } else {
            None
        },
        (OrderAction::Sell, Side::Yes) => if matches!(trade.taker_side, Side::Yes)
            && trade.yes_price >= order.price {
            Some(trade.yes_price)
        } else {
            None
        },
        (OrderAction::Buy, Side::No) => if matches!(trade.taker_side, Side::Yes)
            && trade.no_price <= order.price {
            Some(trade.no_price)
        } else {
            None
        },
        (OrderAction::Sell, Side::No) => if matches!(trade.taker_side, Side::No)
            && trade.no_price >= order.price {
            Some(trade.no_price)
        } else {
            None
        },
    }
}

/// Impact-adjusted fill price, in price units.
fn apply_market_impact(
    base_slippage: u64,
    price: u64,
    action: OrderAction,
    order_qty: u64,
    avg_trade_size: u64,
) -> (r: u64)
    requires
        base_slippage <= SCALE,
        price <= SCALE,
        order_qty <= QTY_MAX,
    ensures
        r as int == spec_impact_price(
            base_slippage as int,
            price as int,
            action,
            order_qty as int,
            avg_trade_size as int,
        ),
        r <= SCALE,
{
    if base_slippage == 0 {
        return price;
    }
    proof {
        assert(price as int * (SCALE - price) as int <= SCALE as int * SCALE as int)
            by (nonlinear_arith)
            requires
                0 <= price <= SCALE,
        ;
    }
    let v0: u64 = price * (SCALE - price) / SCALE;
    let v: u64 = if v0 < VAR_FLOOR {
        VAR_FLOOR
    } else {
        v0
    };
    let spread_factor: u64 = {
        let f: u64 = SPREAD_NUM * SCALE / v;
        if f < SCALE {
            SCALE
        } else {
            f
        }
    };
    let a: u64 = if avg_trade_size < SIZE_FLOOR {
        SIZE_FLOOR
    } else {
        avg_trade_size
    };
    let ratio: u128 = (order_qty as u128) * (SCALE as u128) * (SCALE as u128) * (SCALE as u128) / (
    a as u128);
    let root: u64 = isqrt(ratio);
    let size_factor: u64 = if root < SCALE {
        SCALE
    } else {
        root
    };
    proof {
        let num = order_qty as int * SCALE as int * SCALE as int * SCALE as int;
        assert(num <= QTY_MAX as int * SCALE as int * SCALE as int * SCALE as int);
        lemma_div_is_ordered(num, QTY_MAX as int * SCALE as int * SCALE as int * SCALE as int, a as int);
        lemma_div_is_ordered_by_denominator_local(
            QTY_MAX as int * SCALE as int * SCALE as int * SCALE as int,
            1,
            a as int,
        );
        assert(ratio as int <= QTY_MAX as int * SCALE as int * SCALE as int * SCALE as int);
        assert(root as int <= 2 * QTY_MAX as int) by (nonlinear_arith)
            requires
                (root as int) * (root as int) <= ratio as int,
                ratio as int <= QTY_MAX as int * SCALE as int * SCALE as int * SCALE as int,
                root as int >= 0,
        ;
        assert(spread_factor as int <= SPREAD_NUM as int * SCALE as int / VAR_FLOOR as int) by {
            lemma_div_is_ordered_by_denominator_local(
                SPREAD_NUM as int * SCALE as int,
                VAR_FLOOR as int,
                v as int,
            );
        }
        assert(SPREAD_NUM as int * SCALE as int / VAR_FLOOR as int == 250000) by (nonlinear_arith)
            requires
                SPREAD_NUM == 2500,
                SCALE == 10000,
                VAR_FLOOR == 100,
        ;
        assert(base_slippage as int * spread_factor as int <= 2500000000) by (nonlinear_arith)
            requires
                0 <= base_slippage <= 10000,
                0 <= spread_factor as int <= 250000,
        ;
        lemma_mul_nonnegative(base_slippage as int, spread_factor as int);
        assert(base_slippage as int * spread_factor as int * size_factor as int
            <= 5000000000000000000000 && base_slippage as int * spread_factor as int
            * size_factor as int >= 0) by (nonlinear_arith)
            requires
                0 <= base_slippage as int * spread_factor as int <= 2500000000,
                0 <= size_factor as int <= 2000000000000,
        ;
        lemma_div_is_ordered(
            base_slippage as int * spread_factor as int * size_factor as int,
            5000000000000000000000,
            SCALE as int * SCALE as int,
        );
        lemma_div_pos_is_pos(
            base_slippage as int * spread_factor as int * size_factor as int,
            SCALE as int * SCALE as int,
        );
        assert(5000000000000000000000int / (SCALE as int * SCALE as int) <= 50000000000000)
            by (nonlinear_arith)
            requires
                SCALE == 10000,
        ;
    }
    let impact: u64 = ((base_slippage as u128) * (spread_factor as u128) * (size_factor as u128)
        / ((SCALE as u128) * (SCALE as u128))) as u64;
    match action {
        OrderAction::Buy => {
            let p: u64 = if (price as u128) + (impact as u128) < (MAX_PRICE as u128) {
                price + impact
            } else {
                MAX_PRICE
            };
            p
        },
        OrderAction::Sell => {
            if impact >= price {
                MIN_PRICE
            } else {
                let p: u64 = price - impact;
                if p < MIN_PRICE {
                    MIN_PRICE
                } else {
                    p
                }
            }
        },
    }
}

/// `x / d` shrinks when the denominator grows.
proof fn lemma_div_is_ordered_by_denominator_local(x: int, d1: int, d2: int)
    requires
        0 <= x,
        1 <= d1 <= d2,
    ensures
        x / d2 <= x / d1,
{
    lemma_fundamental_div_mod(x, d1);
    lemma_fundamental_div_mod(x, d2);
    assert(x / d2 <= x / d1) by (nonlinear_arith)
        requires
            x == d1 * (x / d1) + x % d1,
            x == d2 * (x / d2) + x % d2,
            0 <= x % d1 < d1,
            0 <= x % d2 < d2,
            1 <= d1 <= d2,
            x >= 0,
    ;
}

/// The exponentially weighted moving average of trade size for one market,
/// in contracts scaled by `SCALE`.
#[derive(Debug)]
pub struct EmaEntry {
    pub market_id: String,
    pub ema: u64,
}

pub open spec fn order_pred(order_id: u64) -> spec_fn(Order) -> bool {
    |o: Order| o.order_id == order_id
}

pub open spec fn find_order(s: Seq<Order>, order_id: u64) -> int {
    find_by(s, order_pred(order_id))
}

pub open spec fn ema_pred(m: Seq<char>) -> spec_fn(EmaEntry) -> bool {
    |e: EmaEntry| e.market_id@ == m
}

pub open spec fn find_ema(s: Seq<EmaEntry>, m: Seq<char>) -> int {
    find_by(s, ema_pred(m))
}

/// Order ids in the pending list grow strictly with position: the list is
/// append-only with a monotonic counter, and removals keep the order.
pub open spec fn ids_increasing(s: Seq<Order>) -> bool {
    forall|i: int, j: int| 0 <= i < j < s.len() ==> s[i].order_id < s[j].order_id
}

/// The pending list `cancel_all` leaves for a market: every order of that
/// market removed, the rest kept in order.
pub open spec fn drop_market(s: Seq<Order>, m: Seq<char>) -> Seq<Order>
    decreases s.len(),
{
    if s.len() == 0 {
        Seq::empty()
    } else {
        let r = drop_market(s.drop_last(), m);
        if s.last().market_id@ == m {
            r
        } else {
            r.push(s.last())
        }
    }
}

/// `drop_market` keeps a subset of the orders, in order.
pub proof fn lemma_drop_market(s: Seq<Order>, m: Seq<char>)
    ensures
        drop_market(s, m).len() <= s.len(),
        forall|k: int|
            0 <= k < drop_market(s, m).len() ==> exists|j: int|
                0 <= j < s.len() && #[trigger] drop_market(s, m)[k] == s[j],
        ids_increasing(s) ==> ids_increasing(drop_market(s, m)),
    decreases s.len(),
{
    if s.len() != 0 {
        lemma_drop_market(s.drop_last(), m);
        let r = drop_market(s.drop_last(), m);
        assert(forall|j: int| 0 <= j < s.drop_last().len() ==> s.drop_last()[j] == s[j]);
        if s.last().market_id@ != m {
            assert(forall|k: int|
                0 <= k < r.len() ==> #[trigger] drop_market(s, m)[k] == r[k]);
            assert(drop_market(s, m)[r.len() as int] == s[s.len() - 1]);
            if ids_increasing(s) {
                assert(ids_increasing(s.drop_last()));
                assert forall|i: int, j: int|
                    0 <= i < j < drop_market(s, m).len() implies drop_market(s, m)[i].order_id
                    < drop_market(s, m)[j].order_id by {
                    if j < r.len() {
                    } else {
                        let jj = choose|jj: int|
                            0 <= jj < s.drop_last().len() && #[trigger] r[i] == s.drop_last()[jj];
                        assert(drop_market(s, m)[j] == s.last());
                        assert(r[i].order_id == s[jj].order_id);
                    }
                }
            }
        } else {
            if ids_increasing(s) {
                assert(ids_increasing(s.drop_last()));
            }
        }
    }
}

/// Holds resting limit orders per market (in placement order), prices fills
/// with the market impact model, and enforces liquidity and cash caps.
pub struct Broker {
    /// All pending orders, in placement order; per-market FIFO matching
    /// follows from the global order.
    pub pending: Vec<Order>,
    /// Commission rate, scaled by `SCALE`.
    pub commission_rate: u64,
    /// Base slippage, in price units.
    pub slippage: u64,
    /// Whether total fills against one trade are capped by its quantity.
    pub liquidity_cap: bool,
    /// The next order id; ids start at 1 and grow by one per order.
    pub next_id: u64,
    /// Per-market moving average of trade size, scaled by `SCALE`.
    pub ema_trade_size: Vec<EmaEntry>,
    /// EMA decay, scaled by `SCALE`, in (0, 1].
    pub ema_decay: u64,
    /// How many orders were ever placed.
    pub placed: Ghost<int>,
    /// How many orders were ever cancelled.
    pub cancelled: Ghost<int>,
    /// How many orders were ever filled.
    pub filled: Ghost<int>,
}

impl Broker {
    /// Structural invariant. Its last line is the pending-count law: the
    /// number of pending orders always equals the number placed minus the
    /// numbers cancelled and filled.
    pub open spec fn wf(self) -> bool {
        &&& 1 <= self.next_id
        &&& self.commission_rate <= SCALE
        &&& self.slippage <= SCALE
        &&& 1 <= self.ema_decay <= SCALE
        &&& forall|i: int|
            0 <= i < self.pending@.len() ==> (#[trigger] self.pending@[i]).wf()
        &&& forall|i: int|
            0 <= i < self.pending@.len() ==> 1 <= (#[trigger] self.pending@[i]).order_id
                < self.next_id
        &&& forall|i: int|
            0 <= i < self.pending@.len() ==> (#[trigger] self.pending@[i]).status
                is Pending
        &&& ids_increasing(self.pending@)
        &&& self.placed@ >= 0 && self.cancelled@ >= 0 && self.filled@ >= 0
        &&& self.pending@.len() == self.placed@ - self.cancelled@ - self.filled@
        &&& self.next_id == self.placed@ + 1
    }

    pub fn new(commission_rate: u64, slippage: u64, liquidity_cap: bool, ema_decay: u64) -> (b:
        Broker)
        requires
            commission_rate <= SCALE,
            slippage <= SCALE,
            1 <= ema_decay <= SCALE,
        ensures
            b.wf(),
            b.pending@ == Seq::<Order>::empty(),
            b.commission_rate == commission_rate,
            b.slippage == slippage,
            b.liquidity_cap == liquidity_cap,
            b.next_id == 1,
            b.ema_trade_size@ == Seq::<EmaEntry>::empty(),
            b.ema_decay == ema_decay,
            b.placed@ == 0 && b.cancelled@ == 0 && b.filled@ == 0,
    {
        Broker {
            pending: Vec::new(),
            commission_rate,
            slippage,
            liquidity_cap,
            next_id: 1,
            ema_trade_size: Vec::new(),
            ema_decay,
            placed: Ghost(0int),
            cancelled: Ghost(0int),
            filled: Ghost(0int),
        }
    }

    /// Update the market's moving average of trade size; the first observed
    /// trade seeds the average with its own size. Call before `check_fills`
    /// for the same trade.
    pub fn update_trade_size(&mut self, market_id: &str, trade_qty: u64)
        requires
            old(self).wf(),
            trade_qty <= QTY_MAX,
        ensures
            final(self).wf(),
            ({
                let i = find_ema(old(self).ema_trade_size@, market_id@);
                if i >= 0 {
                    final(self).ema_trade_size@ == old(self).ema_trade_size@.update(
                        i,
                        EmaEntry {
                            market_id: old(self).ema_trade_size@[i].market_id,
                            ema: spec_ema_next(
                                old(self).ema_trade_size@[i].ema as int,
                                trade_qty as int,
                                old(self).ema_decay as int,
                            ) as u64,
                        },
                    )
                } else {
                    final(self).ema_trade_size@.len() == old(self).ema_trade_size@.len() + 1
                        && final(self).ema_trade_size@.drop_last() == old(self).ema_trade_size@
                        && final(self).ema_trade_size@.last().market_id@ == market_id@
                        && final(self).ema_trade_size@.last().ema == trade_qty * SCALE
                }
            }),
            final(self).pending == old(self).pending,
            final(self).next_id == old(self).next_id,
            final(self).commission_rate == old(self).commission_rate,
            final(self).slippage == old(self).slippage,
            final(self).liquidity_cap == old(self).liquidity_cap,
            final(self).ema_decay == old(self).ema_decay,
            final(self).placed == old(self).placed,
            final(self).cancelled == old(self).cancelled,
            final(self).filled == old(self).filled,
    {
        let owned: String = market_id.to_owned();
        match find_ema_index(&self.ema_trade_size, &owned) {
            Some(i) => {
                let e: u64 = self.ema_trade_size[i].ema;
                proof {
                    assert(e as int * (SCALE - self.ema_decay) as int <= 0xffffffffffffffffint
                        * 10000) by (nonlinear_arith)
                        requires
                            0 <= e as int <= 0xffffffffffffffffint,
                            0 <= (SCALE - self.ema_decay) as int <= 10000,
                    ;
                    assert(0 <= trade_qty as int * SCALE as int * self.ema_decay as int
                        <= 1000000000000int * 10000 * 10000) by (nonlinear_arith)
                        requires
                            0 <= trade_qty <= 1000000000000int,
                            SCALE == 10000,
                            0 <= self.ema_decay <= 10000,
                    ;
                    lemma_mul_nonnegative(e as int, (SCALE - self.ema_decay) as int);
                }
                let num: u128 = (e as u128) * ((SCALE - self.ema_decay) as u128) + (
                trade_qty as u128) * (SCALE as u128) * (self.ema_decay as u128);
                let next: u128 = num / (SCALE as u128);
                proof {
                    let ghost m = if e as int >= trade_qty as int * SCALE as int {
                        e as int
                    } else {
                        trade_qty as int * SCALE as int
                    };
                    assert(num as int <= m * SCALE as int) by (nonlinear_arith)
                        requires
                            num as int == e as int * (SCALE - self.ema_decay) as int
                                + trade_qty as int * SCALE as int * self.ema_decay as int,
                            0 <= e as int <= m,
                            0 <= trade_qty as int * SCALE as int <= m,
                            1 <= self.ema_decay <= SCALE,
                    ;
                    lemma_div_is_ordered(num as int, m * SCALE as int, SCALE as int);
                    lemma_div_multiples_vanish(m, SCALE as int);
                    assert(m * SCALE as int == SCALE as int * m) by (nonlinear_arith);
                    assert(trade_qty as int * SCALE as int <= QTY_MAX as int * SCALE as int)
                        by (nonlinear_arith)
                        requires
                            0 <= trade_qty <= QTY_MAX,
                            SCALE >= 0,
                    ;
                }
                let entry = &mut self.ema_trade_size[i];
                entry.ema = next as u64;
            },
            None => {
                proof {
                    assert(trade_qty as int * SCALE as int <= QTY_MAX as int * SCALE as int)
                        by (nonlinear_arith)
                        requires
                            0 <= trade_qty <= QTY_MAX,
                            SCALE >= 0,
                    ;
                }
                self.ema_trade_size.push(EmaEntry { market_id: owned, ema: trade_qty * SCALE });
                proof {
                    assert(self.ema_trade_size@.drop_last() =~= old(self).ema_trade_size@);
                }
            },
        }
    }

    /// Create a pending order with the next id and append it to the book.
    /// Beyond the engine's numeric bounds nothing is validated.
    pub fn place_order(
        &mut self,
        market_id: &str,
        action: OrderAction,
        side: Side,
        price: u64,
        quantity: u64,
        timestamp: u64,
    ) -> (o: Order)
        requires
            old(self).wf(),
            price <= SCALE,
            quantity <= QTY_MAX,
            old(self).next_id < u64::MAX,
        ensures
            final(self).wf(),
            o.order_id == old(self).next_id,
            o.order_id == old(self).placed@ + 1,
            o.market_id@ == market_id@,
            o.action == action && o.side == side && o.price == price && o.quantity == quantity,
            o.status is Pending,
            o.created_at == timestamp,
            o.filled_at is None && o.fill_price is None && o.filled_quantity == 0,
            final(self).pending@ == old(self).pending@.push(o),
            final(self).next_id == old(self).next_id + 1,
            final(self).placed@ == old(self).placed@ + 1,
            final(self).cancelled == old(self).cancelled,
            final(self).filled == old(self).filled,
            final(self).ema_trade_size == old(self).ema_trade_size,
            final(self).commission_rate == old(self).commission_rate,
            final(self).slippage == old(self).slippage,
            final(self).liquidity_cap == old(self).liquidity_cap,
            final(self).ema_decay == old(self).ema_decay,
    {
        let order = Order {
            order_id: self.next_id,
            market_id: market_id.to_owned(),
            action,
            side,
            price,
            quantity,
            status: OrderStatus::Pending,
            created_at: timestamp,
            filled_at: None,
            fill_price: None,
            filled_quantity: 0,
        };
        self.next_id = self.next_id + 1;
        let copy = order.clone();
        self.pending.push(order);
        proof {
            self.placed@ = old(self).placed@ + 1;
        }
        copy
    }

    /// Remove the pending order with this id. Returns whether one existed.
    pub fn cancel_order(&mut self, order_id: u64) -> (r: bool)
        requires
            old(self).wf(),
        ensures
            final(self).wf(),
            r == (find_order(old(self).pending@, order_id) >= 0),
            r ==> final(self).pending@ == old(self).pending@.remove(
                find_order(old(self).pending@, order_id),
            ) && final(self).cancelled@ == old(self).cancelled@ + 1,
            !r ==> final(self).pending@ == old(self).pending@ && final(self).cancelled == old(
                self,
            ).cancelled,
            final(self).placed == old(self).placed,
            final(self).filled == old(self).filled,
            final(self).next_id == old(self).next_id,
            final(self).ema_trade_size == old(self).ema_trade_size,
            final(self).commission_rate == old(self).commission_rate,
            final(self).slippage == old(self).slippage,
            final(self).liquidity_cap == old(self).liquidity_cap,
            final(self).ema_decay == old(self).ema_decay,
    {
        let n = self.pending.len();
        let mut i: usize = 0;
        while i < n
            invariant
                i <= n,
                n == self.pending@.len(),
                *self == *old(self),
                old(self).wf(),
                forall|j: int| 0 <= j < i ==> (#[trigger] self.pending@[j]).order_id != order_id,
            decreases n - i,
        {
            if self.pending[i].order_id == order_id {
                proof {
                    lemma_find_by(self.pending@, order_pred(order_id));
                    assert(order_pred(order_id)(self.pending@[i as int]));
                    let f = find_order(self.pending@, order_id);
                    if 0 <= f < i as int {
                        assert(order_pred(order_id)(self.pending@[f]));
                    }
                }
                self.pending.remove(i);
                proof {
                    self.cancelled@ = old(self).cancelled@ + 1;
                    old(self).pending@.remove_ensures(i as int);
                    assert forall|a: int, b: int|
                        0 <= a < b < self.pending@.len() implies self.pending@[a].order_id
                        < self.pending@[b].order_id by {
                        assert(self.pending@[a] == if a < i as int {
                            old(self).pending@[a]
                        } else {
                            old(self).pending@[a + 1]
                        });
                        assert(self.pending@[b] == if b < i as int {
                            old(self).pending@[b]
                        } else {
                            old(self).pending@[b + 1]
                        });
                    }
                    assert forall|k: int|
                        0 <= k < self.pending@.len() implies (#[trigger] self.pending@[k]).wf() && 1
                        <= self.pending@[k].order_id < self.next_id && self.pending@[k].status
                        is Pending by {
                        assert(self.pending@[k] == if k < i as int {
                            old(self).pending@[k]
                        } else {
                            old(self).pending@[k + 1]
                        });
                    }
                }
                return true;
            }
            i += 1;
        }
        proof {
            lemma_find_by(self.pending@, order_pred(order_id));
            let f = find_order(self.pending@, order_id);
            if f >= 0 {
                assert(order_pred(order_id)(self.pending@[f]));
            }
        }
        false
    }

    /// Drop every pending order of one market, or all pending orders when
    /// no market is given. Returns how many were removed.
    pub fn cancel_all(&mut self, market_id: Option<&str>) -> (r: usize)
        requires
            old(self).wf(),
        ensures
            final(self).wf(),
            match market_id {
                Some(m) => final(self).pending@ == drop_market(old(self).pending@, m@),
                None => final(self).pending@ == Seq::<Order>::empty(),
            },
            r == old(self).pending@.len() - final(self).pending@.len(),
            final(self).cancelled@ == old(self).cancelled@ + r,
            final(self).placed == old(self).placed,
            final(self).filled == old(self).filled,
            final(self).next_id == old(self).next_id,
            final(self).ema_trade_size == old(self).ema_trade_size,
            final(self).commission_rate == old(self).commission_rate,
            final(self).slippage == old(self).slippage,
            final(self).liquidity_cap == old(self).liquidity_cap,
            final(self).ema_decay == old(self).ema_decay,
    {
        match market_id {
            None => {
                let r = self.pending.len();
                self.pending.clear();
                proof {
                    self.cancelled@ = old(self).cancelled@ + r as int;
                }
                r
            },
            Some(m) => {
                let owned: String = m.to_owned();
                let n = self.pending.len();
                let mut kept: Vec<Order> = Vec::new();
                let mut i: usize = 0;
                while i < n
                    invariant
                        i <= n,
                        n == self.pending@.len(),
                        *self == *old(self),
                        old(self).wf(),
                        owned@ == m@,
                        kept@ == drop_market(self.pending@.take(i as int), m@),
                    decreases n - i,
                {
                    proof {
                        assert(self.pending@.take(i as int + 1).drop_last() =~= self.pending@.take(
                            i as int,
                        ));
                    }
                    if !(self.pending[i].market_id == owned) {
                        kept.push(self.pending[i].clone());
                    }
                    i += 1;
                }
                proof {
                    assert(self.pending@.take(n as int) =~= self.pending@);
                    lemma_drop_market(self.pending@, m@);
                }
                let r = self.pending.len() - kept.len();
                self.pending = kept;
                proof {
                    self.cancelled@ = old(self).cancelled@ + r as int;
                    assert forall|k: int|
                        0 <= k < self.pending@.len() implies (#[trigger] self.pending@[k]).wf() && 1
                        <= self.pending@[k].order_id < self.next_id && self.pending@[k].status
                        is Pending by {
                        let j = choose|j: int|
                            0 <= j < old(self).pending@.len() && self.pending@[k] == old(
                                self,
                            ).pending@[j];
                    }
                }
                r
            },
        }
    }

    /// Copies of all pending orders, in placement order.
    pub fn all_pending(&self) -> (v: Vec<Order>)
        ensures
            v@ == self.pending@,
    {
        let n = self.pending.len();
        let mut v: Vec<Order> = Vec::new();
        let mut i: usize = 0;
        while i < n
            invariant
                i <= n,
                n == self.pending@.len(),
                v@ == self.pending@.take(i as int),
            decreases n - i,
        {
            v.push(self.pending[i].clone());
            proof {
                assert(self.pending@.take(i as int + 1).drop_last() =~= self.pending@.take(
                    i as int,
                ));
                assert(v@ =~= self.pending@.take(i as int + 1));
            }
            i += 1;
        }
        proof {
            assert(self.pending@.take(n as int) =~= self.pending@);
        }
        v
    }
}

fn find_ema_index(entries: &Vec<EmaEntry>, market_id: &String) -> (r: Option<usize>)
    ensures
        match r {
            Some(i) => i < entries@.len() && find_ema(entries@, market_id@) == i as int,
            None => find_ema(entries@, market_id@) == -1,
        },
{
    let n = entries.len();
    let mut i: usize = 0;
    while i < n
        invariant
            i <= n,
            n == entries@.len(),
            forall|j: int| 0 <= j < i ==> (#[trigger] entries@[j]).market_id@ != market_id@,
        decreases n - i,
    {
        if entries[i].market_id == *market_id {
            proof {
                lemma_find_by(entries@, ema_pred(market_id@));
                assert(ema_pred(market_id@)(entries@[i as int]));
                let f = find_ema(entries@, market_id@);
                if 0 <= f < i as int {
                    assert(ema_pred(market_id@)(entries@[f]));
                    assert(entries@[f].market_id@ == market_id@);
                }
            }
            return Some(i);
        }
        i += 1;
    }
    proof {
        lemma_find_by(entries@, ema_pred(market_id@));
        let f = find_ema(entries@, market_id@);
        if f >= 0 {
            assert(ema_pred(market_id@)(entries@[f]));
            assert(entries@[f].market_id@ == market_id@);
        }
    }
    None
}

/// Outcome of matching one pending order against a trade, given the running
/// cash and remaining liquidity: the impact-adjusted fill price, the fill
/// quantity, and the commission, or nothing when the order does not fire.
///
/// A buy whose cost and commission exceed the running cash is skipped
/// outright without the liquidity cap; with it, the fill is shrunk to
/// `cash / (price * (1 + rate))` whole contracts — the affordable quantity,
/// rounded down — and its cost and commission still never exceed the cash.
pub open spec fn spec_check_step(
    o: Order,
    t: Trade,
    rate: int,
    slip: int,
    cap: bool,
    avg: int,
    cash: int,
    liq: int,
) -> Option<(int, int, int)> {
    match spec_match_price(o, t) {
        None => None,
        Some(base) => {
            let fp = spec_impact_price(slip, base as int, o.action, o.quantity as int, avg);
            let fq0 = if cap {
                min(o.quantity as int, liq)
            } else {
                o.quantity as int
            };
            if fq0 <= 0 {
                None
            } else {
                let cost = fp * fq0;
                let comm = cost * rate / SCALE as int;
                if o.action is Buy && cost + comm > cash {
                    if !cap {
                        None
                    } else if fp == 0 {
                        None
                    } else {
                        // The cash affords `cash / (price * (1 + rate))`
                        // contracts, floored to a whole number; fewer than
                        // one means no fill.
                        let denom = fp * (SCALE as int + rate);
                        if cash * SCALE < denom {
                            None
                        } else {
                            let fq = min(fq0, cash * SCALE / denom);
                            Some((fp, fq, fp * fq * rate / SCALE as int))
                        }
                    }
                } else {
                    Some((fp, fq0, comm))
                }
            }
        },
    }
}

/// The fill a matched order produces.
pub open spec fn spec_fill_of(o: Order, t: Trade, fp: int, fq: int, comm: int) -> Fill {
    Fill {
        order_id: o.order_id,
        market_id: o.market_id,
        action: o.action,
        side: o.side,
        price: fp as u64,
        quantity: fq as u64,
        timestamp: t.timestamp,
        commission: comm as i128,
    }
}

/// The fills emitted and the orders kept when a trade is matched against a
/// pending list, processed in placement order with running cash and
/// remaining liquidity. Orders of other markets are kept untouched; a
/// matched order is consumed by its fill; buys spend cash; every fill
/// consumes liquidity.
pub open spec fn spec_check_fills(
    orders: Seq<Order>,
    t: Trade,
    rate: int,
    slip: int,
    cap: bool,
    avg: int,
    cash: int,
    liq: int,
) -> (Seq<Fill>, Seq<Order>)
    decreases orders.len(),
{
    if orders.len() == 0 {
        (Seq::empty(), Seq::empty())
    } else {
        let o = orders[0];
        if o.market_id@ != t.market_id@ {
            let r = spec_check_fills(orders.skip(1), t, rate, slip, cap, avg, cash, liq);
            (r.0, seq![o] + r.1)
        } else {
            match spec_check_step(o, t, rate, slip, cap, avg, cash, liq) {
                None => {
                    let r = spec_check_fills(orders.skip(1), t, rate, slip, cap, avg, cash, liq);
                    (r.0, seq![o] + r.1)
                },
                Some((fp, fq, comm)) => {
                    let cash2 = if o.action is Buy {
                        cash - fp * fq - comm
                    } else {
                        cash
                    };
                    let liq2 = if cap {
                        liq - fq
                    } else {
                        liq
                    };
                    let r = spec_check_fills(orders.skip(1), t, rate, slip, cap, avg, cash2, liq2);
                    (seq![spec_fill_of(o, t, fp, fq, comm)] + r.0, r.1)
                },
            }
        }
    }
}

/// The average trade size used to price a trade's fills: the market's
/// moving average, or the trade's own size before any average exists.
pub open spec fn spec_avg_for_trade(emas: Seq<EmaEntry>, t: Trade) -> int {
    let i = find_ema(emas, t.market_id@);
    if i >= 0 {
        emas[i].ema as int
    } else {
        t.quantity as int * SCALE as int
    }
}

impl Broker {
    /// Match one order against the trade under the running cash and
    /// liquidity, exactly as `spec_check_step` describes.
    fn check_step(
        o: &Order,
        t: &Trade,
        rate: u64,
        slip: u64,
        cap: bool,
        avg: u64,
        cash: i128,
        liq: u64,
    ) -> (r: Option<(u64, u64, i128)>)
        requires
            o.wf(),
            t.wf(),
            rate <= SCALE,
            slip <= SCALE,
            -MONEY_CAP <= cash <= MONEY_CAP,
        ensures
            spec_check_step(*o, *t, rate as int, slip as int, cap, avg as int, cash as int,
            liq as int) == match r {
                None => None::<(int, int, int)>,
                Some((fp, fq, comm)) => Some((fp as int, fq as int, comm as int)),
            },
            match r {
                None => true,
                Some((fp, fq, comm)) => {
                    &&& fp <= SCALE
                    &&& 1 <= fq <= o.quantity
                    &&& cap ==> fq <= liq
                    &&& 0 <= comm <= SCALE as int * QTY_MAX as int
                    &&& o.action is Buy ==> fp as int * fq as int + comm <= cash
                },
            },
    {
        let base: u64 = match match_order(o, t) {
            None => {
                return None;
            },
            Some(b) => b,
        };
        let fp: u64 = apply_market_impact(slip, base, o.action, o.quantity, avg);
        let fq0: u64 = if cap {
            if o.quantity < liq {
                o.quantity
            } else {
                liq
            }
        } else {
            o.quantity
        };
        if fq0 == 0 {
            return None;
        }
        proof {
            assert(0 <= fp as int * fq0 as int <= SCALE as int * QTY_MAX as int)
                by (nonlinear_arith)
                requires
                    0 <= fp <= SCALE,
                    0 < fq0 <= QTY_MAX,
            ;
            assert(0 <= fp as int * fq0 as int * rate as int <= SCALE as int * QTY_MAX as int
                * SCALE as int) by (nonlinear_arith)
                requires
                    0 <= fp as int * fq0 as int <= SCALE as int * QTY_MAX as int,
                    0 <= rate <= SCALE,
            ;
            lemma_div_pos_is_pos(fp as int * fq0 as int * rate as int, SCALE as int);
            assert(fp as int * fq0 as int * rate as int <= fp as int * fq0 as int * SCALE as int)
                by (nonlinear_arith)
                requires
                    0 <= fp as int * fq0 as int,
                    rate <= SCALE,
            ;
            lemma_div_is_ordered(
                fp as int * fq0 as int * rate as int,
                fp as int * fq0 as int * SCALE as int,
                SCALE as int,
            );
            lemma_div_multiples_vanish(fp as int * fq0 as int, SCALE as int);
            assert(fp as int * fq0 as int * SCALE as int == SCALE as int * (fp as int
                * fq0 as int)) by (nonlinear_arith);
        }
        let cost: i128 = (fp as i128) * (fq0 as i128);
        let comm: i128 = cost * (rate as i128) / (SCALE as i128);
        if matches!(o.action, OrderAction::Buy) && cost + comm > cash {
            if !cap {
                return None;
            }
            if fp == 0 {
                return None;
            }
            proof {
                assert(SCALE as int <= fp as int * (SCALE + rate) as int <= 2 * SCALE as int
                    * SCALE as int) by (nonlinear_arith)
                    requires
                        1 <= fp <= SCALE,
                        SCALE as int <= (SCALE + rate) as int <= 2 * SCALE as int,
                ;
            }
            let denom: i128 = (fp as i128) * ((SCALE + rate) as i128);
            if cash * (SCALE as i128) < denom {
                return None;
            }
            let mq: i128 = cash * (SCALE as i128) / denom;
            proof {
                lemma_div_pos_is_pos(cash as int * SCALE as int, denom as int);
                lemma_fundamental_div_mod(cash as int * SCALE as int, denom as int);
                assert(mq >= 1) by (nonlinear_arith)
                    requires
                        cash as int * SCALE as int == denom as int * (cash as int * SCALE as int
                            / denom as int) + cash as int * SCALE as int % (denom as int),
                        0 <= cash as int * SCALE as int % (denom as int),
                        (cash as int * SCALE as int % (denom as int)) < denom as int,
                        cash as int * SCALE as int >= denom as int,
                        denom as int >= 1,
                        mq as int == cash as int * SCALE as int / denom as int,
                ;
            }
            let fq: u64 = if (fq0 as i128) < mq {
                fq0
            } else {
                mq as u64
            };
            proof {
                assert(0 <= fp as int * fq as int <= SCALE as int * QTY_MAX as int)
                    by (nonlinear_arith)
                    requires
                        0 <= fp <= SCALE,
                        0 < fq <= QTY_MAX,
                ;
                assert(0 <= fp as int * fq as int * rate as int <= SCALE as int * QTY_MAX as int
                    * SCALE as int) by (nonlinear_arith)
                    requires
                        0 <= fp as int * fq as int <= SCALE as int * QTY_MAX as int,
                        0 <= rate <= SCALE,
                ;
                lemma_div_pos_is_pos(fp as int * fq as int * rate as int, SCALE as int);
                assert(fp as int * fq as int * rate as int <= fp as int * fq as int
                    * SCALE as int) by (nonlinear_arith)
                    requires
                        0 <= fp as int * fq as int,
                        rate <= SCALE,
                ;
                lemma_div_is_ordered(
                    fp as int * fq as int * rate as int,
                    fp as int * fq as int * SCALE as int,
                    SCALE as int,
                );
                lemma_div_multiples_vanish(fp as int * fq as int, SCALE as int);
                assert(fp as int * fq as int * SCALE as int == SCALE as int * (fp as int
                    * fq as int)) by (nonlinear_arith);
            }
            let cost2: i128 = (fp as i128) * (fq as i128);
            let comm2: i128 = cost2 * (rate as i128) / (SCALE as i128);
            proof {
                // The fill is cut to the contracts the cash affords, so its
                // cost and commission never exceed the running cash.
                let fpi = fp as int;
                let fqi = fq as int;
                let ratei = rate as int;
                let si = SCALE as int;
                let denomi = denom as int;
                lemma_fundamental_div_mod(fpi * fqi * ratei, si);
                let c2 = fpi * fqi + fpi * fqi * ratei / si;
                assert(c2 * si <= fqi * denomi) by (nonlinear_arith)
                    requires
                        fpi * fqi * ratei == si * (fpi * fqi * ratei / si) + (fpi * fqi * ratei)
                            % si,
                        0 <= (fpi * fqi * ratei) % si,
                        c2 == fpi * fqi + fpi * fqi * ratei / si,
                        denomi == fpi * (si + ratei),
                        fqi >= 0,
                        si >= 1,
                ;
                lemma_fundamental_div_mod(cash as int * si, denomi);
                assert(fqi * denomi <= cash as int * si) by (nonlinear_arith)
                    requires
                        cash as int * si == denomi * (cash as int * si / denomi) + (cash as int
                            * si) % denomi,
                        0 <= (cash as int * si) % denomi,
                        fqi <= cash as int * si / denomi,
                        denomi >= 1,
                ;
                assert(c2 <= cash as int) by (nonlinear_arith)
                    requires
                        c2 * si <= fqi * denomi,
                        fqi * denomi <= cash as int * si,
                        si >= 1,
                ;
            }
            return Some((fp, fq, comm2));
        }
        Some((fp, fq0, comm))
    }
}

/// What matching preserves: one fill per consumed order, kept orders taken
/// from the list in order, well-formed fills for the trade's market, and —
/// with strictly increasing order ids — strictly increasing fill ids,
/// disjoint from the ids still pending. These are the uniqueness laws for
/// emitted fills.
#[verifier::rlimit(100)]
pub proof fn lemma_check_fills_shape(
    orders: Seq<Order>,
    t: Trade,
    rate: int,
    slip: int,
    cap: bool,
    avg: int,
    cash: int,
    liq: int,
)
    requires
        t.wf(),
        0 <= rate <= SCALE as int,
        0 <= slip <= SCALE as int,
        forall|j: int| 0 <= j < orders.len() ==> (#[trigger] orders[j]).wf(),
    ensures
        ({
            let (fills, kept) = spec_check_fills(orders, t, rate, slip, cap, avg, cash, liq);
            &&& fills.len() + kept.len() == orders.len()
            &&& forall|k: int|
                0 <= k < kept.len() ==> exists|j: int|
                    0 <= j < orders.len() && #[trigger] kept[k] == orders[j]
            &&& forall|k: int|
                0 <= k < fills.len() ==> (#[trigger] fills[k]).wf() && fills[k].quantity >= 1
                    && fills[k].market_id@ == t.market_id@ && fills[k].timestamp == t.timestamp
            &&& forall|k: int|
                0 <= k < fills.len() ==> exists|j: int|
                    0 <= j < orders.len() && (#[trigger] fills[k]).order_id == orders[j].order_id
                        && orders[j].market_id@ == t.market_id@
            &&& ids_increasing(orders) ==> {
                &&& ids_increasing(kept)
                &&& forall|k: int, l: int|
                    0 <= k < l < fills.len() ==> (#[trigger] fills[k]).order_id < (
                    #[trigger] fills[l]).order_id
                &&& forall|k: int, l: int|
                    0 <= k < fills.len() && 0 <= l < kept.len() ==> (#[trigger] fills[k]).order_id
                        != (#[trigger] kept[l]).order_id
            }
        }),
    decreases orders.len(),
{
    if orders.len() == 0 {
    } else {
        let o = orders[0];
        let rest = orders.skip(1);
        assert(forall|j: int| 0 <= j < rest.len() ==> rest[j] == orders[j + 1]);
        let step = spec_check_step(o, t, rate, slip, cap, avg, cash, liq);
        let fired = o.market_id@ == t.market_id@ && step is Some;
        let (cash2, liq2) = if fired {
            let (fp, fq, comm) = step->Some_0;
            (
                if o.action is Buy {
                    cash - fp * fq - comm
                } else {
                    cash
                },
                if cap {
                    liq - fq
                } else {
                    liq
                },
            )
        } else {
            (cash, liq)
        };
        lemma_check_fills_shape(rest, t, rate, slip, cap, avg, cash2, liq2);
        let (rf, rk) = spec_check_fills(rest, t, rate, slip, cap, avg, cash2, liq2);
        let (fills, kept) = spec_check_fills(orders, t, rate, slip, cap, avg, cash, liq);
        if !fired {
            assert(fills == rf && kept == seq![o] + rk);
            assert forall|k: int| 0 <= k < kept.len() implies exists|j: int|
                0 <= j < orders.len() && #[trigger] kept[k] == orders[j] by {
                if k == 0 {
                    assert(kept[0] == orders[0]);
                } else {
                    let j = choose|j: int| 0 <= j < rest.len() && #[trigger] rk[k - 1] == rest[j];
                    assert(kept[k] == rk[k - 1] && rk[k - 1] == orders[j + 1]);
                }
            }
            assert forall|k: int| 0 <= k < fills.len() implies exists|j: int|
                0 <= j < orders.len() && (#[trigger] fills[k]).order_id == orders[j].order_id
                    && orders[j].market_id@ == t.market_id@ by {
                let j = choose|j: int|
                    0 <= j < rest.len() && (#[trigger] rf[k]).order_id == rest[j].order_id
                        && rest[j].market_id@ == t.market_id@;
                assert(fills[k].order_id == orders[j + 1].order_id);
            }
            if ids_increasing(orders) {
                assert(ids_increasing(rest));
                assert forall|a: int, b: int| 0 <= a < b < kept.len() implies kept[a].order_id
                    < kept[b].order_id by {
                    if a == 0 {
                        let j = choose|j: int|
                            0 <= j < rest.len() && #[trigger] rk[b - 1] == rest[j];
                        assert(kept[b] == orders[j + 1]);
                    }
                }
                assert forall|k: int, l: int|
                    0 <= k < fills.len() && 0 <= l < kept.len() implies (
                #[trigger] fills[k]).order_id != (#[trigger] kept[l]).order_id by {
                    if l == 0 {
                        let j = choose|j: int|
                            0 <= j < rest.len() && (#[trigger] rf[k]).order_id == rest[j].order_id
                                && rest[j].market_id@ == t.market_id@;
                        assert(fills[k].order_id == orders[j + 1].order_id);
                    }
                }
            }
        } else {
            let (fp, fq, comm) = step->Some_0;
            let f0 = spec_fill_of(o, t, fp, fq, comm);
            assert(fills == seq![f0] + rf && kept == rk);
            lemma_check_step_bounds(o, t, rate, slip, cap, avg, cash, liq);
            assert forall|k: int| 0 <= k < kept.len() implies exists|j: int|
                0 <= j < orders.len() && #[trigger] kept[k] == orders[j] by {
                let j = choose|j: int| 0 <= j < rest.len() && #[trigger] rk[k] == rest[j];
                assert(kept[k] == orders[j + 1]);
            }
            assert forall|k: int| 0 <= k < fills.len() implies (#[trigger] fills[k]).wf()
                && fills[k].quantity >= 1 && fills[k].market_id@ == t.market_id@
                && fills[k].timestamp == t.timestamp by {
                if k == 0 {
                    assert(fills[0] == f0);
                } else {
                    assert(fills[k] == rf[k - 1]);
                }
            }
            assert forall|k: int| 0 <= k < fills.len() implies exists|j: int|
                0 <= j < orders.len() && (#[trigger] fills[k]).order_id == orders[j].order_id
                    && orders[j].market_id@ == t.market_id@ by {
                if k == 0 {
                    assert(fills[0].order_id == orders[0].order_id);
                } else {
                    let j = choose|j: int|
                        0 <= j < rest.len() && (#[trigger] rf[k - 1]).order_id == rest[j].order_id
                            && rest[j].market_id@ == t.market_id@;
                    assert(fills[k].order_id == orders[j + 1].order_id);
                }
            }
            if ids_increasing(orders) {
                assert(ids_increasing(rest));
                assert forall|a: int, b: int| 0 <= a < b < fills.len() implies fills[a].order_id
                    < fills[b].order_id by {
                    if a == 0 {
                        let j = choose|j: int|
                            0 <= j < rest.len() && (#[trigger] rf[b - 1]).order_id
                                == rest[j].order_id && rest[j].market_id@ == t.market_id@;
                        assert(fills[b].order_id == orders[j + 1].order_id);
                    }
                }
                assert forall|k: int, l: int|
                    0 <= k < fills.len() && 0 <= l < kept.len() implies (
                #[trigger] fills[k]).order_id != (#[trigger] kept[l]).order_id by {
                    let j = choose|j: int| 0 <= j < rest.len() && #[trigger] rk[l] == rest[j];
                    assert(kept[l] == orders[j + 1]);
                    if k == 0 {
                        assert(fills[0].order_id == orders[0].order_id);
                    } else {
                        let j2 = choose|j2: int|
                            0 <= j2 < rest.len() && (#[trigger] rf[k - 1]).order_id
                                == rest[j2].order_id && rest[j2].market_id@ == t.market_id@;
                        assert(fills[k].order_id == orders[j2 + 1].order_id);
                    }
                }
            }
        }
    }
}

/// Bounds of a step's fill: price within the scale, at least one contract
/// and no more than the order's size, commission within one notional.
pub proof fn lemma_check_step_bounds(
    o: Order,
    t: Trade,
    rate: int,
    slip: int,
    cap: bool,
    avg: int,
    cash: int,
    liq: int,
)
    requires
        o.wf(),
        t.wf(),
        0 <= rate <= SCALE as int,
        0 <= slip <= SCALE as int,
    ensures
        match spec_check_step(o, t, rate, slip, cap, avg, cash, liq) {
            None => true,
            Some((fp, fq, comm)) => {
                &&& 0 <= fp <= SCALE as int
                &&& 1 <= fq <= o.quantity
                &&& 0 <= comm <= SCALE as int * QTY_MAX as int
                &&& o.action is Buy ==> fp * fq + comm <= cash
            },
        },
{
    match spec_match_price(o, t) {
        None => {},
        Some(base) => {
            lemma_impact_price_range(slip, base as int, o.action, o.quantity as int, avg);
            let fp = spec_impact_price(slip, base as int, o.action, o.quantity as int, avg);
            let fq0 = if cap {
                min(o.quantity as int, liq)
            } else {
                o.quantity as int
            };
            if fq0 > 0 {
                let cost = fp * fq0;
                let comm = cost * rate / SCALE as int;
                assert(0 <= fp * fq0 <= SCALE as int * QTY_MAX as int) by (nonlinear_arith)
                    requires
                        0 <= fp <= SCALE as int,
                        0 < fq0 <= QTY_MAX as int,
                ;
                lemma_mul_nonnegative(fp * fq0, rate);
                lemma_div_pos_is_pos(fp * fq0 * rate, SCALE as int);
                assert(fp * fq0 * rate <= fp * fq0 * SCALE as int) by (nonlinear_arith)
                    requires
                        0 <= fp * fq0,
                        rate <= SCALE as int,
                ;
                lemma_div_is_ordered(fp * fq0 * rate, fp * fq0 * SCALE as int, SCALE as int);
                lemma_div_multiples_vanish(fp * fq0, SCALE as int);
                assert(fp * fq0 * SCALE as int == SCALE as int * (fp * fq0)) by (nonlinear_arith);
                if o.action is Buy && cost + comm > cash {
                    if cap && fp != 0 {
                        let denom = fp * (SCALE as int + rate);
                        if cash * SCALE as int >= denom {
                            assert(SCALE as int <= denom) by (nonlinear_arith)
                                requires
                                    1 <= fp,
                                    SCALE as int <= SCALE as int + rate,
                                    denom == fp * (SCALE as int + rate),
                            ;
                            let mq = cash * SCALE as int / denom;
                            lemma_div_pos_is_pos(cash * SCALE as int, denom);
                            lemma_fundamental_div_mod(cash * SCALE as int, denom);
                            assert(mq >= 1) by (nonlinear_arith)
                                requires
                                    cash * SCALE as int == denom * mq + (cash * SCALE as int)
                                        % denom,
                                    0 <= (cash * SCALE as int) % denom,
                                    ((cash * SCALE as int) % denom) < denom,
                                    cash * SCALE as int >= denom,
                                    denom >= 1,
                            ;
                            let fq = min(fq0, mq);
                            assert(0 <= fp * fq <= SCALE as int * QTY_MAX as int)
                                by (nonlinear_arith)
                                requires
                                    0 <= fp <= SCALE as int,
                                    0 < fq <= QTY_MAX as int,
                            ;
                            lemma_mul_nonnegative(fp * fq, rate);
                            lemma_div_pos_is_pos(fp * fq * rate, SCALE as int);
                            assert(fp * fq * rate <= fp * fq * SCALE as int) by (nonlinear_arith)
                                requires
                                    0 <= fp * fq,
                                    rate <= SCALE as int,
                            ;
                            lemma_div_is_ordered(
                                fp * fq * rate,
                                fp * fq * SCALE as int,
                                SCALE as int,
                            );
                            lemma_div_multiples_vanish(fp * fq, SCALE as int);
                            assert(fp * fq * SCALE as int == SCALE as int * (fp * fq))
                                by (nonlinear_arith);
                            // The cut fill stays affordable.
                            lemma_fundamental_div_mod(fp * fq * rate, SCALE as int);
                            let c2 = fp * fq + fp * fq * rate / SCALE as int;
                            assert(c2 * SCALE as int <= fq * denom) by (nonlinear_arith)
                                requires
                                    fp * fq * rate == SCALE as int * (fp * fq * rate
                                        / SCALE as int) + (fp * fq * rate) % SCALE as int,
                                    0 <= (fp * fq * rate) % SCALE as int,
                                    c2 == fp * fq + fp * fq * rate / SCALE as int,
                                    denom == fp * (SCALE as int + rate),
                                    fq >= 0,
                                    SCALE >= 1,
                            ;
                            assert(fq * denom <= cash * SCALE as int) by (nonlinear_arith)
                                requires
                                    cash * SCALE as int == denom * mq + (cash * SCALE as int)
                                        % denom,
                                    0 <= (cash * SCALE as int) % denom,
                                    fq <= mq,
                                    denom >= 1,
                            ;
                            assert(c2 <= cash) by (nonlinear_arith)
                                requires
                                    c2 * SCALE as int <= fq * denom,
                                    fq * denom <= cash * SCALE as int,
                                    SCALE >= 1,
                            ;
                        }
                    }
                }
            }
        },
    }
}

/// The impact-adjusted price stays within [0, `SCALE`] for a base price in
/// that range.
pub proof fn lemma_impact_price_range(
    slippage: int,
    price: int,
    action: OrderAction,
    order_qty: int,
    avg: int,
)
    requires
        0 <= slippage <= SCALE as int,
        0 <= price <= SCALE as int,
    ensures
        0 <= spec_impact_price(slippage, price, action, order_qty, avg) <= SCALE as int,
{
    if slippage != 0 {
        let f1 = spec_spread_factor(price);
        let f2 = spec_size_factor(order_qty, avg);
        assert(f1 >= SCALE as int && f2 >= SCALE as int);
        assert(slippage * f1 * f2 >= 0) by (nonlinear_arith)
            requires
                slippage >= 0,
                f1 >= 0,
                f2 >= 0,
        ;
        lemma_div_pos_is_pos(slippage * f1 * f2, SCALE as int * SCALE as int);
    }
}

impl Broker {
    /// Match a trade against its market's pending orders, in placement
    /// order, under the broker's commission, slippage and liquidity rules
    /// and the given cash budget. Filled orders leave the book; their fills
    /// are returned in placement order.
    pub fn check_fills(&mut self, trade: &Trade, available_cash: i128) -> (fills: Vec<Fill>)
        requires
            old(self).wf(),
            trade.wf(),
            -MONEY_CAP <= available_cash <= MONEY_CAP,
        ensures
            final(self).wf(),
            ({
                let (sf, sk) = spec_check_fills(
                    old(self).pending@,
                    *trade,
                    old(self).commission_rate as int,
                    old(self).slippage as int,
                    old(self).liquidity_cap,
                    spec_avg_for_trade(old(self).ema_trade_size@, *trade),
                    available_cash as int,
                    trade.quantity as int,
                );
                fills@ == sf && final(self).pending@ == sk
            }),
            fills@.len() + final(self).pending@.len() == old(self).pending@.len(),
            final(self).filled@ == old(self).filled@ + fills@.len(),
            forall|k: int|
                0 <= k < fills@.len() ==> (#[trigger] fills@[k]).wf() && fills@[k].quantity >= 1
                    && fills@[k].market_id@ == trade.market_id@ && fills@[k].timestamp
                    == trade.timestamp,
            forall|k: int|
                0 <= k < fills@.len() ==> exists|j: int|
                    0 <= j < old(self).pending@.len() && (#[trigger] fills@[k]).order_id == old(
                    self,
                    ).pending@[j].order_id && old(self).pending@[j].market_id@ == trade.market_id@,
            forall|k: int, l: int|
                0 <= k < l < fills@.len() ==> (#[trigger] fills@[k]).order_id < (
                #[trigger] fills@[l]).order_id,
            forall|k: int, l: int|
                0 <= k < fills@.len() && 0 <= l < final(self).pending@.len() ==> (
                #[trigger] fills@[k]).order_id != (#[trigger] final(self).pending@[l]).order_id,
            forall|k: int|
                0 <= k < fills@.len() ==> (#[trigger] fills@[k]).order_id < old(self).next_id,
            available_cash >= 0 ==> sum_by(fills@, buy_charge_fn()) <= available_cash as int,
            final(self).placed == old(self).placed,
            final(self).cancelled == old(self).cancelled,
            final(self).next_id == old(self).next_id,
            final(self).ema_trade_size == old(self).ema_trade_size,
            final(self).commission_rate == old(self).commission_rate,
            final(self).slippage == old(self).slippage,
            final(self).liquidity_cap == old(self).liquidity_cap,
            final(self).ema_decay == old(self).ema_decay,
    {
        let rate: u64 = self.commission_rate;
        let slip: u64 = self.slippage;
        let cap: bool = self.liquidity_cap;
        let avg: u64 = match find_ema_index(&self.ema_trade_size, &trade.market_id) {
            Some(i) => self.ema_trade_size[i].ema,
            None => {
                proof {
                    assert(trade.quantity as int * SCALE as int <= QTY_MAX as int * SCALE as int)
                        by (nonlinear_arith)
                        requires
                            0 <= trade.quantity <= QTY_MAX,
                            SCALE >= 0,
                    ;
                }
                trade.quantity * SCALE
            },
        };
        let ghost avg0 = spec_avg_for_trade(self.ema_trade_size@, *trade);
        proof {
            assert(avg as int == avg0);
        }
        let n = self.pending.len();
        let mut kept: Vec<Order> = Vec::new();
        let mut fills: Vec<Fill> = Vec::new();
        let mut cash: i128 = available_cash;
        let mut liq: u64 = trade.quantity;
        let mut i: usize = 0;
        proof {
            assert(old(self).pending@.skip(0) =~= old(self).pending@);
        }
        while i < n
            invariant
                i <= n,
                n == self.pending@.len(),
                *self == *old(self),
                old(self).wf(),
                trade.wf(),
                rate == self.commission_rate,
                slip == self.slippage,
                cap == self.liquidity_cap,
                avg as int == avg0,
                -MONEY_CAP <= available_cash <= MONEY_CAP,
                liq <= trade.quantity,
                cash <= available_cash,
                available_cash < 0 ==> cash == available_cash,
                available_cash >= 0 ==> cash >= 0,
                spec_check_fills(
                    old(self).pending@,
                    *trade,
                    rate as int,
                    slip as int,
                    cap,
                    avg0,
                    available_cash as int,
                    trade.quantity as int,
                ) == {
                    let r = spec_check_fills(
                        old(self).pending@.skip(i as int),
                        *trade,
                        rate as int,
                        slip as int,
                        cap,
                        avg0,
                        cash as int,
                        liq as int,
                    );
                    (fills@ + r.0, kept@ + r.1)
                },
            decreases n - i,
        {
            let ghost suffix = old(self).pending@.skip(i as int);
            proof {
                assert(suffix.len() > 0);
                assert(suffix[0] == old(self).pending@[i as int]);
                assert(suffix.skip(1) =~= old(self).pending@.skip(i as int + 1));
                assert(old(self).pending@[i as int].wf());
            }
            let o = &self.pending[i];
            if !(o.market_id == trade.market_id) {
                kept.push(o.clone());
                proof {
                    let r = spec_check_fills(
                        suffix.skip(1),
                        *trade,
                        rate as int,
                        slip as int,
                        cap,
                        avg0,
                        cash as int,
                        liq as int,
                    );
                    assert(kept@ + r.1 =~= kept@.drop_last() + (seq![suffix[0]] + r.1));
                }
            } else {
                match Self::check_step(o, trade, rate, slip, cap, avg, cash, liq) {
                    None => {
                        kept.push(o.clone());
                        proof {
                            let r = spec_check_fills(
                                suffix.skip(1),
                                *trade,
                                rate as int,
                                slip as int,
                                cap,
                                avg0,
                                cash as int,
                                liq as int,
                            );
                            assert(kept@ + r.1 =~= kept@.drop_last() + (seq![suffix[0]] + r.1));
                        }
                    },
                    Some((fp, fq, comm)) => {
                        let fill = Fill {
                            order_id: o.order_id,
                            market_id: o.market_id.clone(),
                            action: o.action,
                            side: o.side,
                            price: fp,
                            quantity: fq,
                            timestamp: trade.timestamp,
                            commission: comm,
                        };
                        proof {
                            assert(fill == spec_fill_of(
                                suffix[0],
                                *trade,
                                fp as int,
                                fq as int,
                                comm as int,
                            ));
                            assert(0 <= fp as int * fq as int <= SCALE as int * QTY_MAX as int)
                                by (nonlinear_arith)
                                requires
                                    0 <= fp <= SCALE,
                                    0 <= fq <= QTY_MAX,
                            ;
                        }
                        fills.push(fill);
                        if matches!(o.action, OrderAction::Buy) {
                            let cost: i128 = (fp as i128) * (fq as i128);
                            cash = cash - cost - comm;
                        }
                        if cap {
                            liq = liq - fq;
                        }
                        proof {
                            let r = spec_check_fills(
                                suffix.skip(1),
                                *trade,
                                rate as int,
                                slip as int,
                                cap,
                                avg0,
                                cash as int,
                                liq as int,
                            );
                            assert(fills@ + r.0 =~= fills@.drop_last() + (seq![spec_fill_of(
                                suffix[0],
                                *trade,
                                fp as int,
                                fq as int,
                                comm as int,
                            )] + r.0));
                        }
                    },
                }
            }
            i += 1;
        }
        proof {
            assert(old(self).pending@.skip(n as int) =~= Seq::<Order>::empty());
            let r = spec_check_fills(
                old(self).pending@.skip(n as int),
                *trade,
                rate as int,
                slip as int,
                cap,
                avg0,
                cash as int,
                liq as int,
            );
            assert(fills@ + r.0 =~= fills@);
            assert(kept@ + r.1 =~= kept@);
        }
        self.pending = kept;
        proof {
            self.filled@ = old(self).filled@ + fills@.len();
            lemma_check_fills_shape(
                old(self).pending@,
                *trade,
                rate as int,
                slip as int,
                cap,
                avg0,
                available_cash as int,
                trade.quantity as int,
            );
            if available_cash >= 0 {
                lemma_check_fills_buy_charges(
                    old(self).pending@,
                    *trade,
                    rate as int,
                    slip as int,
                    cap,
                    avg0,
                    available_cash as int,
                    trade.quantity as int,
                );
            }
            assert forall|k: int|
                0 <= k < self.pending@.len() implies (#[trigger] self.pending@[k]).wf() && 1
                <= self.pending@[k].order_id < self.next_id && self.pending@[k].status
                is Pending by {
                let j = choose|j: int|
                    0 <= j < old(self).pending@.len() && self.pending@[k] == old(self).pending@[j];
            }
        }
        fills
    }
}

/// Fill ids are unique across a session. Consider two matchings, in order.
/// Every order pending at the second either survived the first (it is among
/// the orders the first kept) or was placed after it, with an id at least
/// the id counter after the first. Then no fill of the second matching can
/// repeat an id filled by the first: the first's fills are disjoint from
/// what it kept, and their ids lie below the counter.
pub proof fn lemma_fill_ids_unique_across_matchings(
    orders1: Seq<Order>,
    t1: Trade,
    cash1: int,
    liq1: int,
    orders2: Seq<Order>,
    t2: Trade,
    cash2: int,
    liq2: int,
    rate: int,
    slip: int,
    cap: bool,
    avg1: int,
    avg2: int,
    next_id1: u64,
)
    requires
        t1.wf(),
        t2.wf(),
        0 <= rate <= SCALE as int,
        0 <= slip <= SCALE as int,
        forall|j: int| 0 <= j < orders1.len() ==> (#[trigger] orders1[j]).wf(),
        forall|j: int| 0 <= j < orders2.len() ==> (#[trigger] orders2[j]).wf(),
        ids_increasing(orders1),
        forall|j: int| 0 <= j < orders1.len() ==> (#[trigger] orders1[j]).order_id < next_id1,
        ({
            let kept1 = spec_check_fills(orders1, t1, rate, slip, cap, avg1, cash1, liq1).1;
            forall|j: int|
                0 <= j < orders2.len() ==> (#[trigger] orders2[j]).order_id >= next_id1 || exists|
                    k: int,
                |
                    0 <= k < kept1.len() && orders2[j].order_id == kept1[k].order_id
        }),
    ensures
        ({
            let fills1 = spec_check_fills(orders1, t1, rate, slip, cap, avg1, cash1, liq1).0;
            let fills2 = spec_check_fills(orders2, t2, rate, slip, cap, avg2, cash2, liq2).0;
            forall|k: int, l: int|
                0 <= k < fills1.len() && 0 <= l < fills2.len() ==> (#[trigger] fills1[k]).order_id
                    != (#[trigger] fills2[l]).order_id
        }),
{
    lemma_check_fills_shape(orders1, t1, rate, slip, cap, avg1, cash1, liq1);
    lemma_check_fills_shape(orders2, t2, rate, slip, cap, avg2, cash2, liq2);
    let r1 = spec_check_fills(orders1, t1, rate, slip, cap, avg1, cash1, liq1);
    let fills1 = r1.0;
    let kept1 = r1.1;
    let fills2 = spec_check_fills(orders2, t2, rate, slip, cap, avg2, cash2, liq2).0;
    assert forall|k: int, l: int|
        0 <= k < fills1.len() && 0 <= l < fills2.len() implies (#[trigger] fills1[k]).order_id != (
    #[trigger] fills2[l]).order_id by {
        let j1 = choose|j1: int|
            0 <= j1 < orders1.len() && (#[trigger] fills1[k]).order_id == orders1[j1].order_id
                && orders1[j1].market_id@ == t1.market_id@;
        let j2 = choose|j2: int|
            0 <= j2 < orders2.len() && (#[trigger] fills2[l]).order_id == orders2[j2].order_id
                && orders2[j2].market_id@ == t2.market_id@;
        assert(fills1[k].order_id < next_id1);
        if orders2[j2].order_id < next_id1 {
            let m = choose|m: int|
                0 <= m < kept1.len() && orders2[j2].order_id == kept1[m].order_id;
            assert(fills1[k].order_id != kept1[m].order_id);
        }
    }
}

/// What a fill charges the cash budget: cost plus commission for a buy,
/// nothing for a sell.
pub open spec fn buy_charge_fn() -> spec_fn(Fill) -> int {
    |f: Fill|
        if f.action is Buy {
            f.price as int * f.quantity as int + f.commission
        } else {
            0
        }
}

/// Buys never overspend: given a non-negative cash budget, the total cost
/// and commission of the buy fills one matching emits stay within it. Sell
/// proceeds never augment the budget within the matching.
pub proof fn lemma_check_fills_buy_charges(
    orders: Seq<Order>,
    t: Trade,
    rate: int,
    slip: int,
    cap: bool,
    avg: int,
    cash: int,
    liq: int,
)
    requires
        t.wf(),
        0 <= rate <= SCALE as int,
        0 <= slip <= SCALE as int,
        forall|j: int| 0 <= j < orders.len() ==> (#[trigger] orders[j]).wf(),
        cash >= 0,
    ensures
        sum_by(spec_check_fills(orders, t, rate, slip, cap, avg, cash, liq).0, buy_charge_fn())
            <= cash,
    decreases orders.len(),
{
    if orders.len() != 0 {
        let o = orders[0];
        let rest = orders.skip(1);
        assert(forall|j: int| 0 <= j < rest.len() ==> rest[j] == orders[j + 1]);
        let step = spec_check_step(o, t, rate, slip, cap, avg, cash, liq);
        let fills = spec_check_fills(orders, t, rate, slip, cap, avg, cash, liq).0;
        if o.market_id@ != t.market_id@ || step is None {
            lemma_check_fills_buy_charges(rest, t, rate, slip, cap, avg, cash, liq);
        } else {
            let (fp, fq, comm) = step->Some_0;
            lemma_check_step_bounds(o, t, rate, slip, cap, avg, cash, liq);
            let cash2 = if o.action is Buy {
                cash - fp * fq - comm
            } else {
                cash
            };
            let liq2 = if cap {
                liq - fq
            } else {
                liq
            };
            assert(0 <= fp * fq) by (nonlinear_arith)
                requires
                    0 <= fp,
                    0 <= fq,
            ;
            lemma_check_fills_buy_charges(rest, t, rate, slip, cap, avg, cash2, liq2);
            let f0 = spec_fill_of(o, t, fp, fq, comm);
            let rf = spec_check_fills(rest, t, rate, slip, cap, avg, cash2, liq2).0;
            lemma_sum_by_cons(f0, rf, buy_charge_fn());
            assert(f0.price as int == fp && f0.quantity as int == fq && f0.commission == comm
                && f0.action == o.action);
            assert(buy_charge_fn()(f0) == if o.action is Buy {
                fp * fq + comm
            } else {
                0int
            });
        }
    }
}

} // verus!
