//! Portfolio: cash, signed positions, realized and unrealized profit and
//! loss, snapshots and market settlement.

use vstd::arithmetic::div_mod::{
    lemma_div_is_ordered, lemma_div_multiples_vanish, lemma_div_pos_is_pos,
    lemma_fundamental_div_mod,
};
use vstd::arithmetic::mul::{lemma_mul_inequality, lemma_mul_nonnegative};
use vstd::math::abs;
use vstd::prelude::*;

use crate::math::{MONEY_CAP, QTY_MAX, SCALE};
use crate::models::{Fill, OrderAction, Position, Side, Snapshot};
use crate::seqs::{find_by, lemma_find_by, lemma_sum_by_push, lemma_sum_by_update, sum_by};

verus! {

/// What one YES-equivalent contract of a position costs at entry: the YES
/// price for a long position, the complementary NO price for a short one.
pub open spec fn unit_cost(long: bool, price: int) -> int {
    if long {
        price
    } else {
        SCALE as int - price
    }
}

/// Effect of `close_partial` on a position: close up to `|quantity|`
/// contracts at `price` (a YES-equivalent price), realizing the difference
/// between the proceeds and the cost of the closed contracts; any remainder
/// of `delta` beyond the closed contracts flips the position, re-entered at
/// `price`. The cost removed by a partial close is `entry_cost * closing /
/// |quantity|`, rounded down, so the cash ledger stays exact.
pub open spec fn spec_close_partial(pos: Position, delta: int, price: int) -> Position {
    let q = pos.quantity as int;
    let ad = abs(delta) as int;
    let aq = abs(q) as int;
    let closing = if ad < aq {
        ad
    } else {
        aq
    };
    if closing == 0 {
        // Nothing to close: either the position is flat and `delta` opens it
        // at `price`, or `delta` is zero and the position is re-marked at
        // `price`.
        let q2 = q + delta;
        Position {
            quantity: q2 as i64,
            entry_cost: (abs(q2) as int * unit_cost(q2 > 0, price)) as i128,
            ..pos
        }
    } else {
        let removed = pos.entry_cost as int * closing / aq;
        let pnl = closing * unit_cost(q > 0, price) - removed;
        let q2 = q + delta;
        let remaining = ad - closing;
        let entry2 = if remaining > 0 {
            abs(q2) as int * unit_cost(q2 > 0, price)
        } else {
            pos.entry_cost as int - removed
        };
        Position {
            quantity: q2 as i64,
            entry_cost: entry2 as i128,
            realized_pnl: (pos.realized_pnl + pnl) as i128,
            ..pos
        }
    }
}

/// Effect of `add_to_position`: extend a flat or same-direction position at
/// `price` (exact cost accumulation), or delegate an opposite-direction
/// `delta` to the partial close.
pub open spec fn spec_add_to_position(pos: Position, delta: int, price: int) -> Position {
    if pos.quantity == 0 {
        Position {
            quantity: delta as i64,
            entry_cost: (abs(delta) as int * unit_cost(delta > 0, price)) as i128,
            ..pos
        }
    } else if (pos.quantity > 0) == (delta > 0) {
        Position {
            quantity: (pos.quantity + delta) as i64,
            entry_cost: (pos.entry_cost + abs(delta) as int * unit_cost(pos.quantity > 0, price)) as i128,
            ..pos
        }
    } else {
        spec_close_partial(pos, delta, price)
    }
}

/// `reduce_position` is a partial close in the opposite direction.
pub open spec fn spec_reduce_position(pos: Position, delta: int, price: int) -> Position {
    spec_close_partial(pos, -delta, price)
}

/// The arguments under which the position arithmetic is defined: a
/// well-formed position, a price in range, and quantities that keep the
/// result within the engine's bounds.
pub open spec fn close_partial_pre(pos: Position, delta: int, price: int) -> bool {
    &&& pos.wf()
    &&& 0 <= price <= SCALE as int
    &&& -(QTY_MAX as int) <= delta <= QTY_MAX as int
    &&& -(QTY_MAX as int) <= pos.quantity + delta <= QTY_MAX as int
    &&& -MONEY_CAP <= pos.realized_pnl <= MONEY_CAP
}

/// The partial close keeps the position well formed, moves the quantity by
/// exactly `delta`, and changes the realized profit by a bounded amount.
pub proof fn lemma_close_partial_wf(pos: Position, delta: int, price: int)
    requires
        close_partial_pre(pos, delta, price),
    ensures
        spec_close_partial(pos, delta, price).wf(),
        spec_close_partial(pos, delta, price).quantity == pos.quantity + delta,
        spec_close_partial(pos, delta, price).market_id == pos.market_id,
        pos.realized_pnl - 2 * (QTY_MAX as int) * (SCALE as int) <= spec_close_partial(
            pos,
            delta,
            price,
        ).realized_pnl <= pos.realized_pnl + 2 * (QTY_MAX as int) * (SCALE as int),
{
    let q = pos.quantity as int;
    let ad = abs(delta) as int;
    let aq = abs(q) as int;
    let closing = if ad < aq {
        ad
    } else {
        aq
    };
    let q2 = q + delta;
    if closing == 0 {
        assert(abs(q2) * unit_cost(q2 > 0, price) <= abs(q2) * SCALE as int && 0 <= abs(q2)
            * unit_cost(q2 > 0, price)) by (nonlinear_arith)
            requires
                0 <= unit_cost(q2 > 0, price) <= SCALE as int,
                abs(q2) >= 0,
                q2 != 0 ==> abs(q2) >= 1,
        ;
        assert(q2 == 0 ==> abs(q2) * unit_cost(q2 > 0, price) == 0);
    } else {
        let e = pos.entry_cost as int;
        let removed = e * closing / aq;
        // 0 <= removed <= e, with removed == e when the close is complete.
        lemma_mul_nonnegative(e, closing);
        lemma_div_pos_is_pos(e * closing, aq);
        lemma_mul_inequality(closing, aq, e);
        assert(e * closing == closing * e && e * aq == aq * e) by (nonlinear_arith);
        lemma_div_is_ordered(e * closing, e * aq, aq);
        lemma_div_multiples_vanish(e, aq);
        assert(removed <= e);
        let pnl = closing * unit_cost(q > 0, price) - removed;
        assert(0 <= closing * unit_cost(q > 0, price) <= (QTY_MAX as int) * (SCALE as int))
            by (nonlinear_arith)
            requires
                0 < closing <= QTY_MAX as int,
                0 <= unit_cost(q > 0, price) <= SCALE as int,
        ;
        assert(0 <= removed <= e <= (QTY_MAX as int) * (SCALE as int)) by {
            assert(e <= aq * SCALE as int);
            assert(aq * SCALE as int <= (QTY_MAX as int) * (SCALE as int)) by (nonlinear_arith)
                requires
                    0 <= aq <= QTY_MAX as int,
            ;
        }
        let remaining = ad - closing;
        if remaining > 0 {
            assert(0 <= abs(q2) * unit_cost(q2 > 0, price) <= abs(q2) * SCALE as int)
                by (nonlinear_arith)
                requires
                    0 <= unit_cost(q2 > 0, price) <= SCALE as int,
                    abs(q2) >= 0,
            ;
            assert(q2 == 0 ==> remaining <= 0) by {
                if q2 == 0 {
                    assert(ad == aq);
                }
            }
        } else {
            // Partial or complete close: the remaining cost is within the
            // remaining quantity's price range.
            let m = (e * closing) % aq;
            lemma_fundamental_div_mod(e * closing, aq);
            if q2 == 0 {
                assert(ad >= aq);
                assert(closing == aq);
                lemma_div_multiples_vanish(e, aq);
                assert(e * aq == aq * e) by (nonlinear_arith);
                assert(removed == e);
            } else {
                assert(abs(q2) >= aq - closing) by {
                    if (q >= 0) == (delta >= 0) {
                        assert(abs(q2) == aq + ad);
                    } else {
                        assert(abs(q2) >= aq - ad);
                    }
                }
                assert(e - removed <= abs(q2) * SCALE as int) by (nonlinear_arith)
                    requires
                        e * closing == aq * removed + m,
                        0 <= m < aq,
                        0 <= e <= aq * SCALE as int,
                        0 < closing <= aq,
                        abs(q2) >= aq - closing,
                        SCALE >= 1,
                ;
            }
        }
    }
}

pub proof fn lemma_add_to_position_wf(pos: Position, delta: int, price: int)
    requires
        close_partial_pre(pos, delta, price),
    ensures
        spec_add_to_position(pos, delta, price).wf(),
        spec_add_to_position(pos, delta, price).quantity == pos.quantity + delta,
        spec_add_to_position(pos, delta, price).market_id == pos.market_id,
        pos.realized_pnl - 2 * (QTY_MAX as int) * (SCALE as int) <= spec_add_to_position(
            pos,
            delta,
            price,
        ).realized_pnl <= pos.realized_pnl + 2 * (QTY_MAX as int) * (SCALE as int),
{
    let q = pos.quantity as int;
    if q == 0 {
        assert(0 <= abs(delta) * unit_cost(delta > 0, price) <= abs(delta) * SCALE as int)
            by (nonlinear_arith)
            requires
                0 <= unit_cost(delta > 0, price) <= SCALE as int,
                abs(delta) >= 0,
        ;
        assert(delta == 0 ==> abs(delta) * unit_cost(delta > 0, price) == 0);
    } else if (q > 0) == (delta > 0) {
        assert(abs(q + delta) as int == abs(q) as int + abs(delta) as int) by {
            if q > 0 {
                assert(delta >= 0);
            } else {
                assert(delta <= 0);
            }
        }
        assert(0 <= abs(delta) as int * unit_cost(q > 0, price) <= abs(delta) as int
            * SCALE as int) by (nonlinear_arith)
            requires
                0 <= unit_cost(q > 0, price) <= SCALE as int,
                abs(delta) as int >= 0,
        ;
        assert(pos.entry_cost + abs(delta) as int * unit_cost(q > 0, price) <= abs(q + delta) as int
            * SCALE as int) by (nonlinear_arith)
            requires
                0 <= pos.entry_cost <= abs(q) as int * SCALE as int,
                abs(delta) as int * unit_cost(q > 0, price) <= abs(delta) as int * SCALE as int,
                abs(q + delta) as int == abs(q) as int + abs(delta) as int,
        ;
    } else {
        lemma_close_partial_wf(pos, delta, price);
    }
}

/// The last YES price seen for one market.
#[derive(Debug)]
pub struct PriceEntry {
    pub market_id: String,
    pub yes_price: u64,
}

impl Clone for PriceEntry {
    fn clone(&self) -> (r: Self)
        ensures
            r == *self,
    {
        PriceEntry { market_id: self.market_id.clone(), yes_price: self.yes_price }
    }
}

/// Matches the position of one market.
pub open spec fn market_pred(m: Seq<char>) -> spec_fn(Position) -> bool {
    |pos: Position| pos.market_id@ == m
}

/// Index of the market's position, or -1 when none exists yet.
pub open spec fn find_market(s: Seq<Position>, m: Seq<char>) -> int {
    find_by(s, market_pred(m))
}

/// Matches the last-price entry of one market.
pub open spec fn price_pred(m: Seq<char>) -> spec_fn(PriceEntry) -> bool {
    |e: PriceEntry| e.market_id@ == m
}

pub open spec fn find_price(s: Seq<PriceEntry>, m: Seq<char>) -> int {
    find_by(s, price_pred(m))
}

/// Whether one of the strings in `s` reads `m`.
pub open spec fn contains_id(s: Seq<String>, m: Seq<char>) -> bool {
    exists|j: int| 0 <= j < s.len() && s[j]@ == m
}

/// A position with nothing in it.
pub open spec fn blank_position(market_id: String) -> Position {
    Position { market_id, quantity: 0, entry_cost: 0, realized_pnl: 0 }
}

/// Signed change a fill makes to its market's YES-equivalent quantity:
/// buying YES or selling NO goes long, buying NO or selling YES goes short.
pub open spec fn spec_fill_delta(fill: Fill) -> int {
    if (fill.action is Buy) == (fill.side is Yes) {
        fill.quantity as int
    } else {
        -(fill.quantity as int)
    }
}

/// The fill's price expressed as a YES-equivalent price.
pub open spec fn spec_fill_entry_price(fill: Fill) -> int {
    if fill.side is Yes {
        fill.price as int
    } else {
        SCALE as int - fill.price as int
    }
}

/// How a fill transforms its market's position.
pub open spec fn spec_position_after_fill(pos: Position, fill: Fill) -> Position {
    match fill.action {
        OrderAction::Buy => spec_add_to_position(
            pos,
            spec_fill_delta(fill),
            spec_fill_entry_price(fill),
        ),
        OrderAction::Sell => spec_reduce_position(
            pos,
            -spec_fill_delta(fill),
            spec_fill_entry_price(fill),
        ),
    }
}

/// How a fill transforms the position table: it updates its market's
/// position, creating it first when the market is new.
pub open spec fn spec_apply_fill_positions(s: Seq<Position>, fill: Fill) -> Seq<Position> {
    let i = find_market(s, fill.market_id@);
    if i >= 0 {
        s.update(i, spec_position_after_fill(s[i], fill))
    } else {
        s.push(spec_position_after_fill(blank_position(fill.market_id), fill))
    }
}

/// Signed change a fill makes to cash: buys pay the notional, sells receive
/// it, and the commission is always paid.
pub open spec fn spec_cash_delta(fill: Fill) -> int {
    (if fill.action is Buy {
        -(fill.price as int * fill.quantity as int)
    } else {
        fill.price as int * fill.quantity as int
    }) - fill.commission
}

/// Settlement value of one YES-equivalent contract, in price units.
pub open spec fn spec_settlement(result: Side) -> int {
    if result is Yes {
        SCALE as int
    } else {
        0
    }
}

/// What a resolved position pays out: a long position pays the settlement
/// per contract, a short one pays the complement per contract.
pub open spec fn spec_payout(quantity: int, result: Side) -> int {
    if quantity > 0 {
        quantity * spec_settlement(result)
    } else {
        -quantity * (SCALE as int - spec_settlement(result))
    }
}

/// A settled position: flat, with the resolution profit (payout minus entry
/// cost) folded into its realized total.
pub open spec fn spec_resolved_position(pos: Position, result: Side) -> Position {
    Position {
        quantity: 0,
        entry_cost: 0,
        realized_pnl: (pos.realized_pnl + spec_payout(pos.quantity as int, result)
            - pos.entry_cost) as i128,
        ..pos
    }
}

/// Tracks cash, per-market positions, last seen prices, snapshots, and the
/// set of already-resolved markets.
pub struct Portfolio {
    pub cash: i128,
    pub initial_cash: i128,
    /// One position per market, created on its first fill.
    pub positions: Vec<Position>,
    /// Last YES price seen per market, for unrealized valuation.
    pub last_prices: Vec<PriceEntry>,
    pub snapshots: Vec<Snapshot>,
    /// Markets already settled; resolving one of these again is a no-op.
    pub resolved_markets: Vec<String>,
    /// Total commission ever charged through `apply_fill`; together with the
    /// other fields it witnesses the cash-conservation invariant.
    pub commissions_paid: Ghost<int>,
}

impl Portfolio {
    pub open spec fn wf(self) -> bool {
        &&& forall|i: int|
            0 <= i < self.positions@.len() ==> (#[trigger] self.positions@[i]).wf()
        &&& forall|i: int|
            0 <= i < self.last_prices@.len() ==> (#[trigger] self.last_prices@[i]).yes_price
                <= SCALE
    }

    /// Whether `resolve_market` has already settled this market.
    pub open spec fn spec_is_resolved(self, m: Seq<char>) -> bool {
        contains_id(self.resolved_markets@, m)
    }

    /// The fill fits the engine's bounds: the position it moves stays within
    /// `QTY_MAX` and the money amounts stay within `MONEY_CAP`.
    pub open spec fn spec_can_apply(self, fill: Fill) -> bool {
        let i = find_market(self.positions@, fill.market_id@);
        let pos = if i >= 0 {
            self.positions@[i]
        } else {
            blank_position(fill.market_id)
        };
        &&& -(QTY_MAX as int) <= pos.quantity + spec_fill_delta(fill) <= QTY_MAX as int
        &&& -MONEY_CAP <= pos.realized_pnl <= MONEY_CAP
        &&& -MONEY_CAP <= self.cash <= MONEY_CAP
    }

    pub open spec fn spec_can_resolve(self, m: Seq<char>) -> bool {
        let i = find_market(self.positions@, m);
        &&& -MONEY_CAP <= self.cash <= MONEY_CAP
        &&& i >= 0 ==> -MONEY_CAP <= self.positions@[i].realized_pnl <= MONEY_CAP
    }

    pub fn new(initial_cash: i128) -> (p: Portfolio)
        ensures
            p.cash == initial_cash,
            p.initial_cash == initial_cash,
            p.positions@ == Seq::<Position>::empty(),
            p.last_prices@ == Seq::<PriceEntry>::empty(),
            p.snapshots@ == Seq::<Snapshot>::empty(),
            p.resolved_markets@ == Seq::<String>::empty(),
            p.commissions_paid@ == 0,
            p.wf(),
    {
        Portfolio {
            cash: initial_cash,
            initial_cash,
            positions: Vec::new(),
            last_prices: Vec::new(),
            snapshots: Vec::new(),
            resolved_markets: Vec::new(),
            commissions_paid: Ghost(0int),
        }
    }
}

fn find_position_index(positions: &Vec<Position>, market_id: &String) -> (r: Option<usize>)
    ensures
        match r {
            Some(i) => i < positions@.len() && find_market(positions@, market_id@) == i as int,
            None => find_market(positions@, market_id@) == -1,
        },
{
    let n = positions.len();
    let mut i: usize = 0;
    while i < n
        invariant
            i <= n,
            n == positions@.len(),
            forall|j: int| 0 <= j < i ==> (#[trigger] positions@[j]).market_id@ != market_id@,
        decreases n - i,
    {
        if positions[i].market_id == *market_id {
            proof {
                lemma_find_by(positions@, market_pred(market_id@));
                assert(market_pred(market_id@)(positions@[i as int]));
                let f = find_market(positions@, market_id@);
                if 0 <= f < i as int {
                    assert(market_pred(market_id@)(positions@[f]));
                    assert(positions@[f].market_id@ == market_id@);
                }
            }
            return Some(i);
        }
        i += 1;
    }
    proof {
        lemma_find_by(positions@, market_pred(market_id@));
        let f = find_market(positions@, market_id@);
        if f >= 0 {
            assert(market_pred(market_id@)(positions@[f]));
            assert(positions@[f].market_id@ == market_id@);
        }
    }
    None
}

fn find_price_index(prices: &Vec<PriceEntry>, market_id: &String) -> (r: Option<usize>)
    ensures
        match r {
            Some(i) => i < prices@.len() && find_price(prices@, market_id@) == i as int,
            None => find_price(prices@, market_id@) == -1,
        },
{
    let n = prices.len();
    let mut i: usize = 0;
    while i < n
        invariant
            i <= n,
            n == prices@.len(),
            forall|j: int| 0 <= j < i ==> (#[trigger] prices@[j]).market_id@ != market_id@,
        decreases n - i,
    {
        if prices[i].market_id == *market_id {
            proof {
                lemma_find_by(prices@, price_pred(market_id@));
                assert(price_pred(market_id@)(prices@[i as int]));
                let f = find_price(prices@, market_id@);
                if 0 <= f < i as int {
                    assert(price_pred(market_id@)(prices@[f]));
                    assert(prices@[f].market_id@ == market_id@);
                }
            }
            return Some(i);
        }
        i += 1;
    }
    proof {
        lemma_find_by(prices@, price_pred(market_id@));
        let f = find_price(prices@, market_id@);
        if f >= 0 {
            assert(price_pred(market_id@)(prices@[f]));
            assert(prices@[f].market_id@ == market_id@);
        }
    }
    None
}

fn contains_market(ids: &Vec<String>, market_id: &String) -> (r: bool)
    ensures
        r == contains_id(ids@, market_id@),
{
    let n = ids.len();
    let mut i: usize = 0;
    while i < n
        invariant
            i <= n,
            n == ids@.len(),
            forall|j: int| 0 <= j < i ==> (#[trigger] ids@[j])@ != market_id@,
        decreases n - i,
    {
        if ids[i] == *market_id {
            return true;
        }
        i += 1;
    }
    false
}
impl Portfolio {
    /// Close up to `|delta|` contracts at a YES-equivalent `price`,
    /// realizing profit on the closed portion; any remainder flips the
    /// position, re-entered at `price`.
    fn close_partial(pos: &mut Position, delta: i64, price: u64)
        requires
            close_partial_pre(*old(pos), delta as int, price as int),
        ensures
            *final(pos) == spec_close_partial(*old(pos), delta as int, price as int),
            final(pos).wf(),
    {
        proof {
            lemma_close_partial_wf(*old(pos), delta as int, price as int);
        }
        let q: i64 = pos.quantity;
        let ad: i64 = if delta < 0 {
            -delta
        } else {
            delta
        };
        let aq: i64 = if q < 0 {
            -q
        } else {
            q
        };
        let closing: i64 = if ad < aq {
            ad
        } else {
            aq
        };
        if closing == 0 {
            let q2: i64 = q + delta;
            pos.quantity = q2;
            let aq2: i128 = if q2 < 0 {
                -(q2 as i128)
            } else {
                q2 as i128
            };
            let unit: u64 = if q2 > 0 {
                price
            } else {
                SCALE - price
            };
            proof {
                assert(aq2 * unit <= QTY_MAX as int * SCALE as int) by (nonlinear_arith)
                    requires
                        0 <= aq2 <= QTY_MAX as int,
                        0 <= unit <= SCALE as int,
                ;
            }
            pos.entry_cost = aq2 * (unit as i128);
        } else {
            proof {
                assert(pos.entry_cost * closing <= QTY_MAX as int * SCALE as int * QTY_MAX as int
                    && pos.entry_cost * closing >= 0) by (nonlinear_arith)
                    requires
                        0 <= pos.entry_cost <= QTY_MAX as int * SCALE as int,
                        0 < closing <= QTY_MAX as int,
                ;
                assert(pos.entry_cost <= QTY_MAX as int * SCALE as int) by (nonlinear_arith)
                    requires
                        0 <= pos.entry_cost <= aq * SCALE as int,
                        0 <= aq <= QTY_MAX as int,
                ;
            }
            let removed: i128 = pos.entry_cost * (closing as i128) / (aq as i128);
            let unit: u64 = if q > 0 {
                price
            } else {
                SCALE - price
            };
            proof {
                lemma_mul_nonnegative(pos.entry_cost as int, closing as int);
                lemma_div_pos_is_pos(pos.entry_cost as int * closing as int, aq as int);
                lemma_mul_inequality(closing as int, aq as int, pos.entry_cost as int);
                assert(pos.entry_cost * closing == closing * pos.entry_cost && pos.entry_cost * aq
                    == aq * pos.entry_cost) by (nonlinear_arith);
                lemma_div_is_ordered(
                    pos.entry_cost as int * closing as int,
                    pos.entry_cost as int * aq as int,
                    aq as int,
                );
                lemma_div_multiples_vanish(pos.entry_cost as int, aq as int);
                assert(0 <= removed <= pos.entry_cost);
                assert(closing * unit <= QTY_MAX as int * SCALE as int && closing * unit >= 0)
                    by (nonlinear_arith)
                    requires
                        0 < closing <= QTY_MAX as int,
                        0 <= unit <= SCALE as int,
                ;
            }
            let pnl: i128 = (closing as i128) * (unit as i128) - removed;
            pos.realized_pnl = pos.realized_pnl + pnl;
            let remaining: i64 = ad - closing;
            let q2: i64 = q + delta;
            pos.quantity = q2;
            if remaining > 0 {
                let aq2: i128 = if q2 < 0 {
                    -(q2 as i128)
                } else {
                    q2 as i128
                };
                let unit2: u64 = if q2 > 0 {
                    price
                } else {
                    SCALE - price
                };
                proof {
                    assert(aq2 * unit2 <= QTY_MAX as int * SCALE as int) by (nonlinear_arith)
                        requires
                            0 <= aq2 <= QTY_MAX as int,
                            0 <= unit2 <= SCALE as int,
                    ;
                }
                pos.entry_cost = aq2 * (unit2 as i128);
            } else {
                pos.entry_cost = pos.entry_cost - removed;
            }
        }
    }

    /// Extend a flat or same-direction position at a YES-equivalent `price`;
    /// an opposite-direction `delta` closes first.
    fn add_to_position(pos: &mut Position, delta: i64, price: u64)
        requires
            close_partial_pre(*old(pos), delta as int, price as int),
        ensures
            *final(pos) == spec_add_to_position(*old(pos), delta as int, price as int),
            final(pos).wf(),
    {
        proof {
            lemma_add_to_position_wf(*old(pos), delta as int, price as int);
        }
        if pos.quantity == 0 {
            pos.quantity = delta;
            let ad: i128 = if delta < 0 {
                -(delta as i128)
            } else {
                delta as i128
            };
            let unit: u64 = if delta > 0 {
                price
            } else {
                SCALE - price
            };
            proof {
                assert(ad * unit <= QTY_MAX as int * SCALE as int) by (nonlinear_arith)
                    requires
                        0 <= ad <= QTY_MAX as int,
                        0 <= unit <= SCALE as int,
                ;
            }
            pos.entry_cost = ad * (unit as i128);
        } else if (pos.quantity > 0) == (delta > 0) {
            let ad: i128 = if delta < 0 {
                -(delta as i128)
            } else {
                delta as i128
            };
            let unit: u64 = if pos.quantity > 0 {
                price
            } else {
                SCALE - price
            };
            proof {
                assert(0 <= ad * unit <= QTY_MAX as int * SCALE as int) by (nonlinear_arith)
                    requires
                        0 <= ad <= QTY_MAX as int,
                        0 <= unit <= SCALE as int,
                ;
            }
            pos.entry_cost = pos.entry_cost + ad * (unit as i128);
            pos.quantity = pos.quantity + delta;
        } else {
            Self::close_partial(pos, delta, price);
        }
    }

    /// Reduce the position by `delta` contracts at a YES-equivalent `price`:
    /// a partial close in the opposite direction.
    fn reduce_position(pos: &mut Position, delta: i64, price: u64)
        requires
            close_partial_pre(*old(pos), -delta as int, price as int),
            -(QTY_MAX as int) <= delta as int <= QTY_MAX as int,
        ensures
            *final(pos) == spec_reduce_position(*old(pos), delta as int, price as int),
            final(pos).wf(),
    {
        Self::close_partial(pos, -delta, price);
    }

    /// Apply one fill: move the market's position by the fill's signed
    /// YES-equivalent quantity at its YES-equivalent price, pay or receive
    /// the notional, and pay the commission.
    pub fn apply_fill(&mut self, fill: &Fill)
        requires
            old(self).wf(),
            fill.wf(),
            old(self).spec_can_apply(*fill),
        ensures
            final(self).wf(),
            final(self).positions@ == spec_apply_fill_positions(old(self).positions@, *fill),
            final(self).cash == old(self).cash + spec_cash_delta(*fill),
            final(self).commissions_paid@ == old(self).commissions_paid@ + fill.commission,
            final(self).initial_cash == old(self).initial_cash,
            final(self).last_prices == old(self).last_prices,
            final(self).snapshots == old(self).snapshots,
            final(self).resolved_markets == old(self).resolved_markets,
    {
        let ghost pre = *self;
        let idx: usize = match find_position_index(&self.positions, &fill.market_id) {
            Some(i) => i,
            None => {
                let n = self.positions.len();
                self.positions.push(Position::new(fill.market_id.clone()));
                n
            },
        };
        proof {
            assert(self.positions@[idx as int].wf());
        }
        let price: u64 = if matches!(fill.side, Side::Yes) {
            fill.price
        } else {
            SCALE - fill.price
        };
        let signed: i64 = if matches!(fill.action, OrderAction::Buy) == matches!(
            fill.side,
            Side::Yes,
        ) {
            fill.quantity as i64
        } else {
            -(fill.quantity as i64)
        };
        let pos = &mut self.positions[idx];
        match fill.action {
            OrderAction::Buy => Self::add_to_position(pos, signed, price),
            OrderAction::Sell => Self::reduce_position(pos, -signed, price),
        }
        proof {
            if find_market(pre.positions@, fill.market_id@) >= 0 {
                assert(self.positions@ =~= spec_apply_fill_positions(pre.positions@, *fill));
            } else {
                assert(self.positions@ =~= spec_apply_fill_positions(pre.positions@, *fill));
            }
        }
        proof {
            assert(fill.price * fill.quantity <= SCALE as int * QTY_MAX as int)
                by (nonlinear_arith)
                requires
                    0 <= fill.price <= SCALE as int,
                    0 <= fill.quantity <= QTY_MAX as int,
            ;
        }
        let notional: i128 = (fill.price as i128) * (fill.quantity as i128);
        if matches!(fill.action, OrderAction::Buy) {
            self.cash = self.cash - notional;
        } else {
            self.cash = self.cash + notional;
        }
        self.cash = self.cash - fill.commission;
        proof {
            self.commissions_paid@ = pre.commissions_paid@ + fill.commission;
        }
    }
}

/// Full relation between a portfolio before and after `resolve_market` on
/// market `m` with outcome `result`, returning `r`. Resolution is
/// idempotent: an already-resolved market changes nothing and returns zero;
/// otherwise the market is marked resolved, and an open position is settled
/// at its payout and zeroed.
pub open spec fn resolve_post(pre: Portfolio, post: Portfolio, m: Seq<char>, result: Side, r: int) -> bool {
    let i = find_market(pre.positions@, m);
    &&& post.spec_is_resolved(m)
    &&& pre.spec_is_resolved(m) ==> post == pre && r == 0
    &&& !pre.spec_is_resolved(m) ==> {
        &&& post.resolved_markets@.len() == pre.resolved_markets@.len() + 1
        &&& post.resolved_markets@.drop_last() == pre.resolved_markets@
        &&& post.resolved_markets@.last()@ == m
        &&& post.cash == pre.cash + (if i >= 0 {
            spec_payout(pre.positions@[i].quantity as int, result)
        } else {
            0
        })
        &&& (i == -1 || pre.positions@[i].quantity == 0) ==> r == 0 && post.positions@
            == pre.positions@ && post.cash == pre.cash
        &&& (i >= 0 && pre.positions@[i].quantity != 0) ==> {
            &&& r == spec_payout(pre.positions@[i].quantity as int, result)
                - pre.positions@[i].entry_cost
            &&& post.positions@ == pre.positions@.update(
                i,
                spec_resolved_position(pre.positions@[i], result),
            )
        }
    }
    &&& post.commissions_paid == pre.commissions_paid
    &&& post.initial_cash == pre.initial_cash
    &&& post.last_prices == pre.last_prices
    &&& post.snapshots == pre.snapshots
}

impl Portfolio {
    /// Settle a market at the given outcome. Pays the position's payout into
    /// cash, realizes the resolution profit, zeroes the position, and marks
    /// the market resolved; resolving the same market again is a no-op that
    /// returns zero.
    pub fn resolve_market(&mut self, market_id: &str, result: Side) -> (r: i128)
        requires
            old(self).wf(),
            old(self).spec_can_resolve(market_id@),
        ensures
            final(self).wf(),
            resolve_post(*old(self), *final(self), market_id@, result, r as int),
    {
        let ghost pre = *self;
        let owned: String = market_id.to_owned();
        if contains_market(&self.resolved_markets, &owned) {
            return 0;
        }
        let idx: usize = match find_position_index(&self.positions, &owned) {
            Some(i) => i,
            None => {
                self.resolved_markets.push(owned);
                proof {
                    assert(self.resolved_markets@.drop_last() =~= pre.resolved_markets@);
                    assert(self.spec_is_resolved(market_id@)) by {
                        assert(self.resolved_markets@[pre.resolved_markets@.len() as int]@
                            == market_id@);
                    }
                }
                return 0;
            },
        };
        proof {
            assert(self.positions@[idx as int].wf());
        }
        if self.positions[idx].quantity == 0 {
            self.resolved_markets.push(owned);
            proof {
                assert(self.resolved_markets@.drop_last() =~= pre.resolved_markets@);
                assert(self.spec_is_resolved(market_id@)) by {
                    assert(self.resolved_markets@[pre.resolved_markets@.len() as int]@
                        == market_id@);
                }
            }
            return 0;
        }
        let q: i64 = self.positions[idx].quantity;
        let settlement: u64 = if matches!(result, Side::Yes) {
            SCALE
        } else {
            0
        };
        proof {
            if q > 0 {
                assert(0 <= q as int * settlement as int <= QTY_MAX as int * SCALE as int)
                    by (nonlinear_arith)
                    requires
                        0 < q as int <= QTY_MAX as int,
                        0 <= settlement <= SCALE,
                ;
            } else {
                assert(0 <= -(q as int) * (SCALE as int - settlement as int) <= QTY_MAX as int
                    * SCALE as int) by (nonlinear_arith)
                    requires
                        -(QTY_MAX as int) <= q as int <= 0,
                        0 <= settlement <= SCALE,
                ;
            }
        }
        let payout: i128 = if q > 0 {
            (q as i128) * (settlement as i128)
        } else {
            (-(q as i128)) * ((SCALE - settlement) as i128)
        };
        let pnl: i128 = payout - self.positions[idx].entry_cost;
        self.cash = self.cash + payout;
        let pos = &mut self.positions[idx];
        pos.realized_pnl = pos.realized_pnl + pnl;
        pos.quantity = 0;
        pos.entry_cost = 0;
        self.resolved_markets.push(owned);
        proof {
            assert(self.resolved_markets@.drop_last() =~= pre.resolved_markets@);
            assert(self.spec_is_resolved(market_id@)) by {
                assert(self.resolved_markets@[pre.resolved_markets@.len() as int]@ == market_id@);
            }
            assert(self.positions@ =~= pre.positions@.update(
                idx as int,
                spec_resolved_position(pre.positions@[idx as int], result),
            ));
        }
        pnl
    }

    /// Resolution is idempotent: a second resolution of the same market
    /// returns zero and leaves the portfolio exactly as the first left it.
    pub proof fn lemma_resolve_idempotent(
        p0: Portfolio,
        p1: Portfolio,
        p2: Portfolio,
        m: Seq<char>,
        result: Side,
        r1: int,
        r2: int,
    )
        requires
            resolve_post(p0, p1, m, result, r1),
            resolve_post(p1, p2, m, result, r2),
        ensures
            p2 == p1,
            r2 == 0,
    {
    }

    /// Record the last seen YES price for a market.
    pub fn update_price(&mut self, market_id: &str, yes_price: u64)
        requires
            old(self).wf(),
            yes_price <= SCALE,
        ensures
            final(self).wf(),
            ({
                let i = find_price(old(self).last_prices@, market_id@);
                if i >= 0 {
                    final(self).last_prices@ == old(self).last_prices@.update(
                        i,
                        PriceEntry {
                            market_id: old(self).last_prices@[i].market_id,
                            yes_price,
                        },
                    )
                } else {
                    final(self).last_prices@.len() == old(self).last_prices@.len() + 1
                        && final(self).last_prices@.drop_last() == old(self).last_prices@
                        && final(self).last_prices@.last().market_id@ == market_id@
                        && final(self).last_prices@.last().yes_price == yes_price
                }
            }),
            final(self).positions == old(self).positions,
            final(self).cash == old(self).cash,
            final(self).initial_cash == old(self).initial_cash,
            final(self).snapshots == old(self).snapshots,
            final(self).resolved_markets == old(self).resolved_markets,
            final(self).commissions_paid == old(self).commissions_paid,
    {
        let owned: String = market_id.to_owned();
        match find_price_index(&self.last_prices, &owned) {
            Some(i) => {
                let entry = &mut self.last_prices[i];
                entry.yes_price = yes_price;
            },
            None => {
                self.last_prices.push(PriceEntry { market_id: owned, yes_price });
                proof {
                    assert(self.last_prices@.drop_last() =~= old(self).last_prices@);
                }
            },
        }
    }

    /// Whether the market has already been settled.
    pub fn is_resolved(&self, market_id: &str) -> (r: bool)
        ensures
            r == self.spec_is_resolved(market_id@),
    {
        let owned: String = market_id.to_owned();
        contains_market(&self.resolved_markets, &owned)
    }
}

/// Unrealized profit of one position at the last seen YES price: zero for a
/// flat or resolved market, or when no price has been seen (the valuation
/// then defaults to the entry itself); otherwise the value of the open
/// contracts at the last price minus their entry cost.
pub open spec fn spec_position_unrealized(
    pos: Position,
    last_prices: Seq<PriceEntry>,
    resolved: Seq<String>,
) -> int {
    if pos.quantity == 0 || contains_id(resolved, pos.market_id@) {
        0
    } else {
        let i = find_price(last_prices, pos.market_id@);
        if i < 0 {
            0
        } else {
            let lp = last_prices[i].yes_price as int;
            if pos.quantity > 0 {
                pos.quantity * lp - pos.entry_cost
            } else {
                -(pos.quantity as int) * (SCALE as int - lp) - pos.entry_cost
            }
        }
    }
}

/// Whether a position counts as open for snapshots.
pub open spec fn spec_counts_open(pos: Position, resolved: Seq<String>) -> bool {
    pos.quantity != 0 && !contains_id(resolved, pos.market_id@)
}

pub open spec fn unrealized_fn(last_prices: Seq<PriceEntry>, resolved: Seq<String>) -> spec_fn(
    Position,
) -> int {
    |pos: Position| spec_position_unrealized(pos, last_prices, resolved)
}

pub open spec fn open_count_fn(resolved: Seq<String>) -> spec_fn(Position) -> int {
    |pos: Position|
        if spec_counts_open(pos, resolved) {
            1int
        } else {
            0int
        }
}

/// Total unrealized profit over all open, unresolved positions.
pub open spec fn spec_unrealized_total(
    positions: Seq<Position>,
    last_prices: Seq<PriceEntry>,
    resolved: Seq<String>,
) -> int {
    sum_by(positions, unrealized_fn(last_prices, resolved))
}

/// Number of open, unresolved positions.
pub open spec fn spec_num_open(positions: Seq<Position>, resolved: Seq<String>) -> int {
    sum_by(positions, open_count_fn(resolved))
}

/// The snapshot `compute_snapshot` takes of a portfolio.
pub open spec fn spec_snapshot(p: Portfolio, timestamp: u64) -> Snapshot {
    let unrealized = spec_unrealized_total(p.positions@, p.last_prices@, p.resolved_markets@);
    Snapshot {
        timestamp,
        cash: p.cash,
        total_equity: (p.cash + unrealized) as i128,
        unrealized_pnl: unrealized as i128,
        num_positions: spec_num_open(p.positions@, p.resolved_markets@) as usize,
    }
}

impl Portfolio {
    /// Compute a snapshot without storing it: cash, total unrealized profit
    /// over open unresolved positions, their count, and equity as the sum of
    /// cash and unrealized profit.
    pub fn compute_snapshot(&self, timestamp: u64) -> (snap: Snapshot)
        requires
            self.wf(),
            -MONEY_CAP <= self.cash <= MONEY_CAP,
        ensures
            snap == spec_snapshot(*self, timestamp),
    {
        let ghost f = unrealized_fn(self.last_prices@, self.resolved_markets@);
        let ghost g = open_count_fn(self.resolved_markets@);
        let n = self.positions.len();
        let mut unrealized: i128 = 0;
        let mut open: usize = 0;
        let mut i: usize = 0;
        while i < n
            invariant
                i <= n,
                n == self.positions@.len(),
                self.wf(),
                unrealized as int == sum_by(self.positions@.take(i as int), f),
                open as int == sum_by(self.positions@.take(i as int), g),
                open <= i,
                -((i as int) * (2 * QTY_MAX as int * SCALE as int)) <= unrealized as int,
                unrealized as int <= (i as int) * (2 * QTY_MAX as int * SCALE as int),
                f == unrealized_fn(self.last_prices@, self.resolved_markets@),
                g == open_count_fn(self.resolved_markets@),
            decreases n - i,
        {
            proof {
                assert(self.positions@[i as int].wf());
                assert(self.positions@.take(i as int + 1).drop_last() =~= self.positions@.take(
                    i as int,
                ));
            }
            let pos = &self.positions[i];
            let counts: bool = pos.quantity != 0 && !contains_market(
                &self.resolved_markets,
                &pos.market_id,
            );
            let mut term: i128 = 0;
            if counts {
                open = open + 1;
                match find_price_index(&self.last_prices, &pos.market_id) {
                    Some(k) => {
                        let lp: u64 = self.last_prices[k].yes_price;
                        proof {
                            assert(self.last_prices@[k as int].yes_price <= SCALE);
                            if pos.quantity > 0 {
                                assert(0 <= pos.quantity as int * lp as int && pos.quantity as int
                                    * lp as int <= QTY_MAX as int * SCALE as int)
                                    by (nonlinear_arith)
                                    requires
                                        0 < pos.quantity as int,
                                        pos.quantity as int <= QTY_MAX as int,
                                        lp <= SCALE,
                                ;
                            } else {
                                assert(0 <= -(pos.quantity as int) * (SCALE as int - lp as int)
                                    && -(pos.quantity as int) * (SCALE as int - lp as int)
                                    <= QTY_MAX as int * SCALE as int) by (nonlinear_arith)
                                    requires
                                        -(QTY_MAX as int) <= pos.quantity as int,
                                        (pos.quantity as int) < 0,
                                        lp <= SCALE,
                                ;
                            }
                        }
                        if pos.quantity > 0 {
                            term = (pos.quantity as i128) * (lp as i128) - pos.entry_cost;
                        } else {
                            term = (-(pos.quantity as i128)) * ((SCALE - lp) as i128)
                                - pos.entry_cost;
                        }
                    },
                    None => {},
                }
            }
            proof {
                assert(pos.entry_cost <= QTY_MAX as int * SCALE as int) by (nonlinear_arith)
                    requires
                        0 <= pos.entry_cost <= abs(pos.quantity as int) * SCALE as int,
                        abs(pos.quantity as int) <= QTY_MAX as int,
                ;
                assert(term as int == f(self.positions@[i as int]));
                assert(g(self.positions@[i as int]) == if counts {
                    1int
                } else {
                    0int
                });
                lemma_sum_by_push(self.positions@.take(i as int), self.positions@[i as int], f);
                lemma_sum_by_push(self.positions@.take(i as int), self.positions@[i as int], g);
                assert(self.positions@.take(i as int).push(self.positions@[i as int])
                    =~= self.positions@.take(i as int + 1));
                assert((i as int + 1) * (2 * QTY_MAX as int * SCALE as int) == (i as int) * (2
                    * QTY_MAX as int * SCALE as int) + 2 * QTY_MAX as int * SCALE as int)
                    by (nonlinear_arith);
                assert((i as int) * (2 * QTY_MAX as int * SCALE as int)
                    <= 18446744073709551615int * (2 * QTY_MAX as int * SCALE as int))
                    by (nonlinear_arith)
                    requires
                        0 <= i as int <= 18446744073709551615int,
                ;
                assert(-(2 * QTY_MAX as int * SCALE as int) <= term as int <= 2 * QTY_MAX as int
                    * SCALE as int);
            }
            proof {
                assert(unrealized as int <= 18446744073709551615int * (2 * QTY_MAX as int
                    * SCALE as int));
                assert(unrealized as int >= -(18446744073709551615int * (2 * QTY_MAX as int
                    * SCALE as int)));
                assert((unrealized as int + term as int) < i128::MAX as int);
                assert((unrealized as int + term as int) > i128::MIN as int);
            }
            unrealized = unrealized + term;
            i = i + 1;
        }
        proof {
            assert(self.positions@.take(n as int) =~= self.positions@);
            assert((n as int) * (2 * QTY_MAX as int * SCALE as int)
                <= 18446744073709551615int * (2 * QTY_MAX as int * SCALE as int))
                by (nonlinear_arith)
                requires
                    0 <= n as int <= 18446744073709551615int,
            ;
        }
        Snapshot {
            timestamp,
            cash: self.cash,
            total_equity: self.cash + unrealized,
            unrealized_pnl: unrealized,
            num_positions: open,
        }
    }

    /// Compute a snapshot, append it to the history, and return it.
    pub fn snapshot(&mut self, timestamp: u64) -> (snap: Snapshot)
        requires
            old(self).wf(),
            -MONEY_CAP <= old(self).cash <= MONEY_CAP,
        ensures
            final(self).wf(),
            snap == spec_snapshot(*old(self), timestamp),
            final(self).snapshots@ == old(self).snapshots@.push(snap),
            final(self).positions == old(self).positions,
            final(self).cash == old(self).cash,
            final(self).initial_cash == old(self).initial_cash,
            final(self).last_prices == old(self).last_prices,
            final(self).resolved_markets == old(self).resolved_markets,
            final(self).commissions_paid == old(self).commissions_paid,
    {
        let snap = self.compute_snapshot(timestamp);
        self.snapshots.push(snap);
        snap
    }
}

pub open spec fn entry_cost_fn() -> spec_fn(Position) -> int {
    |p: Position| p.entry_cost as int
}

pub open spec fn realized_fn() -> spec_fn(Position) -> int {
    |p: Position| p.realized_pnl as int
}

/// The cash ledger: cash plus the cost still tied up in open positions plus
/// all commissions charged, minus all profit realized. Fills that buy into
/// a position or sell part of it back, and settlements, conserve it; it
/// always reads the initial cash.
pub open spec fn spec_ledger(positions: Seq<Position>, cash: int, commissions_paid: int) -> int {
    cash + sum_by(positions, entry_cost_fn()) + commissions_paid - sum_by(
        positions,
        realized_fn(),
    )
}

/// A fill moves its position away from flat only by buying, and toward flat
/// only by selling what is held: buys extend a position of the same sign,
/// sells close at most the held quantity. (A sell beyond the held quantity
/// mints exposure without collateral and is not cash-conserving.)
pub open spec fn fill_respects_direction(positions: Seq<Position>, fill: Fill) -> bool {
    let i = find_market(positions, fill.market_id@);
    let q0 = if i >= 0 {
        positions[i].quantity as int
    } else {
        0
    };
    &&& fill.quantity >= 1
    &&& match (fill.action, fill.side) {
        (OrderAction::Buy, Side::Yes) => q0 >= 0,
        (OrderAction::Buy, Side::No) => q0 <= 0,
        (OrderAction::Sell, Side::Yes) => q0 >= fill.quantity,
        (OrderAction::Sell, Side::No) => q0 <= -(fill.quantity as int),
    }
}

/// Cash conservation: a direction-respecting fill leaves the ledger
/// unchanged — whatever cash leaves shows up as entry cost, commissions, or
/// realized profit, exactly.
pub proof fn lemma_apply_fill_conserves_ledger(
    positions: Seq<Position>,
    cash: int,
    commissions_paid: int,
    fill: Fill,
)
    requires
        fill.wf(),
        forall|j: int| 0 <= j < positions.len() ==> (#[trigger] positions[j]).wf(),
        fill_respects_direction(positions, fill),
        ({
            let i = find_market(positions, fill.market_id@);
            i >= 0 ==> {
                &&& -MONEY_CAP <= positions[i].realized_pnl <= MONEY_CAP
                &&& -(QTY_MAX as int) <= positions[i].quantity + spec_fill_delta(fill)
                    <= QTY_MAX as int
            }
        }),
    ensures
        spec_ledger(
            spec_apply_fill_positions(positions, fill),
            cash + spec_cash_delta(fill),
            commissions_paid + fill.commission,
        ) == spec_ledger(positions, cash, commissions_paid),
{
    let i = find_market(positions, fill.market_id@);
    let delta = spec_fill_delta(fill);
    let price = spec_fill_entry_price(fill);
    let q = fill.quantity as int;
    let p = fill.price as int;
    lemma_find_by(positions, market_pred(fill.market_id@));
    if i >= 0 {
        let pos = positions[i];
        let q0 = pos.quantity as int;
        let pos2 = spec_position_after_fill(pos, fill);
        lemma_sum_by_update(positions, i, pos2, entry_cost_fn());
        lemma_sum_by_update(positions, i, pos2, realized_fn());
        match (fill.action, fill.side) {
            (OrderAction::Buy, Side::Yes) => {
                assert(pos2 == spec_add_to_position(pos, q, p));
                assert(pos2.entry_cost == pos.entry_cost + q * p && pos2.realized_pnl
                    == pos.realized_pnl) by {
                    lemma_add_to_position_wf(pos, q, p);
                    assert(abs(q) as int * unit_cost(true, p) == q * p);
                    assert(0 <= q * p <= QTY_MAX as int * SCALE as int) by (nonlinear_arith)
                        requires
                            0 < q <= QTY_MAX as int,
                            0 <= p <= SCALE as int,
                    ;
                    assert(pos.entry_cost <= QTY_MAX as int * SCALE as int) by (nonlinear_arith)
                        requires
                            0 <= pos.entry_cost <= abs(pos.quantity as int) * SCALE as int,
                            abs(pos.quantity as int) <= QTY_MAX as int,
                    ;
                }
            },
            (OrderAction::Buy, Side::No) => {
                assert(pos2 == spec_add_to_position(pos, -q, SCALE as int - p));
                assert(pos2.entry_cost == pos.entry_cost + q * p && pos2.realized_pnl
                    == pos.realized_pnl) by {
                    lemma_add_to_position_wf(pos, -q, SCALE as int - p);
                    assert(abs(-q) as int * unit_cost(false, SCALE as int - p) == q * p);
                    assert(0 <= q * p <= QTY_MAX as int * SCALE as int) by (nonlinear_arith)
                        requires
                            0 < q <= QTY_MAX as int,
                            0 <= p <= SCALE as int,
                    ;
                    assert(pos.entry_cost <= QTY_MAX as int * SCALE as int) by (nonlinear_arith)
                        requires
                            0 <= pos.entry_cost <= abs(pos.quantity as int) * SCALE as int,
                            abs(pos.quantity as int) <= QTY_MAX as int,
                    ;
                }
            },
            (OrderAction::Sell, Side::Yes) => {
                assert(pos2 == spec_close_partial(pos, -q, p));
                lemma_close_partial_wf(pos, -q, p);
                let aq = abs(q0) as int;
                let removed = pos.entry_cost as int * q / aq;
                assert(abs(-q) as int == q && q0 > 0 && aq == q0);
                assert(pos2.entry_cost == pos.entry_cost - removed && pos2.realized_pnl
                    == pos.realized_pnl + (q * p - removed)) by {
                    lemma_mul_nonnegative(pos.entry_cost as int, q);
                    lemma_div_pos_is_pos(pos.entry_cost as int * q, aq);
                    lemma_mul_inequality(q, aq, pos.entry_cost as int);
                    assert(pos.entry_cost as int * q == q * pos.entry_cost as int
                        && pos.entry_cost as int * aq == aq * pos.entry_cost as int)
                        by (nonlinear_arith);
                    lemma_div_is_ordered(
                        pos.entry_cost as int * q,
                        pos.entry_cost as int * aq,
                        aq,
                    );
                    lemma_div_multiples_vanish(pos.entry_cost as int, aq);
                    assert(0 <= q * unit_cost(true, p) <= QTY_MAX as int * SCALE as int)
                        by (nonlinear_arith)
                        requires
                            0 < q <= QTY_MAX as int,
                            0 <= unit_cost(true, p) <= SCALE as int,
                    ;
                }
                assert(q * unit_cost(true, p) == q * p);
            },
            (OrderAction::Sell, Side::No) => {
                assert(pos2 == spec_close_partial(pos, q, SCALE as int - p));
                lemma_close_partial_wf(pos, q, SCALE as int - p);
                let aq = abs(q0) as int;
                let removed = pos.entry_cost as int * q / aq;
                assert(q0 < 0 && aq == -q0 && aq >= q);
                assert(pos2.entry_cost == pos.entry_cost - removed && pos2.realized_pnl
                    == pos.realized_pnl + (q * p - removed)) by {
                    lemma_mul_nonnegative(pos.entry_cost as int, q);
                    lemma_div_pos_is_pos(pos.entry_cost as int * q, aq);
                    lemma_mul_inequality(q, aq, pos.entry_cost as int);
                    assert(pos.entry_cost as int * q == q * pos.entry_cost as int
                        && pos.entry_cost as int * aq == aq * pos.entry_cost as int)
                        by (nonlinear_arith);
                    lemma_div_is_ordered(
                        pos.entry_cost as int * q,
                        pos.entry_cost as int * aq,
                        aq,
                    );
                    lemma_div_multiples_vanish(pos.entry_cost as int, aq);
                    assert(q * unit_cost(false, SCALE as int - p) == q * p);
                    assert(0 <= q * p <= QTY_MAX as int * SCALE as int) by (nonlinear_arith)
                        requires
                            0 < q <= QTY_MAX as int,
                            0 <= p <= SCALE as int,
                    ;
                }
            },
        }
    } else {
        let blank = blank_position(fill.market_id);
        let pos2 = spec_position_after_fill(blank, fill);
        lemma_sum_by_push(positions, pos2, entry_cost_fn());
        lemma_sum_by_push(positions, pos2, realized_fn());
        match (fill.action, fill.side) {
            (OrderAction::Buy, Side::Yes) => {
                assert(pos2.entry_cost == q * p && pos2.realized_pnl == 0) by {
                    assert(abs(q) as int * unit_cost(true, p) == q * p);
                    assert(0 <= q * p <= QTY_MAX as int * SCALE as int) by (nonlinear_arith)
                        requires
                            0 < q <= QTY_MAX as int,
                            0 <= p <= SCALE as int,
                    ;
                }
            },
            (OrderAction::Buy, Side::No) => {
                assert(pos2.entry_cost == q * p && pos2.realized_pnl == 0) by {
                    assert(abs(-q) as int * unit_cost(false, SCALE as int - p) == q * p);
                    assert(0 <= q * p <= QTY_MAX as int * SCALE as int) by (nonlinear_arith)
                        requires
                            0 < q <= QTY_MAX as int,
                            0 <= p <= SCALE as int,
                    ;
                }
            },
            (OrderAction::Sell, Side::Yes) => {
                assert(false);
            },
            (OrderAction::Sell, Side::No) => {
                assert(false);
            },
        }
    }
}

/// Settlement conserves the ledger: the payout enters cash, the entry cost
/// leaves the open position, and their difference is realized.
pub proof fn lemma_resolve_conserves_ledger(
    pre: Portfolio,
    post: Portfolio,
    m: Seq<char>,
    result: Side,
    r: int,
)
    requires
        pre.wf(),
        pre.spec_can_resolve(m),
        resolve_post(pre, post, m, result, r),
    ensures
        spec_ledger(post.positions@, post.cash as int, post.commissions_paid@) == spec_ledger(
            pre.positions@,
            pre.cash as int,
            pre.commissions_paid@,
        ),
{
    if !pre.spec_is_resolved(m) {
        let i = find_market(pre.positions@, m);
        lemma_find_by(pre.positions@, market_pred(m));
        if i >= 0 && pre.positions@[i].quantity != 0 {
            let pos = pre.positions@[i];
            let pos2 = spec_resolved_position(pos, result);
            let payout = spec_payout(pos.quantity as int, result);
            assert(pos.wf());
            assert(0 <= payout <= QTY_MAX as int * SCALE as int) by {
                if pos.quantity > 0 {
                    assert(0 <= pos.quantity as int * spec_settlement(result) <= QTY_MAX as int
                        * SCALE as int) by (nonlinear_arith)
                        requires
                            0 < pos.quantity as int <= QTY_MAX as int,
                            0 <= spec_settlement(result) <= SCALE as int,
                    ;
                } else {
                    assert(0 <= -(pos.quantity as int) * (SCALE as int - spec_settlement(result))
                        <= QTY_MAX as int * SCALE as int) by (nonlinear_arith)
                        requires
                            -(QTY_MAX as int) <= pos.quantity as int,
                            (pos.quantity as int) < 0,
                            0 <= spec_settlement(result) <= SCALE as int,
                    ;
                }
            }
            lemma_sum_by_update(pre.positions@, i, pos2, entry_cost_fn());
            lemma_sum_by_update(pre.positions@, i, pos2, realized_fn());
        }
    }
}

/// Resolution payout: a long position of `q` contracts pays `q` dollars
/// when YES wins and nothing when NO wins; a short position pays `|q|`
/// dollars when NO wins and nothing when YES wins.
pub proof fn lemma_resolution_payout(q: int)
    ensures
        q > 0 ==> spec_payout(q, Side::Yes) == q * SCALE as int && spec_payout(q, Side::No) == 0,
        q < 0 ==> spec_payout(q, Side::Yes) == 0 && spec_payout(q, Side::No) == -q
            * SCALE as int,
{
    if q < 0 {
        assert(-q * (SCALE as int - SCALE as int) == 0) by (nonlinear_arith);
        assert(-q * (SCALE as int - 0) == -q * SCALE as int) by (nonlinear_arith);
    }
}

/// Fold a sequence of (signed quantity, YES-equivalent price) executions
/// into a position.
pub open spec fn spec_add_seq(pos: Position, fills: Seq<(int, int)>) -> Position
    decreases fills.len(),
{
    if fills.len() == 0 {
        pos
    } else {
        spec_add_seq(spec_add_to_position(pos, fills[0].0, fills[0].1), fills.skip(1))
    }
}

pub open spec fn total_delta(fills: Seq<(int, int)>) -> int
    decreases fills.len(),
{
    if fills.len() == 0 {
        0
    } else {
        fills[0].0 + total_delta(fills.skip(1))
    }
}

/// The volume-weighted cost of the executions: each quantity times its
/// per-contract entry cost.
pub open spec fn total_cost(fills: Seq<(int, int)>, long: bool) -> int
    decreases fills.len(),
{
    if fills.len() == 0 {
        0
    } else {
        abs(fills[0].0) as int * unit_cost(long, fills[0].1) + total_cost(fills.skip(1), long)
    }
}

/// Every execution extends the same direction, with a price in range and at
/// least one contract.
pub open spec fn same_direction_fills(fills: Seq<(int, int)>, long: bool) -> bool {
    forall|k: int|
        0 <= k < fills.len() ==> {
            &&& if long {
                (#[trigger] fills[k]).0 > 0
            } else {
                fills[k].0 < 0
            }
            &&& 0 <= fills[k].1 <= SCALE as int
            &&& abs(fills[k].0) <= QTY_MAX as int
        }
}

/// Volume-weighted averaging: a sequence of same-direction executions
/// leaves the position holding exactly the summed quantity at exactly the
/// summed cost, with no profit realized. The average entry price —
/// `entry_cost` over `|quantity|` — is therefore the volume-weighted
/// average of the execution prices, in YES-equivalent terms, exactly.
pub proof fn lemma_same_direction_vwap(pos: Position, fills: Seq<(int, int)>, long: bool)
    requires
        pos.wf(),
        long ==> pos.quantity >= 0,
        !long ==> pos.quantity <= 0,
        same_direction_fills(fills, long),
        -(QTY_MAX as int) <= pos.quantity + total_delta(fills) <= QTY_MAX as int,
        -MONEY_CAP <= pos.realized_pnl <= MONEY_CAP,
    ensures
        spec_add_seq(pos, fills).quantity == pos.quantity + total_delta(fills),
        spec_add_seq(pos, fills).entry_cost == pos.entry_cost + total_cost(fills, long),
        spec_add_seq(pos, fills).realized_pnl == pos.realized_pnl,
        spec_add_seq(pos, fills).market_id == pos.market_id,
        spec_add_seq(pos, fills).wf(),
    decreases fills.len(),
{
    if fills.len() != 0 {
        let d0 = fills[0].0;
        let p0 = fills[0].1;
        let rest = fills.skip(1);
        assert(fills[0] == fills[0]);
        assert(forall|k: int| 0 <= k < rest.len() ==> rest[k] == fills[k + 1]);
        assert(if long {
            total_delta(rest) >= rest.len()
        } else {
            total_delta(rest) <= -rest.len()
        }) by {
            lemma_total_delta_sign(rest, long);
        }
        let pos1 = spec_add_to_position(pos, d0, p0);
        assert(-(QTY_MAX as int) <= pos.quantity + d0 <= QTY_MAX as int);
        lemma_add_to_position_wf(pos, d0, p0);
        assert(pos1.entry_cost == pos.entry_cost + abs(d0) as int * unit_cost(long, p0)
            && pos1.realized_pnl == pos.realized_pnl) by {
            if pos.quantity == 0 {
                assert(pos.entry_cost == 0);
                assert(unit_cost(d0 > 0, p0) == unit_cost(long, p0));
            } else {
                assert((pos.quantity > 0) == (d0 > 0));
                assert(unit_cost(pos.quantity > 0, p0) == unit_cost(long, p0));
            }
            assert(0 <= abs(d0) as int * unit_cost(long, p0) <= QTY_MAX as int * SCALE as int)
                by (nonlinear_arith)
                requires
                    0 <= abs(d0) as int <= QTY_MAX as int,
                    0 <= unit_cost(long, p0) <= SCALE as int,
            ;
            assert(pos.entry_cost <= QTY_MAX as int * SCALE as int) by (nonlinear_arith)
                requires
                    0 <= pos.entry_cost <= abs(pos.quantity as int) * SCALE as int,
                    abs(pos.quantity as int) <= QTY_MAX as int,
            ;
        }
        lemma_same_direction_vwap(pos1, rest, long);
    }
}

/// Same-direction deltas keep their sign when summed.
pub proof fn lemma_total_delta_sign(fills: Seq<(int, int)>, long: bool)
    requires
        same_direction_fills(fills, long),
    ensures
        long ==> total_delta(fills) >= fills.len(),
        !long ==> total_delta(fills) <= -fills.len(),
    decreases fills.len(),
{
    if fills.len() != 0 {
        assert(forall|k: int| 0 <= k < fills.skip(1).len() ==> fills.skip(1)[k] == fills[k + 1]);
        lemma_total_delta_sign(fills.skip(1), long);
    }
}

} // verus!
