//! End-to-end tests of the broker and portfolio, in fixed-point units:
//! prices scale by 10_000 (0.50 is 5_000), money by 10_000 (one dollar is
//! 10_000).

use backtesting_engine::broker::Broker;
use backtesting_engine::models::{OrderAction, Side, Trade};
use backtesting_engine::portfolio::Portfolio;

fn trade(market: &str, yes: u64, no: u64, qty: u64, taker: Side) -> Trade {
    Trade {
        timestamp: 1_000,
        market_id: market.to_string(),
        yes_price: yes,
        no_price: no,
        quantity: qty,
        taker_side: taker,
    }
}

#[test]
fn side_and_action_strings() {
    assert_eq!(Side::Yes.as_str(), "yes");
    assert_eq!(Side::No.as_str(), "no");
    assert_eq!(OrderAction::Buy.as_str(), "buy");
    assert_eq!(OrderAction::Sell.as_str(), "sell");
}

#[test]
fn buy_yes_fills_against_no_taker() {
    // Zero slippage and commission, liquidity cap on.
    let mut b = Broker::new(0, 0, true, 10_000);
    let mut p = Portfolio::new(1_000_000);
    b.place_order("m", OrderAction::Buy, Side::Yes, 5_000, 10, 1_000);
    let t = trade("m", 4_000, 6_000, 100, Side::No);
    b.update_trade_size("m", t.quantity);
    let fills = b.check_fills(&t, p.cash);
    assert_eq!(fills.len(), 1);
    assert_eq!(fills[0].price, 4_000);
    assert_eq!(fills[0].quantity, 10);
    assert_eq!(fills[0].commission, 0);
    for f in &fills {
        p.apply_fill(f);
    }
    // 100 dollars minus 10 contracts at 0.40.
    assert_eq!(p.cash, 960_000);
    assert_eq!(p.positions.len(), 1);
    assert_eq!(p.positions[0].quantity, 10);
    assert_eq!(p.positions[0].avg_entry_price(), 4_000);
    assert_eq!(b.all_pending().len(), 0);
}

#[test]
fn round_trip_realizes_zero() {
    let mut b = Broker::new(0, 0, true, 10_000);
    let mut p = Portfolio::new(1_000_000);
    b.place_order("m", OrderAction::Buy, Side::Yes, 5_000, 10, 1_000);
    let t1 = trade("m", 5_000, 5_000, 100, Side::No);
    b.update_trade_size("m", t1.quantity);
    for f in &b.check_fills(&t1, p.cash) {
        p.apply_fill(f);
    }
    b.place_order("m", OrderAction::Sell, Side::Yes, 5_000, 10, 1_001);
    let t2 = trade("m", 5_000, 5_000, 100, Side::Yes);
    b.update_trade_size("m", t2.quantity);
    let fills = b.check_fills(&t2, p.cash);
    assert_eq!(fills.len(), 1);
    assert_eq!(fills[0].price, 5_000);
    for f in &fills {
        p.apply_fill(f);
    }
    assert_eq!(p.cash, 1_000_000);
    assert_eq!(p.positions[0].quantity, 0);
    assert_eq!(p.positions[0].realized_pnl, 0);
}

#[test]
fn sell_realizes_profit() {
    let mut b = Broker::new(0, 0, true, 10_000);
    let mut p = Portfolio::new(1_000_000);
    b.place_order("m", OrderAction::Buy, Side::Yes, 5_000, 10, 1_000);
    let t1 = trade("m", 4_000, 6_000, 100, Side::No);
    b.update_trade_size("m", t1.quantity);
    for f in &b.check_fills(&t1, p.cash) {
        p.apply_fill(f);
    }
    b.place_order("m", OrderAction::Sell, Side::Yes, 6_000, 10, 1_001);
    let t2 = trade("m", 7_000, 3_000, 100, Side::Yes);
    b.update_trade_size("m", t2.quantity);
    let fills = b.check_fills(&t2, p.cash);
    assert_eq!(fills.len(), 1);
    assert_eq!(fills[0].price, 7_000);
    for f in &fills {
        p.apply_fill(f);
    }
    // Bought 10 at 0.40 (4 dollars), sold at 0.70 (7 dollars).
    assert_eq!(p.cash, 1_030_000);
    assert_eq!(p.positions[0].quantity, 0);
    assert_eq!(p.positions[0].realized_pnl, 30_000);
}

#[test]
fn cash_gate_floors_to_whole_contracts() {
    // 5 dollars of cash, 1% commission, liquidity cap on.
    let mut b = Broker::new(100, 0, true, 10_000);
    let mut p = Portfolio::new(50_000);
    b.place_order("m", OrderAction::Buy, Side::Yes, 5_000, 100, 1_000);
    let t = trade("m", 5_000, 5_000, 100, Side::No);
    b.update_trade_size("m", t.quantity);
    let fills = b.check_fills(&t, p.cash);
    assert_eq!(fills.len(), 1);
    // floor(5 / (0.50 * 1.01)) = 9 contracts: cost 4.5, commission 0.045.
    assert_eq!(fills[0].quantity, 9);
    assert_eq!(fills[0].price, 5_000);
    assert_eq!(fills[0].commission, 450);
    for f in &fills {
        p.apply_fill(f);
    }
    assert_eq!(p.cash, 4_550);
}

#[test]
fn cash_gate_divides_before_rounding() {
    // Price 0.0003, commission 1%, cash 0.0007: the cash affords
    // 0.0007 / (0.0003 * 1.01) = 2.31 contracts, so 2 fill.
    let mut b = Broker::new(100, 0, true, 10_000);
    b.place_order("m", OrderAction::Buy, Side::Yes, 3, 10, 1_000);
    let t = trade("m", 3, 9_997, 100, Side::No);
    b.update_trade_size("m", t.quantity);
    let fills = b.check_fills(&t, 7);
    assert_eq!(fills.len(), 1);
    assert_eq!(fills[0].quantity, 2);
    assert_eq!(fills[0].price, 3);
    assert_eq!(fills[0].commission, 0);
}

#[test]
fn cash_gate_without_cap_skips_entirely() {
    let mut b = Broker::new(100, 0, false, 10_000);
    b.place_order("m", OrderAction::Buy, Side::Yes, 5_000, 100, 1_000);
    let t = trade("m", 5_000, 5_000, 100, Side::No);
    b.update_trade_size("m", t.quantity);
    let fills = b.check_fills(&t, 50_000);
    assert_eq!(fills.len(), 0);
    assert_eq!(b.all_pending().len(), 1);
}

#[test]
fn impact_widens_extreme_prices() {
    // Slippage 0.01, no cap. At yes = 0.05 the spread factor is
    // 0.25 / (0.05 * 0.95) and the size factor is one, so the fill price is
    // 0.05 + 0.0526 = 0.1026.
    let mut b = Broker::new(0, 100, false, 10_000);
    b.place_order("m", OrderAction::Buy, Side::Yes, 9_900, 1, 1_000);
    let t = trade("m", 500, 9_500, 1, Side::No);
    b.update_trade_size("m", t.quantity);
    let fills = b.check_fills(&t, 1_000_000);
    assert_eq!(fills.len(), 1);
    assert_eq!(fills[0].price, 1_026);
}

#[test]
fn long_no_resolution_pays_complement() {
    let mut b = Broker::new(0, 0, true, 10_000);
    let mut p = Portfolio::new(1_000_000);
    b.place_order("m", OrderAction::Buy, Side::No, 4_000, 10, 1_000);
    let t = trade("m", 6_000, 4_000, 100, Side::Yes);
    b.update_trade_size("m", t.quantity);
    let fills = b.check_fills(&t, p.cash);
    assert_eq!(fills.len(), 1);
    assert_eq!(fills[0].price, 4_000);
    for f in &fills {
        p.apply_fill(f);
    }
    assert_eq!(p.positions[0].quantity, -10);
    assert_eq!(p.positions[0].avg_entry_price(), 6_000);
    // Paid 4 dollars for 10 NO contracts; NO wins and pays 10 dollars.
    let pnl = p.resolve_market("m", Side::No);
    assert_eq!(pnl, 60_000);
    assert_eq!(p.cash, 1_000_000 - 40_000 + 100_000);
    assert_eq!(p.positions[0].quantity, 0);
    assert!(p.is_resolved("m"));
}

#[test]
fn long_yes_resolution_payout_by_winner() {
    // A long-YES position of q contracts pays q dollars when YES wins and
    // nothing when NO wins.
    for (winner, payout) in [(Side::Yes, 100_000i128), (Side::No, 0i128)] {
        let mut b = Broker::new(0, 0, true, 10_000);
        let mut p = Portfolio::new(1_000_000);
        b.place_order("m", OrderAction::Buy, Side::Yes, 5_000, 10, 1_000);
        let t = trade("m", 5_000, 5_000, 100, Side::No);
        b.update_trade_size("m", t.quantity);
        for f in &b.check_fills(&t, p.cash) {
            p.apply_fill(f);
        }
        let cash_before = p.cash;
        let pnl = p.resolve_market("m", winner);
        assert_eq!(p.cash - cash_before, payout);
        assert_eq!(pnl, payout - 50_000);
    }
}

#[test]
fn resolve_market_is_idempotent() {
    let mut b = Broker::new(0, 0, true, 10_000);
    let mut p = Portfolio::new(1_000_000);
    b.place_order("m", OrderAction::Buy, Side::Yes, 5_000, 10, 1_000);
    let t = trade("m", 5_000, 5_000, 100, Side::No);
    b.update_trade_size("m", t.quantity);
    for f in &b.check_fills(&t, p.cash) {
        p.apply_fill(f);
    }
    let first = p.resolve_market("m", Side::Yes);
    let cash = p.cash;
    let realized = p.positions[0].realized_pnl;
    let second = p.resolve_market("m", Side::Yes);
    assert_eq!(first, 50_000);
    assert_eq!(second, 0);
    assert_eq!(p.cash, cash);
    assert_eq!(p.positions[0].realized_pnl, realized);
    assert_eq!(p.positions[0].quantity, 0);
}

#[test]
fn resolve_unknown_market_marks_resolved() {
    let mut p = Portfolio::new(1_000_000);
    assert!(!p.is_resolved("m"));
    assert_eq!(p.resolve_market("m", Side::Yes), 0);
    assert!(p.is_resolved("m"));
    assert_eq!(p.cash, 1_000_000);
}

#[test]
fn pending_count_tracks_place_cancel_fill() {
    let mut b = Broker::new(0, 0, true, 10_000);
    let a = b.place_order("m", OrderAction::Buy, Side::Yes, 5_000, 10, 1_000);
    b.place_order("m", OrderAction::Buy, Side::Yes, 4_000, 10, 1_001);
    b.place_order("x", OrderAction::Buy, Side::Yes, 5_000, 10, 1_002);
    assert_eq!(b.all_pending().len(), 3);
    assert!(b.cancel_order(a.order_id));
    assert_eq!(b.all_pending().len(), 2);
    assert!(!b.cancel_order(999));
    let t = trade("m", 4_000, 6_000, 100, Side::No);
    b.update_trade_size("m", t.quantity);
    let fills = b.check_fills(&t, 1_000_000);
    assert_eq!(fills.len(), 1);
    assert_eq!(b.all_pending().len(), 1);
    assert_eq!(b.all_pending()[0].market_id, "x");
}

#[test]
fn order_ids_are_unique_and_match_pending() {
    let mut b = Broker::new(0, 0, true, 10_000);
    let a = b.place_order("m", OrderAction::Buy, Side::Yes, 5_000, 5, 1_000);
    let c = b.place_order("m", OrderAction::Buy, Side::Yes, 5_000, 5, 1_001);
    assert_eq!(a.order_id, 1);
    assert_eq!(c.order_id, 2);
    let t = trade("m", 4_000, 6_000, 100, Side::No);
    b.update_trade_size("m", t.quantity);
    let fills = b.check_fills(&t, 1_000_000);
    assert_eq!(fills.len(), 2);
    // FIFO: the first-placed order fills first, ids stay distinct.
    assert_eq!(fills[0].order_id, a.order_id);
    assert_eq!(fills[1].order_id, c.order_id);
    assert_ne!(fills[0].order_id, fills[1].order_id);
}

#[test]
fn liquidity_cap_limits_and_is_consumed_in_order() {
    let mut b = Broker::new(0, 0, true, 10_000);
    b.place_order("m", OrderAction::Buy, Side::Yes, 5_000, 8, 1_000);
    b.place_order("m", OrderAction::Buy, Side::Yes, 5_000, 8, 1_001);
    let t = trade("m", 4_000, 6_000, 12, Side::No);
    b.update_trade_size("m", t.quantity);
    let fills = b.check_fills(&t, 10_000_000);
    // 12 contracts of liquidity: 8 to the first order, 4 left for the second.
    assert_eq!(fills.len(), 2);
    assert_eq!(fills[0].quantity, 8);
    assert_eq!(fills[1].quantity, 4);
    // The partially filled second order is consumed as well.
    assert_eq!(b.all_pending().len(), 0);
}

#[test]
fn taker_on_same_side_does_not_fill() {
    let mut b = Broker::new(0, 0, true, 10_000);
    b.place_order("m", OrderAction::Buy, Side::Yes, 5_000, 10, 1_000);
    let t = trade("m", 4_000, 6_000, 100, Side::Yes);
    b.update_trade_size("m", t.quantity);
    assert_eq!(b.check_fills(&t, 1_000_000).len(), 0);
    assert_eq!(b.all_pending().len(), 1);
}

#[test]
fn cancel_all_by_market_and_everywhere() {
    let mut b = Broker::new(0, 0, true, 10_000);
    b.place_order("m", OrderAction::Buy, Side::Yes, 5_000, 10, 1_000);
    b.place_order("m", OrderAction::Sell, Side::No, 5_000, 10, 1_001);
    b.place_order("x", OrderAction::Buy, Side::Yes, 5_000, 10, 1_002);
    assert_eq!(b.cancel_all(Some("m")), 2);
    assert_eq!(b.all_pending().len(), 1);
    assert_eq!(b.cancel_all(None), 1);
    assert_eq!(b.all_pending().len(), 0);
    assert_eq!(b.cancel_all(Some("m")), 0);
}

#[test]
fn ema_seeds_then_decays() {
    let mut b = Broker::new(0, 0, true, 5_000);
    b.update_trade_size("m", 10);
    assert_eq!(b.ema_trade_size[0].ema, 100_000);
    b.update_trade_size("m", 20);
    // 10 * 0.5 + 20 * 0.5 = 15 contracts, scaled.
    assert_eq!(b.ema_trade_size[0].ema, 150_000);
}

#[test]
fn vwap_over_same_direction_fills() {
    let mut p = Portfolio::new(10_000_000);
    let mut b = Broker::new(0, 0, true, 10_000);
    b.place_order("m", OrderAction::Buy, Side::Yes, 5_000, 10, 1_000);
    let t1 = trade("m", 4_000, 6_000, 100, Side::No);
    b.update_trade_size("m", t1.quantity);
    for f in &b.check_fills(&t1, p.cash) {
        p.apply_fill(f);
    }
    b.place_order("m", OrderAction::Buy, Side::Yes, 7_000, 30, 1_001);
    let t2 = trade("m", 6_000, 4_000, 100, Side::No);
    b.update_trade_size("m", t2.quantity);
    for f in &b.check_fills(&t2, p.cash) {
        p.apply_fill(f);
    }
    // 10 at 0.40 and 30 at 0.60: the average entry is 0.55, exactly the
    // volume-weighted average.
    assert_eq!(p.positions[0].quantity, 40);
    assert_eq!(p.positions[0].entry_cost, 10 * 4_000 + 30 * 6_000);
    assert_eq!(p.positions[0].avg_entry_price(), 5_500);
}

#[test]
fn cash_ledger_is_conserved() {
    // cash + entry costs + commissions - realized stays at the initial
    // cash through buys, sells and settlement.
    let mut b = Broker::new(100, 0, true, 10_000);
    let mut p = Portfolio::new(1_000_000);
    b.place_order("m", OrderAction::Buy, Side::Yes, 5_000, 10, 1_000);
    let t1 = trade("m", 4_000, 6_000, 100, Side::No);
    b.update_trade_size("m", t1.quantity);
    let mut commissions: i128 = 0;
    for f in &b.check_fills(&t1, p.cash) {
        commissions += f.commission;
        p.apply_fill(f);
    }
    b.place_order("m", OrderAction::Sell, Side::Yes, 5_000, 4, 1_001);
    let t2 = trade("m", 6_000, 4_000, 100, Side::Yes);
    b.update_trade_size("m", t2.quantity);
    for f in &b.check_fills(&t2, p.cash) {
        commissions += f.commission;
        p.apply_fill(f);
    }
    let entry: i128 = p.positions.iter().map(|q| q.entry_cost).sum();
    let realized: i128 = p.positions.iter().map(|q| q.realized_pnl).sum();
    assert_eq!(p.cash + entry + commissions - realized, 1_000_000);
    p.resolve_market("m", Side::Yes);
    let entry2: i128 = p.positions.iter().map(|q| q.entry_cost).sum();
    let realized2: i128 = p.positions.iter().map(|q| q.realized_pnl).sum();
    assert_eq!(p.cash + entry2 + commissions - realized2, 1_000_000);
}

#[test]
fn snapshot_reports_unrealized_and_equity() {
    let mut b = Broker::new(0, 0, true, 10_000);
    let mut p = Portfolio::new(1_000_000);
    b.place_order("m", OrderAction::Buy, Side::Yes, 5_000, 10, 1_000);
    let t = trade("m", 4_000, 6_000, 100, Side::No);
    b.update_trade_size("m", t.quantity);
    for f in &b.check_fills(&t, p.cash) {
        p.apply_fill(f);
    }
    // Before any price update the position is valued at its entry: zero.
    let s0 = p.compute_snapshot(2_000);
    assert_eq!(s0.unrealized_pnl, 0);
    assert_eq!(s0.num_positions, 1);
    p.update_price("m", 5_000);
    let s1 = p.snapshot(2_001);
    assert_eq!(s1.cash, 960_000);
    assert_eq!(s1.unrealized_pnl, 10 * 5_000 - 40_000);
    assert_eq!(s1.total_equity, 960_000 + 10_000);
    assert_eq!(s1.num_positions, 1);
    assert_eq!(p.snapshots.len(), 1);
    // A resolved market leaves the open-position count.
    p.resolve_market("m", Side::Yes);
    let s2 = p.compute_snapshot(2_002);
    assert_eq!(s2.num_positions, 0);
    assert_eq!(s2.unrealized_pnl, 0);
}

#[test]
fn short_position_unrealized_gains_when_price_falls() {
    let mut b = Broker::new(0, 0, true, 10_000);
    let mut p = Portfolio::new(1_000_000);
    b.place_order("m", OrderAction::Buy, Side::No, 4_000, 10, 1_000);
    let t = trade("m", 6_000, 4_000, 100, Side::Yes);
    b.update_trade_size("m", t.quantity);
    for f in &b.check_fills(&t, p.cash) {
        p.apply_fill(f);
    }
    p.update_price("m", 5_000);
    // Short 10 at YES-equivalent 0.60; YES fell to 0.50: up a dollar.
    let s = p.compute_snapshot(2_000);
    assert_eq!(s.unrealized_pnl, 10_000);
}

#[test]
fn partial_close_keeps_remaining_entry_cost() {
    let mut b = Broker::new(0, 0, true, 10_000);
    let mut p = Portfolio::new(1_000_000);
    b.place_order("m", OrderAction::Buy, Side::Yes, 5_000, 10, 1_000);
    let t1 = trade("m", 4_000, 6_000, 100, Side::No);
    b.update_trade_size("m", t1.quantity);
    for f in &b.check_fills(&t1, p.cash) {
        p.apply_fill(f);
    }
    b.place_order("m", OrderAction::Sell, Side::Yes, 5_000, 4, 1_001);
    let t2 = trade("m", 6_000, 4_000, 100, Side::Yes);
    b.update_trade_size("m", t2.quantity);
    for f in &b.check_fills(&t2, p.cash) {
        p.apply_fill(f);
    }
    // Sold 4 of 10 bought at 0.40, at 0.60: realized 4 * 0.20.
    assert_eq!(p.positions[0].quantity, 6);
    assert_eq!(p.positions[0].entry_cost, 6 * 4_000);
    assert_eq!(p.positions[0].realized_pnl, 8_000);
}
