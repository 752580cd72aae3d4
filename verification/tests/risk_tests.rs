use perps_trade::decimal::Dec;
use perps_trade::prices::PriceMap;
use perps_trade::risk::{
    default_maintenance_margin_ratio, hedge_position_for, liquidation_buffer_pct, liquidation_price, margin_used,
    net_delta_usd, notional_usd, portfolio_margin, portfolio_notional, try_liquidation_price,
};
use perps_trade::types::{Position, Side, Venue};

fn d(m: i128, s: u32) -> Dec {
    Dec::new(m, s)
}

fn position(side: Side, entry: Dec, size: Dec, leverage: Dec) -> Position {
    Position {
        venue: Venue::Hyperliquid,
        asset: "BTC".into(),
        side,
        size,
        entry_price: entry,
        leverage,
        margin_used: Dec::zero(),
        liquidation_price: None,
    }
}

#[test]
fn notional_is_size_times_mark() {
    let p = position(Side::Short, d(60000, 0), d(5, 1), d(1, 0));
    assert_eq!(notional_usd(&p, d(61000, 0)), d(30500, 0)); // 0.5 * 61000
}

#[test]
fn margin_at_1x_equals_notional() {
    let p = position(Side::Short, d(60000, 0), d(5, 1), d(1, 0));
    assert_eq!(margin_used(&p, d(60000, 0)), d(30000, 0));
}

#[test]
fn margin_scales_inversely_with_leverage() {
    let p = position(Side::Short, d(60000, 0), d(5, 1), d(5, 0));
    // notional 30000, leverage 5 -> margin 6000.
    assert_eq!(margin_used(&p, d(60000, 0)), d(6000, 0));
}

#[test]
fn margin_treats_zero_leverage_as_1x() {
    let p = position(Side::Short, d(60000, 0), d(5, 1), d(0, 0));
    assert_eq!(margin_used(&p, d(60000, 0)), d(30000, 0));
}

#[test]
fn liq_price_short_with_1x_is_about_2x_entry() {
    // liq = 60000 * (1 + (1 - 0.005)/1) = 119700.
    let p = position(Side::Short, d(60000, 0), d(5, 1), d(1, 0));
    assert_eq!(liquidation_price(&p, default_maintenance_margin_ratio()), d(119700, 0));
}

#[test]
fn liq_price_long_with_1x_is_near_zero() {
    // liq = 60000 * (1 - (1 - 0.005)/1) = 300.
    let p = position(Side::Long, d(60000, 0), d(5, 1), d(1, 0));
    assert_eq!(liquidation_price(&p, default_maintenance_margin_ratio()), d(300, 0));
}

#[test]
fn liq_price_short_at_5x_is_about_1_2x_entry() {
    // liq = 60000 * (1 + 0.995/5) = 71940.
    let p = position(Side::Short, d(60000, 0), d(5, 1), d(5, 0));
    assert_eq!(liquidation_price(&p, default_maintenance_margin_ratio()), d(71940, 0));
}

#[test]
fn liq_buffer_short_safe_at_lower_mark() {
    let p = position(Side::Short, d(60000, 0), d(5, 1), d(5, 0));
    let liq = liquidation_price(&p, default_maintenance_margin_ratio()); // 71940
    // Mark at entry: buffer = (liq - mark) / mark = 11940 / 60000 = 0.199
    let buf = liquidation_buffer_pct(&p, d(60000, 0), default_maintenance_margin_ratio());
    assert!(buf.gt(&d(19, 2)) && buf.lt(&d(20, 2)), "buffer was {:?}", buf);
    // Mark above liq means already liquidated -> negative.
    let bad = liquidation_buffer_pct(&p, liq.checked_add(d(1000, 0)).unwrap(), default_maintenance_margin_ratio());
    assert!(bad.is_negative());
}

#[test]
fn liq_buffer_long_safe_at_higher_mark() {
    let p = position(Side::Long, d(60000, 0), d(5, 1), d(5, 0));
    let buf = liquidation_buffer_pct(&p, d(60000, 0), default_maintenance_margin_ratio());
    // liq = 48060; buffer = (60000 - 48060)/60000 = 0.199.
    assert!(buf.gt(&d(19, 2)) && buf.lt(&d(20, 2)));
}

#[test]
fn portfolio_notional_sums_across_positions_with_mark_lookup() {
    let mut p_btc = position(Side::Short, d(60000, 0), d(5, 1), d(1, 0));
    p_btc.asset = "BTC".into();
    let mut p_eth = position(Side::Short, d(3000, 0), d(2, 0), d(1, 0));
    p_eth.asset = "ETH".into();

    let mut marks = PriceMap::new();
    marks.insert("BTC".into(), d(61000, 0));
    marks.insert("ETH".into(), d(3100, 0));

    let total = portfolio_notional(&[p_btc, p_eth], &marks);
    // 0.5 * 61000 + 2 * 3100 = 36700
    assert_eq!(total, d(36700, 0));
}

#[test]
fn portfolio_notional_falls_back_to_entry_when_mark_missing() {
    let p = position(Side::Short, d(60000, 0), d(5, 1), d(1, 0));
    let marks = PriceMap::new();
    let total = portfolio_notional(&[p], &marks);
    assert_eq!(total, d(30000, 0)); // 0.5 * 60000 entry
}

#[test]
fn net_delta_of_lone_short_is_full_negative_notional() {
    let p = position(Side::Short, d(60000, 0), d(5, 1), d(1, 0));
    let marks = PriceMap::new(); // falls back to entry
    assert_eq!(net_delta_usd(&[p], &marks), d(-30000, 0));
}

#[test]
fn net_delta_of_hedged_pair_is_zero() {
    let perp = position(Side::Short, d(60000, 0), d(5, 1), d(1, 0));
    let hedge = hedge_position_for(&perp, d(60000, 0));
    assert_eq!(hedge.side, Side::Long);
    assert_eq!(hedge.size, d(5, 1));
    let marks = PriceMap::new();
    assert_eq!(net_delta_usd(&[perp, hedge], &marks), Dec::zero());
}

#[test]
fn net_delta_uses_mark_for_valuation() {
    let perp = position(Side::Short, d(60000, 0), d(5, 1), d(1, 0));
    let hedge = hedge_position_for(&perp, d(60000, 0));
    let mut marks = PriceMap::new();
    marks.insert("BTC".to_string(), d(66000, 0)); // +10%
    assert_eq!(net_delta_usd(&[perp, hedge], &marks), Dec::zero());
}

#[test]
fn mark_lookup_is_by_uppercased_asset() {
    let mut p = position(Side::Long, d(60000, 0), d(1, 0), d(1, 0));
    p.asset = "btc".into();
    let mut marks = PriceMap::new();
    marks.insert("BTC".into(), d(50000, 0));
    assert_eq!(portfolio_notional(&[p], &marks), d(50000, 0));
}

#[test]
fn portfolio_margin_divides_by_leverage() {
    let p1 = position(Side::Short, d(60000, 0), d(5, 1), d(5, 0)); // 30000 / 5 = 6000
    let p2 = position(Side::Long, d(60000, 0), d(5, 1), d(1, 0)); // 30000
    let marks = PriceMap::new();
    assert_eq!(portfolio_margin(&[p1, p2], &marks), d(36000, 0));
}

#[test]
fn liquidation_price_overflow_is_reported() {
    let p = position(Side::Short, Dec::new(79228162514264337593543950335, 0), d(1, 0), d(1, 0));
    assert!(try_liquidation_price(&p, default_maintenance_margin_ratio()).is_none());
}

#[test]
fn default_mmr_is_half_a_percent() {
    assert_eq!(default_maintenance_margin_ratio(), d(5, 3));
}

#[test]
fn liq_price_lies_on_losing_side_of_entry() {
    let mmr = default_maintenance_margin_ratio();
    for lev in [d(5, 1), d(1, 0), d(3, 0), d(25, 0), d(100, 0)] {
        let long = position(Side::Long, d(60000, 0), d(5, 1), lev);
        let short = position(Side::Short, d(60000, 0), d(5, 1), lev);
        assert!(liquidation_price(&long, mmr).le(&d(60000, 0)));
        assert!(liquidation_price(&short, mmr).ge(&d(60000, 0)));
    }
    // Leverage below 1 counts as 1x.
    let half = position(Side::Long, d(60000, 0), d(5, 1), d(5, 1));
    assert_eq!(liquidation_price(&half, mmr), d(300, 0));
}

#[test]
fn liq_buffer_is_zero_at_liquidation_and_signed_by_side() {
    let mmr = default_maintenance_margin_ratio();
    let p = position(Side::Long, d(60000, 0), d(5, 1), d(5, 0));
    let liq = liquidation_price(&p, mmr); // 48060
    assert!(liquidation_buffer_pct(&p, liq, mmr).is_zero());
    assert!(liquidation_buffer_pct(&p, d(47000, 0), mmr).is_negative());
    assert!(liquidation_buffer_pct(&p, d(49000, 0), mmr).gt(&Dec::zero()));
    // Non-positive mark gives zero.
    assert!(liquidation_buffer_pct(&p, d(0, 0), mmr).is_zero());
}
