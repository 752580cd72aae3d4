use perps_trade::decimal::Dec;
use perps_trade::strategy::{decide, try_signal_for, Decision, FundingSignal, PortfolioState, Thresholds};
use perps_trade::types::{FundingRate, Position, Side, Timestamp, Venue};

fn d(m: i128, s: u32) -> Dec {
    Dec::new(m, s)
}

fn position(asset: &str, side: Side) -> Position {
    Position {
        venue: Venue::Hyperliquid,
        asset: asset.into(),
        side,
        size: d(1, 0),
        entry_price: d(100, 0),
        leverage: d(1, 0),
        margin_used: d(100, 0),
        liquidation_price: None,
    }
}

fn signal(asset: &str, apy: Dec) -> FundingSignal {
    FundingSignal { venue: Venue::Hyperliquid, asset: asset.into(), apy }
}

fn thresholds() -> Thresholds {
    Thresholds { min_apy_to_enter: d(10, 2), max_apy_to_exit: d(2, 2) }
}

fn notional() -> Dec {
    d(500, 0)
}

#[test]
fn holds_when_no_position_and_below_entry_threshold() {
    let state = PortfolioState::default();
    assert_eq!(decide(&state, &signal("BTC", d(5, 2)), &thresholds(), notional()), Decision::Hold { asset: "BTC".into() });
    assert_eq!(decide(&state, &signal("BTC", d(-5, 2)), &thresholds(), notional()), Decision::Hold { asset: "BTC".into() });
}

#[test]
fn opens_short_on_high_positive_funding() {
    let state = PortfolioState::default();
    assert_eq!(
        decide(&state, &signal("BTC", d(15, 2)), &thresholds(), notional()),
        Decision::Open { asset: "BTC".into(), side: Side::Short, notional_usd: notional() }
    );
}

#[test]
fn opens_long_on_high_negative_funding() {
    let state = PortfolioState::default();
    assert_eq!(
        decide(&state, &signal("BTC", d(-15, 2)), &thresholds(), notional()),
        Decision::Open { asset: "BTC".into(), side: Side::Long, notional_usd: notional() }
    );
}

#[test]
fn enters_at_threshold_boundary() {
    let state = PortfolioState::default();
    assert!(matches!(
        decide(&state, &signal("BTC", d(10, 2)), &thresholds(), notional()),
        Decision::Open { side: Side::Short, .. }
    ));
    assert!(matches!(
        decide(&state, &signal("BTC", d(-10, 2)), &thresholds(), notional()),
        Decision::Open { side: Side::Long, .. }
    ));
}

#[test]
fn closes_when_funding_decays_below_exit_either_sign() {
    let state = PortfolioState { positions: vec![position("BTC", Side::Short)] };
    assert_eq!(decide(&state, &signal("BTC", d(1, 2)), &thresholds(), notional()), Decision::Close { asset: "BTC".into() });
    assert_eq!(decide(&state, &signal("BTC", d(-1, 2)), &thresholds(), notional()), Decision::Close { asset: "BTC".into() });
}

#[test]
fn holds_when_in_position_and_funding_still_above_exit() {
    let state = PortfolioState { positions: vec![position("BTC", Side::Short)] };
    assert_eq!(decide(&state, &signal("BTC", d(5, 2)), &thresholds(), notional()), Decision::Hold { asset: "BTC".into() });
}

#[test]
fn decision_is_per_asset_case_insensitive() {
    let state = PortfolioState { positions: vec![position("BTC", Side::Short)] };
    assert!(matches!(
        decide(&state, &signal("ETH", d(20, 2)), &thresholds(), notional()),
        Decision::Open { side: Side::Short, .. }
    ));
    assert_eq!(decide(&state, &signal("btc", d(1, 2)), &thresholds(), notional()), Decision::Close { asset: "btc".into() });
}

#[test]
fn portfolio_open_replaces_existing_position() {
    let mut state = PortfolioState::default();
    state.open(position("BTC", Side::Short));
    state.open(position("BTC", Side::Long)); // replace, not add
    assert_eq!(state.positions.len(), 1);
    assert_eq!(state.positions[0].side, Side::Long);
}

#[test]
fn portfolio_open_adds_distinct_assets() {
    let mut state = PortfolioState::default();
    state.open(position("BTC", Side::Short));
    state.open(position("ETH", Side::Long));
    assert_eq!(state.positions.len(), 2);
}

#[test]
fn portfolio_close_removes_and_returns_position() {
    let mut state = PortfolioState::default();
    state.open(position("BTC", Side::Short));
    let closed = state.close("BTC");
    assert!(closed.is_some());
    assert_eq!(closed.unwrap().side, Side::Short);
    assert!(state.positions.is_empty());
    assert!(state.close("BTC").is_none());
}

#[test]
fn portfolio_close_is_case_insensitive() {
    let mut state = PortfolioState::default();
    state.open(position("BTC", Side::Short));
    assert!(state.close("btc").is_some());
}

#[test]
fn open_then_close_restores_portfolio() {
    let mut state = PortfolioState::default();
    state.open(position("ETH", Side::Long));
    state.open(position("BTC", Side::Short));
    let closed = state.close("BTC").unwrap();
    assert_eq!(closed.asset, "BTC");
    assert_eq!(state.positions.len(), 1);
    assert_eq!(state.positions[0].asset, "ETH");
}

#[test]
fn position_for_finds_case_insensitively() {
    let mut state = PortfolioState::default();
    state.open(position("BTC", Side::Short));
    assert!(state.position_for("bTc").is_some());
    assert!(state.position_for("ETH").is_none());
}

#[test]
fn decisions_mirror_under_sign_flip() {
    let state = PortfolioState::default();
    let up = decide(&state, &signal("BTC", d(12, 2)), &thresholds(), notional());
    let down = decide(&state, &signal("BTC", d(-12, 2)), &thresholds(), notional());
    assert!(matches!(up, Decision::Open { side: Side::Short, .. }));
    assert!(matches!(down, Decision::Open { side: Side::Long, .. }));
}

#[test]
fn signal_annualizes_the_observed_rate() {
    let fr = FundingRate {
        venue: Venue::Hyperliquid,
        asset: "BTC".into(),
        rate: d(1, 4),
        interval_hours: 1,
        observed_at: Timestamp { secs: 0, nanos: 0 },
    };
    let s = try_signal_for(&fr).unwrap();
    assert_eq!(s.asset, "BTC");
    assert_eq!(s.apy, d(8760, 4));
}
