use perps_trade::decimal::Dec;
use perps_trade::types::{FundingRate, Position, Side, Timestamp, Venue, VenueError};

fn d(m: i128, s: u32) -> Dec {
    Dec::new(m, s)
}

#[test]
fn hourly_funding_annualizes() {
    let fr = FundingRate {
        venue: Venue::Hyperliquid,
        asset: "BTC".into(),
        rate: d(1, 4),
        interval_hours: 1,
        observed_at: Timestamp { secs: 1_700_000_000, nanos: 0 },
    };
    // 0.01% * 24 * 365 = 87.6%
    assert_eq!(fr.annualized(), d(8760, 4));
}

#[test]
fn side_flips() {
    assert_eq!(Side::Long.flip(), Side::Short);
    assert_eq!(Side::Short.flip(), Side::Long);
}

#[test]
fn signed_notional_is_positive_for_long_negative_for_short() {
    let long = Position {
        venue: Venue::Hyperliquid,
        asset: "BTC".into(),
        side: Side::Long,
        size: d(5, 1),
        entry_price: d(60000, 0),
        leverage: d(1, 0),
        margin_used: d(30000, 0),
        liquidation_price: None,
    };
    let mut short = long.duplicate();
    short.side = Side::Short;
    assert_eq!(long.signed_notional(d(61000, 0)), d(30500, 0));
    assert_eq!(short.signed_notional(d(61000, 0)), d(-30500, 0));
    // A long-spot / short-perp pair of equal notional nets to zero delta.
    assert_eq!(
        long.signed_notional(d(61000, 0)).checked_add(short.signed_notional(d(61000, 0))).unwrap(),
        Dec::zero()
    );
}

#[test]
fn eight_hour_funding_annualizes_over_1095_periods() {
    let fr = FundingRate {
        venue: Venue::Hyperliquid,
        asset: "ETH".into(),
        rate: d(1, 4),
        interval_hours: 8,
        observed_at: Timestamp { secs: 0, nanos: 0 },
    };
    // 8760 / 8 = 1095 periods; 0.0001 * 1095 = 0.1095.
    assert_eq!(fr.annualized(), d(1095, 4));
}

#[test]
fn zero_interval_cannot_be_annualized() {
    let fr = FundingRate {
        venue: Venue::Hyperliquid,
        asset: "ETH".into(),
        rate: d(1, 4),
        interval_hours: 0,
        observed_at: Timestamp { secs: 0, nanos: 0 },
    };
    assert!(fr.try_annualized().is_none());
}

#[test]
fn flip_twice_is_identity() {
    assert_eq!(Side::Long.flip().flip(), Side::Long);
    assert_eq!(Side::Short.flip().flip(), Side::Short);
}

#[test]
fn venue_error_messages_match_display() {
    assert_eq!(VenueError::Network("timeout".into()).message(), "network error: timeout");
    assert_eq!(VenueError::Auth("bad key".into()).message(), "auth error: bad key");
    assert_eq!(VenueError::Rejected("min size".into()).message(), "rejected by venue: min size");
    assert_eq!(VenueError::UnknownAsset("DOGE".into()).message(), "symbol not found: DOGE");
    assert_eq!(VenueError::Other("x".into()).message(), "other: x");
}

#[test]
fn timestamps_order_and_measure() {
    let a = Timestamp { secs: 10, nanos: 500_000_000 };
    let b = Timestamp { secs: 11, nanos: 0 };
    assert!(a.before(&b));
    assert!(!b.before(&a));
    assert_eq!(Timestamp::millis_between(&a, &b), 500);
    assert_eq!(Timestamp::millis_between(&b, &a), -500);
    assert_eq!(Timestamp::secs_between(&a, &Timestamp { secs: 12, nanos: 400_000_000 }), 1);
    assert_eq!(Timestamp::secs_between(&Timestamp { secs: 12, nanos: 400_000_000 }, &a), -1);
}
