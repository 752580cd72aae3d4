use perps_trade::decimal::Dec;
use perps_trade::executor::{Fill, FillIntent};
use perps_trade::flatten::{close_fill, close_order_for, intro_line, new_close_order, summary, FlattenTally};
use perps_trade::pnl::OpenTrade;
use perps_trade::types::{Side, Timestamp, Venue, VenueError};

fn d(m: i128, s: u32) -> Dec {
    Dec::new(m, s)
}

fn open_trade(asset: &str, side: Side, size: Dec) -> OpenTrade {
    OpenTrade {
        asset: asset.into(),
        side,
        open: Fill {
            venue: Venue::Hyperliquid,
            asset: asset.into(),
            side,
            size,
            price: d(100, 0),
            notional_usd: d(100, 0).checked_mul(size).unwrap(),
            fees_usd: Dec::zero(),
            filled_at: Timestamp { secs: 0, nanos: 0 },
            intent: FillIntent::Open,
            order_id: 7,
        },
    }
}

#[test]
fn close_order_reverses_the_side_reduce_only() {
    let t = open_trade("BTC", Side::Short, d(5, 1));
    let o = close_order_for(&t, 42);
    assert_eq!(o.side, Side::Long);
    assert_eq!(o.size, d(5, 1));
    assert!(o.reduce_only);
    assert!(o.limit_price.is_none());
    assert_eq!(o.client_id, 42);
    let o2 = new_close_order(&t);
    assert_eq!(o2.side, Side::Long);
    assert_eq!(o2.asset, "BTC");
}

#[test]
fn close_fill_is_at_the_fresh_mid() {
    let t = open_trade("ETH", Side::Long, d(2, 0));
    let f = close_fill(&t, d(3000, 0), 9, Timestamp { secs: 10, nanos: 0 }).unwrap();
    assert_eq!(f.intent, FillIntent::Close);
    assert_eq!(f.side, Side::Short);
    assert_eq!(f.price, d(3000, 0));
    assert_eq!(f.notional_usd, d(6000, 0));
    assert_eq!(f.order_id, 9);
}

#[test]
fn flatten_intro_and_summary() {
    assert_eq!(intro_line(0, "state", "https://api"), "nothing to flatten \u{2014} no open positions in state");
    assert_eq!(intro_line(2, "state", "https://api"), "flattening 2 open position(s) via https://api");
    let mut tally = FlattenTally::new();
    tally.persisted();
    tally.fetch_failed("ETH", &VenueError::Network("timeout".into()));
    tally.persist_failed("SOL", "disk full");
    let (lines, failure) = summary(&tally, 3);
    assert_eq!(
        lines,
        vec![
            "flatten complete: closed 1 of 3 position(s)".to_string(),
            "errors:".to_string(),
            "  ETH: network error: timeout".to_string(),
            "  SOL: persist: disk full".to_string(),
        ]
    );
    assert_eq!(failure.as_deref(), Some("2 of 3 positions failed to flatten"));
    let mut ok = FlattenTally::new();
    ok.persisted();
    let (lines, failure) = summary(&ok, 1);
    assert_eq!(lines, vec!["flatten complete: closed 1 of 1 position(s)".to_string()]);
    assert!(failure.is_none());
}
