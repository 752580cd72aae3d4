use perps_trade::bot::{restore_portfolio, tick, tick_at};
use perps_trade::decimal::Dec;
use perps_trade::executor::{Fill, FillIntent};
use perps_trade::strategy::{Decision, PortfolioState, Thresholds};
use perps_trade::types::{FundingRate, MarketSnapshot, Side, Timestamp, Venue};

fn d(m: i128, s: u32) -> Dec {
    Dec::new(m, s)
}

fn at(secs: i64) -> Timestamp {
    Timestamp { secs, nanos: 0 }
}

fn snapshot(asset: &str, rate: Dec, mid: Dec) -> MarketSnapshot {
    MarketSnapshot {
        funding: FundingRate { venue: Venue::Hyperliquid, asset: asset.into(), rate, interval_hours: 1, observed_at: at(0) },
        mid_price: mid,
    }
}

fn thresholds() -> Thresholds {
    Thresholds { min_apy_to_enter: d(10, 2), max_apy_to_exit: d(2, 2) }
}

#[test]
fn tick_opens_then_holds_then_closes() {
    let mut book = PortfolioState::default();
    let t = tick_at(&mut book, &snapshot("BTC", d(1, 4), d(50000, 0)), &thresholds(), d(1000, 0), d(30, 2), 7, at(100)).unwrap();
    assert_eq!(t.decision, Decision::Open { asset: "BTC".into(), side: Side::Short, notional_usd: d(1000, 0) });
    assert_eq!(t.signal.apy, d(8760, 4));
    let f = t.fill.unwrap();
    assert_eq!(f.intent, FillIntent::Open);
    assert_eq!(f.side, Side::Short);
    assert_eq!(f.size, d(2, 2));
    assert_eq!(f.price, d(50000, 0));
    assert_eq!(f.notional_usd, d(1000, 0));
    assert_eq!(f.order_id, 7);
    assert_eq!(f.filled_at, at(100));
    assert!(t.refused_buffer.is_none());
    assert_eq!(book.positions.len(), 1);
    assert_eq!(book.positions[0].entry_price, d(50000, 0));
    assert_eq!(book.positions[0].leverage, d(1, 0));

    let t = tick_at(&mut book, &snapshot("BTC", d(1, 4), d(51000, 0)), &thresholds(), d(1000, 0), d(30, 2), 8, at(200)).unwrap();
    assert_eq!(t.decision, Decision::Hold { asset: "BTC".into() });
    assert!(t.fill.is_none());
    assert_eq!(book.positions.len(), 1);

    let t = tick_at(&mut book, &snapshot("btc", d(1, 6), d(49000, 0)), &thresholds(), d(1000, 0), d(30, 2), 9, at(300)).unwrap();
    assert_eq!(t.decision, Decision::Close { asset: "btc".into() });
    let f = t.fill.unwrap();
    assert_eq!(f.intent, FillIntent::Close);
    assert_eq!(f.side, Side::Long);
    assert_eq!(f.asset, "BTC");
    assert_eq!(f.size, d(2, 2));
    assert_eq!(f.price, d(49000, 0));
    assert!(book.positions.is_empty());
}

#[test]
fn tick_refuses_open_below_liquidation_buffer() {
    let mut book = PortfolioState::default();
    let t = tick_at(&mut book, &snapshot("ETH", d(-1, 4), d(3000, 0)), &thresholds(), d(600, 0), d(999, 3), 1, at(0)).unwrap();
    assert!(matches!(t.decision, Decision::Open { side: Side::Long, .. }));
    assert!(t.fill.is_none());
    // At 1x the buffer is (1 - 0.005) = 0.995, below the 0.999 minimum.
    assert_eq!(t.refused_buffer, Some(d(995, 3)));
    assert!(book.positions.is_empty());
}

#[test]
fn tick_with_clock_and_random_id_fills_too() {
    let mut book = PortfolioState::default();
    let t = tick(&mut book, &snapshot("SOL", d(1, 4), d(100, 0)), &thresholds(), d(100, 0), d(30, 2)).unwrap();
    assert_eq!(t.fill.unwrap().size, d(1, 0));
    assert_eq!(book.positions.len(), 1);
}

#[test]
fn restart_restores_open_positions() {
    let fill = |asset: &str, intent: FillIntent, secs: i64| Fill {
        venue: Venue::Hyperliquid,
        asset: asset.into(),
        side: Side::Short,
        size: d(1, 1),
        price: d(100, 0),
        notional_usd: d(10, 0),
        fees_usd: Dec::zero(),
        filled_at: at(secs),
        intent,
        order_id: 0,
    };
    let fills = vec![fill("BTC", FillIntent::Open, 0), fill("ETH", FillIntent::Open, 1), fill("ETH", FillIntent::Close, 2)];
    let book = restore_portfolio(&fills);
    assert_eq!(book.positions.len(), 1);
    assert_eq!(book.positions[0].asset, "BTC");
    assert_eq!(book.positions[0].side, Side::Short);
    assert_eq!(book.positions[0].size, d(1, 1));
    assert_eq!(book.positions[0].margin_used, d(10, 0));
}
