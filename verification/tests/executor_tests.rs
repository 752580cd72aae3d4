use perps_trade::decimal::Dec;
use perps_trade::executor::{simulate_fill, simulate_fill_at, try_simulate_fill, FillIntent};
use perps_trade::types::{Order, Side, Timestamp, Venue};

fn d(m: i128, s: u32) -> Dec {
    Dec::new(m, s)
}

fn order(asset: &str, side: Side, size: Dec) -> Order {
    Order {
        venue: Venue::Hyperliquid,
        asset: asset.into(),
        side,
        size,
        limit_price: None,
        reduce_only: false,
        client_id: uuid::Uuid::new_v4().as_u128(),
    }
}

#[test]
fn market_order_fills_at_mid() {
    let o = order("BTC", Side::Short, d(1, 2));
    let fill = simulate_fill(&o, d(60000, 0), FillIntent::Open);
    assert_eq!(fill.price, d(60000, 0));
    assert_eq!(fill.size, d(1, 2));
    assert_eq!(fill.notional_usd, d(600, 0));
    assert_eq!(fill.fees_usd, Dec::zero());
    assert_eq!(fill.intent, FillIntent::Open);
    assert_eq!(fill.order_id, o.client_id);
}

#[test]
fn limit_order_fills_at_limit_not_mid() {
    let mut o = order("BTC", Side::Long, d(5, 2));
    o.limit_price = Some(d(59500, 0));
    let fill = simulate_fill(&o, d(60000, 0), FillIntent::Open);
    assert_eq!(fill.price, d(59500, 0));
    assert_eq!(fill.notional_usd, d(5, 2).checked_mul(d(59500, 0)).unwrap());
}

#[test]
fn close_intent_carries_through() {
    let o = order("ETH", Side::Long, d(1, 0));
    let fill = simulate_fill(&o, d(3000, 0), FillIntent::Close);
    assert_eq!(fill.intent, FillIntent::Close);
    assert_eq!(fill.side, Side::Long);
}

#[test]
fn fill_at_given_time_is_stamped_with_it() {
    let o = order("ETH", Side::Short, d(2, 0));
    let t = Timestamp { secs: 1_700_000_000, nanos: 5 };
    let fill = simulate_fill_at(&o, d(3000, 0), FillIntent::Open, t);
    assert_eq!(fill.filled_at, t);
    assert_eq!(fill.asset, "ETH");
    assert_eq!(fill.notional_usd, d(6000, 0));
}

#[test]
fn overflowing_notional_is_refused() {
    let o = order("BTC", Side::Long, Dec::new(79228162514264337593543950335, 0));
    assert!(try_simulate_fill(&o, d(10, 0), FillIntent::Open).is_none());
    assert!(try_simulate_fill(&o, d(1, 0), FillIntent::Open).is_some());
}
