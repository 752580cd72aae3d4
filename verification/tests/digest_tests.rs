use perps_trade::decimal::Dec;
use perps_trade::digest::{run, try_run};
use perps_trade::executor::{Fill, FillIntent};
use perps_trade::pnl::LoggedFunding;
use perps_trade::types::{Side, Timestamp, Venue};

fn d(m: i128, s: u32) -> Dec {
    Dec::new(m, s)
}

fn at(secs: i64) -> Timestamp {
    Timestamp { secs, nanos: 0 }
}

fn fill(asset: &str, intent: FillIntent, side: Side, price: Dec, size: Dec, secs: i64) -> Fill {
    Fill {
        venue: Venue::Hyperliquid,
        asset: asset.into(),
        side,
        size,
        price,
        notional_usd: price.checked_mul(size).unwrap(),
        fees_usd: Dec::zero(),
        filled_at: at(secs),
        intent,
        order_id: 0,
    }
}

fn obs(asset: &str, secs: i64, mid: Dec) -> LoggedFunding {
    LoggedFunding { asset: asset.into(), rate: d(1, 4), interval_hours: 1, observed_at: at(secs), mid_price: Some(mid) }
}

#[test]
fn digest_without_fills_says_so() {
    let lines = run("state", "state/fills.jsonl", &[], &[], at(0));
    assert_eq!(lines, vec!["no fills recorded yet (state/fills.jsonl)".to_string()]);
}

#[test]
fn digest_attributes_pnl_per_asset_and_flags_directional_book() {
    let fills = vec![
        fill("BTC", FillIntent::Open, Side::Short, d(100, 0), d(1, 0), 0),
        fill("ETH", FillIntent::Open, Side::Long, d(50, 0), d(2, 0), 1800),
        fill("BTC", FillIntent::Close, Side::Long, d(98, 0), d(1, 0), 3600),
    ];
    let observations = vec![obs("BTC", 0, d(100, 0)), obs("ETH", 1800, d(55, 0)), obs("ETH", 5400, d(60, 0))];
    let lines = run("state", "state/fills.jsonl", &fills, &observations, at(7200));
    let row = |a: &str, t: usize, o: usize, re: &str, un: &str, fu: &str, to: &str| {
        format!("{:<6} {:>7} {:>5} {:>12} {:>12} {:>12} {:>12}", a, t, o, re, un, fu, to)
    };
    let expected = vec![
        "paper-trade digest from state".to_string(),
        String::new(),
        "period: 1970-01-01T00:00:00Z \u{2192} 1970-01-01T01:30:00Z (1h30m)".to_string(),
        "fills: 3  observations: 3  open positions: 1  closed trades: 1".to_string(),
        String::new(),
        format!("{:<6} {:>7} {:>5} {:>12} {:>12} {:>12} {:>12}", "asset", "trades", "open", "realized", "unrealized", "funding", "total"),
        row("BTC", 1, 0, "$2", "$0", "$0.01", "$2.01"),
        row("ETH", 0, 1, "$0", "$20", "-$0.01", "$19.99"),
        String::new(),
        "totals: realized $2  unrealized $20  funding $0  net $22".to_string(),
        String::new(),
        "open positions:".to_string(),
        format!(
            "{:<6} {:<6} {:>14} {:>12} {:>12} {:>14} {:>10} {:>14}",
            "asset", "side", "size", "entry", "mark", "liq_price", "buffer", "delta_usd"
        ),
        format!("{:<6} {:<6} {:>14} {:>12} {:>12} {:>14} {:>10} {:>14}", "ETH", "long", "2", "50", "60", "0.25", "99.6%", "$120"),
        String::new(),
        "net delta: $120 (gross $120)".to_string(),
        "  \u{26a0} book is directional, not delta-neutral \u{2014} hedge leg not yet wired (single-leg perp)".to_string(),
    ];
    assert_eq!(lines, expected);
}

#[test]
fn digest_of_closed_trades_only_has_no_open_section() {
    let fills = vec![
        fill("BTC", FillIntent::Open, Side::Long, d(100, 0), d(2, 0), 0),
        fill("BTC", FillIntent::Close, Side::Short, d(110, 0), d(2, 0), 60),
    ];
    let lines = try_run("s", "s/fills.jsonl", &fills, &[], at(120)).unwrap();
    assert_eq!(lines[2], "period: 1970-01-01T00:00:00Z \u{2192} 1970-01-01T00:01:00Z (1m0s)");
    assert_eq!(lines.last().unwrap(), "totals: realized $20  unrealized $0  funding $0  net $20");
}
