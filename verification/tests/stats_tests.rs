use perps_trade::decimal::Dec;
use perps_trade::decisions::{decision_asset, kind_name, DecisionRecord};
use perps_trade::jsonl::LogLine;
use perps_trade::executor::{Fill, FillIntent};
use perps_trade::stats::{report_decisions, report_fills, report_funding, run, try_run};
use perps_trade::strategy::Decision;
use perps_trade::types::{FundingRate, Side, Timestamp, Venue};

fn d(m: i128, s: u32) -> Dec {
    Dec::new(m, s)
}

fn at(secs: i64) -> Timestamp {
    Timestamp { secs, nanos: 0 }
}

fn rate(asset: &str, r: Dec, secs: i64) -> FundingRate {
    FundingRate { venue: Venue::Hyperliquid, asset: asset.into(), rate: r, interval_hours: 1, observed_at: at(secs) }
}

#[test]
fn funding_report_notes_a_missing_log() {
    let lines = report_funding("state/funding.jsonl", None, at(0)).unwrap();
    assert_eq!(lines, vec!["no observations recorded yet (state/funding.jsonl)".to_string()]);
}

#[test]
fn funding_report_notes_only_malformed_lines() {
    let log: Vec<LogLine<FundingRate>> = vec![LogLine::Malformed, LogLine::Blank, LogLine::Malformed];
    let lines = report_funding("f.jsonl", Some(&log), at(0)).unwrap();
    assert_eq!(lines, vec!["no parseable observations in f.jsonl".to_string(), "(2 malformed lines skipped)".to_string()]);
}

#[test]
fn funding_report_tabulates_per_asset_in_key_order() {
    let log = vec![
        LogLine::Record(rate("ETH", d(1, 4), 0)),
        LogLine::Record(rate("BTC", d(2, 4), 10)),
        LogLine::Malformed,
        LogLine::Record(rate("BTC", d(-1, 4), 3600)),
        LogLine::Record(rate("BTC", d(1, 4), 3700)),
    ];
    let lines = report_funding("f.jsonl", Some(&log), at(3760)).unwrap();
    assert_eq!(lines[0], "funding observations from f.jsonl");
    assert_eq!(lines[1], "total: 4 observations across 2 asset(s) (1 malformed lines skipped)");
    assert_eq!(lines[2], "");
    assert_eq!(
        lines[3],
        format!("{:<6} {:>6} {:>14} {:>14} {:>10} {:>10} {:>10}", "asset", "count", "last_seen", "last_rate", "last_apy", "min_apy", "max_apy")
    );
    assert_eq!(
        lines[4],
        format!("{:<6} {:>6} {:>14} {:>14} {:>10} {:>10} {:>10}", "BTC", 3, "1m ago", "0.0001", "87.6%", "-87.6%", "175.2%")
    );
    assert_eq!(
        lines[5],
        format!("{:<6} {:>6} {:>14} {:>14} {:>10} {:>10} {:>10}", "ETH", 1, "1h2m ago", "0.0001", "87.6%", "87.6%", "87.6%")
    );
    assert_eq!(lines.len(), 6);
}

fn record(secs: i64, decision: Decision) -> DecisionRecord {
    DecisionRecord::new_at(at(secs), d(1, 1), decision)
}

#[test]
fn decisions_report_counts_kinds_and_latest() {
    let log = vec![
        LogLine::Record(record(0, Decision::Open { asset: "BTC".into(), side: Side::Short, notional_usd: d(500, 0) })),
        LogLine::Record(record(100, Decision::Hold { asset: "ETH".into() })),
        LogLine::Record(record(200, Decision::Close { asset: "BTC".into() })),
        LogLine::Record(record(150, Decision::Hold { asset: "BTC".into() })),
    ];
    let lines = report_decisions("dec.jsonl", Some(&log), at(260));
    assert_eq!(lines[0], "");
    assert_eq!(lines[1], "decisions from dec.jsonl");
    assert_eq!(lines[2], "total: 4 decisions across 2 asset(s)");
    assert_eq!(lines[3], "");
    assert_eq!(
        lines[4],
        format!("{:<6} {:>7} {:>6} {:>6} {:>6} {:>14} {:>10}", "asset", "total", "open", "close", "hold", "last_seen", "last_kind")
    );
    // The BTC hold at 150 is older than the close at 200, so close stays latest.
    assert_eq!(lines[5], format!("{:<6} {:>7} {:>6} {:>6} {:>6} {:>14} {:>10}", "BTC", 3, 1, 1, 1, "1m ago", "close"));
    assert_eq!(lines[6], format!("{:<6} {:>7} {:>6} {:>6} {:>6} {:>14} {:>10}", "ETH", 1, 0, 0, 1, "2m ago", "hold"));
    assert_eq!(lines.len(), 7);
}

#[test]
fn decisions_report_is_silent_without_decisions() {
    assert!(report_decisions("dec.jsonl", None, at(0)).is_empty());
    let log: Vec<LogLine<DecisionRecord>> = vec![LogLine::Blank];
    assert!(report_decisions("dec.jsonl", Some(&log), at(0)).is_empty());
}

#[test]
fn stats_run_stops_on_read_errors() {
    let out = run("f", Err("denied".into()), "d", Ok(None), "x", Ok(None), at(0));
    assert!(out.lines.is_empty());
    assert_eq!(out.error.as_deref(), Some("denied"));
    let out = run("f", Ok(None), "d", Err("broken".into()), "x", Ok(None), at(0));
    assert_eq!(out.lines, vec!["no observations recorded yet (f)".to_string()]);
    assert_eq!(out.error.as_deref(), Some("broken"));
}

#[test]
fn stats_run_refuses_overflowing_annualization() {
    let log = vec![LogLine::Record(rate("BTC", Dec::new(79228162514264337593543950335, 0), 0))];
    assert!(try_run("f", Ok(Some(log)), "d", Ok(None), "x", Ok(None), at(0)).is_none());
}

#[test]
fn decision_names() {
    let d1 = Decision::Open { asset: "BTC".into(), side: Side::Long, notional_usd: d(1, 0) };
    let d2 = Decision::Close { asset: "ETH".into() };
    let d3 = Decision::Hold { asset: "SOL".into() };
    assert_eq!(kind_name(&d1), "open");
    assert_eq!(kind_name(&d2), "close");
    assert_eq!(kind_name(&d3), "hold");
    assert_eq!(decision_asset(&d1), "BTC");
    assert_eq!(decision_asset(&d2), "ETH");
    assert_eq!(decision_asset(&d3), "SOL");
}

fn fill_at(asset: &str, intent: FillIntent, secs: i64) -> Fill {
    Fill {
        venue: Venue::Hyperliquid,
        asset: asset.into(),
        side: Side::Short,
        size: d(1, 0),
        price: d(100, 0),
        notional_usd: d(100, 0),
        fees_usd: Dec::zero(),
        filled_at: at(secs),
        intent,
        order_id: 0,
    }
}

#[test]
fn fills_report_counts_opens_and_closes() {
    let log = vec![
        LogLine::Record(fill_at("ETH", FillIntent::Open, 0)),
        LogLine::Record(fill_at("BTC", FillIntent::Open, 10)),
        LogLine::Record(fill_at("BTC", FillIntent::Close, 20)),
        LogLine::Malformed,
    ];
    let lines = report_fills("state/fills.jsonl", Some(&log), at(20));
    let expected = vec![
        String::new(),
        "fills from state/fills.jsonl".to_string(),
        "total: 3 fills across 2 asset(s) (1 malformed lines skipped)".to_string(),
        String::new(),
        "asset    total  opens closes      last_seen  last_intent".to_string(),
        "BTC          2      1      1         0s ago        close".to_string(),
        "ETH          1      1      0        20s ago         open".to_string(),
    ];
    assert_eq!(lines, expected);
}

#[test]
fn stats_run_appends_the_three_sections() {
    let funding = vec![LogLine::Record(rate("BTC", d(1, 4), 0))];
    let decisions = vec![LogLine::Record(record(0, Decision::Hold { asset: "BTC".into() }))];
    let fills = vec![LogLine::Record(fill_at("BTC", FillIntent::Open, 0))];
    let out = run("f", Ok(Some(funding)), "d", Ok(Some(decisions)), "x", Ok(Some(fills)), at(5));
    assert!(out.error.is_none());
    assert_eq!(out.lines.len(), 5 + 6 + 6);
    assert_eq!(out.lines[0], "funding observations from f");
    assert_eq!(out.lines[6], "decisions from d");
    assert_eq!(out.lines[12], "fills from x");
}
