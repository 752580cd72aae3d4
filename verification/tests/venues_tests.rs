use perps_trade::decimal::Dec;
use perps_trade::types::{Order, Side, Timestamp, Venue, VenueError};
use perps_trade::venues::{
    cancel_order_error, extract_funding, extract_mid_price, order_route, placed_order, snapshot_from, AssetCtx,
    ExchangeOutcome, Meta, OrderRoute, UniverseEntry,
};

fn d(m: i128, s: u32) -> Dec {
    Dec::new(m, s)
}

fn fixture() -> (Meta, Vec<AssetCtx>) {
    let meta = Meta {
        universe: vec![
            UniverseEntry { name: "BTC".into() },
            UniverseEntry { name: "ETH".into() },
            UniverseEntry { name: "SOL".into() },
        ],
    };
    let ctxs = vec![
        AssetCtx { funding: "0.0000125".into(), mid_px: Some("59999.5".into()) },
        AssetCtx { funding: "-0.0000050".into(), mid_px: Some("3000.1".into()) },
        AssetCtx { funding: "0.0001000".into(), mid_px: None },
    ];
    (meta, ctxs)
}

#[test]
fn parses_funding_from_meta_and_ctxs() {
    let (meta, ctxs) = fixture();
    assert_eq!(extract_funding(&meta, &ctxs, "BTC").unwrap(), d(125, 7));
    assert_eq!(extract_funding(&meta, &ctxs, "eth").unwrap(), d(-50, 7));
    assert_eq!(extract_funding(&meta, &ctxs, "SOL").unwrap(), d(1, 4));
}

#[test]
fn unknown_asset_errors() {
    let (meta, ctxs) = fixture();
    assert!(matches!(extract_funding(&meta, &ctxs, "DOGE"), Err(VenueError::UnknownAsset(_))));
}

#[test]
fn parses_mid_price_when_present() {
    let (meta, ctxs) = fixture();
    assert_eq!(extract_mid_price(&meta, &ctxs, "BTC").unwrap(), d(599995, 1));
    assert_eq!(extract_mid_price(&meta, &ctxs, "ETH").unwrap(), d(30001, 1));
}

#[test]
fn missing_mid_px_errors_clearly() {
    let (meta, ctxs) = fixture();
    match extract_mid_price(&meta, &ctxs, "SOL") {
        Err(VenueError::Other(msg)) => assert!(msg.contains("midPx missing")),
        other => panic!("expected Other(midPx missing), got {other:?}"),
    }
}

#[test]
fn short_ctx_list_reports_missing_index() {
    let (meta, mut ctxs) = fixture();
    ctxs.truncate(1);
    match extract_funding(&meta, &ctxs, "SOL") {
        Err(VenueError::Other(msg)) => assert_eq!(msg, "asset ctxs missing index 2 for SOL"),
        other => panic!("unexpected {other:?}"),
    }
}

#[test]
fn bad_decimal_is_reported_with_quoted_text() {
    let (meta, mut ctxs) = fixture();
    ctxs[0].funding = "abc".into();
    match extract_funding(&meta, &ctxs, "BTC") {
        Err(VenueError::Other(msg)) => assert!(msg.starts_with("bad funding decimal \"abc\": "), "{msg}"),
        other => panic!("unexpected {other:?}"),
    }
}

#[test]
fn snapshot_combines_funding_and_mid() {
    let (meta, ctxs) = fixture();
    let t = Timestamp { secs: 1_700_000_000, nanos: 0 };
    let snap = snapshot_from(&meta, &ctxs, "eth", t).unwrap();
    assert_eq!(snap.funding.venue, Venue::Hyperliquid);
    assert_eq!(snap.funding.asset, "eth");
    assert_eq!(snap.funding.interval_hours, 1);
    assert_eq!(snap.funding.observed_at, t);
    assert_eq!(snap.funding.rate, d(-5, 6));
    assert_eq!(snap.mid_price, d(30001, 1));
    assert!(matches!(snapshot_from(&meta, &ctxs, "SOL", t), Err(VenueError::Other(_))));
    assert!(matches!(snapshot_from(&meta, &ctxs, "DOGE", t), Err(VenueError::UnknownAsset(_))));
}

#[test]
fn cancel_needs_signer_and_a_uuid() {
    assert!(matches!(cancel_order_error(false, "x"), VenueError::Auth(_)));
    match cancel_order_error(true, "not-a-uuid") {
        VenueError::Other(msg) => assert!(msg.starts_with("bad cloid \"not-a-uuid\": "), "{msg}"),
        other => panic!("unexpected {other:?}"),
    }
    match cancel_order_error(true, "67e55044-10b1-426f-9247-bb680e5fe0c8") {
        VenueError::Other(msg) => assert_eq!(msg, "cancel_order: resting-order tracking not wired yet (Phase 3+)"),
        other => panic!("unexpected {other:?}"),
    }
}

#[test]
fn orders_route_and_report_their_client_id() {
    let mut o = Order {
        venue: Venue::Hyperliquid,
        asset: "BTC".into(),
        side: Side::Long,
        size: d(1, 2),
        limit_price: None,
        reduce_only: false,
        client_id: 0x67e5504410b1426f9247bb680e5fe0c8,
    };
    assert_eq!(order_route(&o), OrderRoute::MarketOpen { is_buy: true });
    o.side = Side::Short;
    assert_eq!(order_route(&o), OrderRoute::MarketOpen { is_buy: false });
    o.reduce_only = true;
    assert_eq!(order_route(&o), OrderRoute::MarketClose);
    assert_eq!(placed_order(&o, ExchangeOutcome::Accepted).unwrap(), "67e55044-10b1-426f-9247-bb680e5fe0c8");
    assert!(matches!(placed_order(&o, ExchangeOutcome::Refused("min size".into())), Err(VenueError::Rejected(m)) if m == "min size"));
    assert!(matches!(placed_order(&o, ExchangeOutcome::Failed("boom".into())), Err(VenueError::Other(m)) if m == "sdk order: boom"));
}
