//! Settings of the bot: venue endpoints and signing, risk limits, strategy
//! thresholds and telemetry.
use vstd::prelude::*;
use crate::decimal::Dec;

verus! {

#[derive(Debug, Clone)]
pub struct Settings {
    pub venue: VenueSettings,
    pub risk: RiskSettings,
    pub strategy: StrategySettings,
    pub telemetry: TelemetrySettings,
}

#[derive(Debug, Clone)]
pub struct VenueSettings {
    pub hyperliquid: HyperliquidSettings,
}

#[derive(Debug, Clone)]
pub struct HyperliquidSettings {
    pub api_url: String,
    pub ws_url: String,
    pub testnet: bool,
    /// When `true`, never place real orders: fills are simulated locally.
    /// Taken as `true` when the setting is absent (see `default_dry_run`), so
    /// an upgrade cannot start live trading by accident.
    pub dry_run: bool,
    /// Hex private key (0x-prefixed) used for order signing; needed only when
    /// `dry_run` is off.
    pub secret_key: Option<String>,
    /// 0x address of the trading account.
    pub account_address: Option<String>,
}

/// Value of `dry_run` when the settings do not give one: `true`.
pub fn default_dry_run() -> (r: bool)
    ensures
        r,
{
    true
}

#[derive(Debug, Clone)]
pub struct RiskSettings {
    pub max_position_usd: Dec,
    pub liq_buffer_pct: Dec,
    pub max_leverage: Dec,
}

#[derive(Debug, Clone)]
pub struct StrategySettings {
    pub assets: Vec<String>,
    pub min_funding_apy_to_enter: Dec,
    pub max_funding_apy_to_exit: Dec,
    pub decision_interval_seconds: u64,
}

#[derive(Debug, Clone)]
pub struct TelemetrySettings {
    pub log_level: String,
    pub state_dir: String,
}

} // verus!
