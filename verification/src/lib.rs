//! Delta-neutral funding-rate harvesting: domain types, risk arithmetic,
//! the entry/exit rule, dry-run fills and paper-trade PnL attribution.
pub mod decimal;
pub mod text;
pub mod types;
pub mod prices;
pub mod risk;
pub mod strategy;
pub mod executor;
pub mod pnl;
pub mod venues;
pub mod decisions;
pub mod config;
pub mod report;
pub mod ordered;
pub mod jsonl;
pub mod stats;
pub mod digest;
pub mod flatten;
pub mod bot;
