# perps_trade

A delta-neutral funding-rate harvester for perpetual futures (dry run on
Hyperliquid), written as a Verus library with a thin command-line program
around it.

## Layout

- `src/` — the verified library:
  - `decimal` — fixed-point decimals (`Dec`) carried out by `rust_decimal`,
    with the facts the arithmetic guarantees stated on each operation;
  - `types`, `strategy`, `risk`, `executor` — domain types, the entry/exit
    rule and the portfolio it looks at, margin and liquidation arithmetic,
    dry-run fills;
  - `venues` — reading funding and mid prices out of Hyperliquid's
    `metaAndAssetCtxs` response, and the order/cancel outcomes;
  - `pnl` — pairing fills into trades, latest mids, step-integrated funding;
  - `bot` — one tick of the paper-trading loop, and the portfolio restored
    from the fills;
  - `stats`, `digest`, `flatten` — the reports and the kill switch, as text;
  - `text`, `report`, `ordered`, `jsonl`, `prices` — text, table, keyed-row
    and log helpers.
- `tests/` — tests of the library.
- `app/` — the `perps-bot` program: settings, HTTP, the poll loop, JSONL
  files and printing.
