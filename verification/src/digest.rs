//! `digest`: per-asset PnL of a paper-trade run (realized, unrealized and
//! funding), its totals, and the still-open positions with their liquidation
//! distance and directional exposure.
use vstd::prelude::*;
use crate::decimal::Dec;
use crate::executor::Fill;
use crate::ordered::{get_or, keyed, lemma_put_key, lemma_value_or_put, put, put_key, sorted_keys, value_or};
use crate::pnl::{
    latest_mids, latest_state, pair_fills, pair_state, spec_accrued_funding, spec_open_trade, try_accrued_funding,
    ClosedTrade, LoggedFunding, OpenTrade,
};
use crate::prices::PriceMap;
use crate::report::{
    duration_text, format_decimal, format_duration, format_pct, format_usd, pad_left, pad_right, pct_text, push_count,
    push_left_aligned, push_line, push_line_str, push_right_aligned, push_text, rounded_text, texts, usd_text,
};
use crate::risk::{
    default_maintenance_margin_ratio, spec_liquidation_buffer_pct, spec_liquidation_price, try_liquidation_buffer_pct,
    try_liquidation_price,
};
use crate::text::{decimal_digits, push_str, push_u64, string_from_chars, to_ascii_uppercase, upper_seq};
use crate::types::{format_utc, utc_iso_text, Position, Side, Timestamp};

verus! {

broadcast use crate::decimal::group_dec_parts;

/// PnL of one asset.
#[derive(Clone, Copy, Debug)]
pub struct AssetPnl {
    pub closed_count: usize,
    pub open_count: usize,
    pub realized: Dec,
    pub unrealized: Dec,
    pub funding: Dec,
}

/// An asset with nothing booked yet.
pub open spec fn empty_pnl() -> AssetPnl {
    AssetPnl {
        closed_count: 0,
        open_count: 0,
        realized: Dec::spec_zero(),
        unrealized: Dec::spec_zero(),
        funding: Dec::spec_zero(),
    }
}

fn new_pnl() -> (r: AssetPnl)
    ensures
        r == empty_pnl(),
{
    AssetPnl { closed_count: 0, open_count: 0, realized: Dec::zero(), unrealized: Dec::zero(), funding: Dec::zero() }
}

/// Rows after booking the closed trade `t`: its realized PnL and the funding
/// accrued from its open to its close, under its uppercased asset.
pub open spec fn with_closed(rows: Seq<(Seq<char>, AssetPnl)>, t: ClosedTrade, obs: Seq<LoggedFunding>) -> Option<Seq<(Seq<char>, AssetPnl)>> {
    let k = upper_seq(t.asset@);
    let row = value_or(rows, k, empty_pnl());
    match (spec_accrued_funding(t.asset@, t.side, t.open.notional_usd, t.open.filled_at, t.close.filled_at, obs), t.spec_realized_pnl()) {
        (Some(f), Some(p)) => match (row.realized.spec_add(p), row.funding.spec_add(f)) {
            (Some(re), Some(fu)) => Some(put_key(rows, k, AssetPnl {
                closed_count: (row.closed_count + 1) as usize,
                open_count: row.open_count,
                realized: re,
                unrealized: row.unrealized,
                funding: fu,
            })),
            _ => None,
        },
        _ => None,
    }
}

/// Rows after booking the closed trades in order.
pub open spec fn closed_rows(closed: Seq<ClosedTrade>, obs: Seq<LoggedFunding>) -> Option<Seq<(Seq<char>, AssetPnl)>>
    decreases closed.len(),
{
    if closed.len() == 0 {
        Some(Seq::empty())
    } else {
        match closed_rows(closed.drop_last(), obs) {
            Some(rows) => with_closed(rows, closed.last(), obs),
            None => None,
        }
    }
}

/// Realized PnL of each closed trade booked under key `k` (its uppercased
/// asset), in order.
pub open spec fn realized_terms(closed: Seq<ClosedTrade>, k: Seq<char>) -> Seq<Option<Dec>>
    decreases closed.len(),
{
    if closed.len() == 0 {
        Seq::empty()
    } else {
        let prev = realized_terms(closed.drop_last(), k);
        let t = closed.last();
        if upper_seq(t.asset@) == k {
            prev.push(t.spec_realized_pnl())
        } else {
            prev
        }
    }
}

/// Funding accrued by each closed trade booked under key `k`, from its open
/// to its close, in order.
pub open spec fn closed_funding_terms(closed: Seq<ClosedTrade>, obs: Seq<LoggedFunding>, k: Seq<char>) -> Seq<Option<Dec>>
    decreases closed.len(),
{
    if closed.len() == 0 {
        Seq::empty()
    } else {
        let prev = closed_funding_terms(closed.drop_last(), obs, k);
        let t = closed.last();
        if upper_seq(t.asset@) == k {
            prev.push(spec_accrued_funding(t.asset@, t.side, t.open.notional_usd, t.open.filled_at, t.close.filled_at, obs))
        } else {
            prev
        }
    }
}

/// What the closed trades of key `k` sum to in a row.
pub open spec fn sums_closed(row: AssetPnl, closed: Seq<ClosedTrade>, obs: Seq<LoggedFunding>, k: Seq<char>) -> bool {
    &&& Some(row.realized) == crate::risk::spec_sum(realized_terms(closed, k))
    &&& Some(row.funding) == crate::risk::spec_sum(closed_funding_terms(closed, obs, k))
    &&& row.closed_count == realized_terms(closed, k).len()
}

proof fn lemma_realized_terms_len(closed: Seq<ClosedTrade>, k: Seq<char>)
    ensures
        realized_terms(closed, k).len() <= closed.len(),
    decreases closed.len(),
{
    if closed.len() > 0 {
        lemma_realized_terms_len(closed.drop_last(), k);
    }
}

proof fn lemma_closed_rows_sum_aux(closed: Seq<ClosedTrade>, obs: Seq<LoggedFunding>)
    requires
        closed.len() <= usize::MAX,
    ensures
        closed_rows(closed, obs) matches Some(rows) ==> {
            &&& sorted_keys(rows)
            &&& forall|k: Seq<char>| #[trigger] sums_closed(value_or(rows, k, empty_pnl()), closed, obs, k)
            &&& forall|k: Seq<char>| (#[trigger] value_or(rows, k, empty_pnl())).open_count == 0
            &&& forall|k: Seq<char>| (#[trigger] value_or(rows, k, empty_pnl())).unrealized == Dec::spec_zero()
        },
    decreases closed.len(),
{
    if closed.len() > 0 {
        let d = closed.drop_last();
        let t = closed.last();
        lemma_closed_rows_sum_aux(d, obs);
        if let Some(rows) = closed_rows(d, obs) {
            let k0 = upper_seq(t.asset@);
            let row = value_or(rows, k0, empty_pnl());
            if let Some(now) = with_closed(rows, t, obs) {
                let f = spec_accrued_funding(t.asset@, t.side, t.open.notional_usd, t.open.filled_at, t.close.filled_at, obs)->0;
                let p = t.spec_realized_pnl()->0;
                let v = AssetPnl {
                    closed_count: (row.closed_count + 1) as usize,
                    open_count: row.open_count,
                    realized: row.realized.spec_add(p)->0,
                    unrealized: row.unrealized,
                    funding: row.funding.spec_add(f)->0,
                };
                assert(now == put_key(rows, k0, v));
                lemma_put_key(rows, k0, v);
                lemma_realized_terms_len(d, k0);
                assert(sums_closed(value_or(rows, k0, empty_pnl()), d, obs, k0));
                assert(v.closed_count == row.closed_count + 1);
                assert forall|k: Seq<char>| #[trigger] sums_closed(value_or(now, k, empty_pnl()), closed, obs, k) by {
                    lemma_value_or_put(rows, k0, v, k, empty_pnl());
                    assert(sums_closed(value_or(rows, k, empty_pnl()), d, obs, k));
                    let rt = realized_terms(closed, k);
                    let ft = closed_funding_terms(closed, obs, k);
                    if k == k0 {
                        assert(rt == realized_terms(d, k).push(Some(p)));
                        assert(ft == closed_funding_terms(d, obs, k).push(Some(f)));
                        assert(rt.drop_last() =~= realized_terms(d, k));
                        assert(ft.drop_last() =~= closed_funding_terms(d, obs, k));
                        assert(crate::risk::spec_sum(rt) == row.realized.spec_add(p));
                        assert(crate::risk::spec_sum(ft) == row.funding.spec_add(f));
                        assert(value_or(now, k, empty_pnl()) == v);
                    } else {
                        assert(rt == realized_terms(d, k));
                        assert(ft == closed_funding_terms(d, obs, k));
                        assert(value_or(now, k, empty_pnl()) == value_or(rows, k, empty_pnl()));
                    }
                }
                assert forall|k: Seq<char>| (#[trigger] value_or(now, k, empty_pnl())).open_count == 0 by {
                    lemma_value_or_put(rows, k0, v, k, empty_pnl());
                    assert(value_or(rows, k0, empty_pnl()).open_count == 0);
                }
                assert forall|k: Seq<char>| (#[trigger] value_or(now, k, empty_pnl())).unrealized == Dec::spec_zero() by {
                    lemma_value_or_put(rows, k0, v, k, empty_pnl());
                    assert(value_or(rows, k0, empty_pnl()).unrealized == Dec::spec_zero());
                }
            }
        }
    }
}

/// Each row of the closed trades sums every closed trade of its asset: its
/// realized PnL is the sum, in order, of the realized PnL of all the closed
/// trades whose uppercased asset is the row's key (not only of the latest),
/// its funding likewise the sum of their accrued funding, and its trade count
/// their number; an asset without closed trades reads as zero.
pub proof fn lemma_closed_rows_sum(closed: Seq<ClosedTrade>, obs: Seq<LoggedFunding>)
    requires
        closed.len() <= usize::MAX,
    ensures
        closed_rows(closed, obs) matches Some(rows) ==> forall|k: Seq<char>|
            #[trigger] sums_closed(value_or(rows, k, empty_pnl()), closed, obs, k),
{
    lemma_closed_rows_sum_aux(closed, obs);
}

proof fn lemma_open_rows_keep_closed(
    rows: Seq<(Seq<char>, AssetPnl)>,
    open: Seq<OpenTrade>,
    mids: Map<Seq<char>, Dec>,
    until: Timestamp,
    obs: Seq<LoggedFunding>,
)
    requires
        sorted_keys(rows),
    ensures
        open_rows(rows, open, mids, until, obs) matches Some(r) ==> {
            &&& sorted_keys(r)
            &&& forall|k: Seq<char>| #[trigger] value_or(r, k, empty_pnl()).realized == value_or(rows, k, empty_pnl()).realized
            &&& forall|k: Seq<char>| #[trigger] value_or(r, k, empty_pnl()).closed_count == value_or(rows, k, empty_pnl()).closed_count
        },
    decreases open.len(),
{
    if open.len() > 0 {
        lemma_open_rows_keep_closed(rows, open.drop_last(), mids, until, obs);
        if let Some(r0) = open_rows(rows, open.drop_last(), mids, until, obs) {
            let t = open.last();
            let k0 = upper_seq(t.asset@);
            let row = value_or(r0, k0, empty_pnl());
            if let Some(now) = with_open(r0, t, mids, until, obs) {
                let u = t.spec_unrealized_pnl(open_mark(t, mids))->0;
                let f = spec_accrued_funding(t.asset@, t.side, t.open.notional_usd, t.open.filled_at, until, obs)->0;
                let v = AssetPnl {
                    closed_count: row.closed_count,
                    open_count: (row.open_count + 1) as usize,
                    realized: row.realized,
                    unrealized: row.unrealized.spec_add(u)->0,
                    funding: row.funding.spec_add(f)->0,
                };
                assert(now == put_key(r0, k0, v));
                lemma_put_key(r0, k0, v);
                assert forall|k: Seq<char>| #[trigger] value_or(now, k, empty_pnl()).realized == value_or(rows, k, empty_pnl()).realized by {
                    lemma_value_or_put(r0, k0, v, k, empty_pnl());
                }
                assert forall|k: Seq<char>| #[trigger] value_or(now, k, empty_pnl()).closed_count == value_or(rows, k, empty_pnl()).closed_count by {
                    lemma_value_or_put(r0, k0, v, k, empty_pnl());
                }
            }
        }
    }
}

/// In the digest's per-asset rows, each row's realized PnL is the sum, in
/// order, of the realized PnL of all the run's closed trades of that asset,
/// and its trade count is their number: booking the open trades afterwards
/// changes neither.
pub proof fn lemma_digest_realized_sum(fills: Seq<Fill>, obs: Seq<LoggedFunding>, now: Timestamp)
    requires
        fills.len() <= usize::MAX,
    ensures
        digest_rows(fills, obs, now) matches Some(rows) ==> forall|k: Seq<char>|
            Some(#[trigger] value_or(rows, k, empty_pnl()).realized) == crate::risk::spec_sum(
                realized_terms(pair_state(fills).0, k),
            ) && value_or(rows, k, empty_pnl()).closed_count == realized_terms(pair_state(fills).0, k).len(),
{
    reveal(digest_rows);
    crate::pnl::lemma_pairing_shape(fills);
    let closed = pair_state(fills).0;
    lemma_closed_rows_sum_aux(closed, obs);
    if let Some(r1) = closed_rows(closed, obs) {
        lemma_open_rows_keep_closed(r1, open_trades(fills), mids_of(obs), accrual_end(obs, now), obs);
        if let Some(rows) = digest_rows(fills, obs, now) {
            assert forall|k: Seq<char>| Some(#[trigger] value_or(rows, k, empty_pnl()).realized) == crate::risk::spec_sum(
                realized_terms(closed, k),
            ) && value_or(rows, k, empty_pnl()).closed_count == realized_terms(closed, k).len() by {
                assert(sums_closed(value_or(r1, k, empty_pnl()), closed, obs, k));
            }
        }
    }
}

/// Mark of an open trade: the latest mid of its uppercased asset, or its entry
/// price when none was observed.
pub open spec fn open_mark(t: OpenTrade, mids: Map<Seq<char>, Dec>) -> Dec {
    let k = upper_seq(t.asset@);
    if mids.contains_key(k) {
        mids[k]
    } else {
        t.open.price
    }
}

/// Rows after booking the open trade `t`: its PnL at the mark and the funding
/// accrued from its open to `until`.
pub open spec fn with_open(
    rows: Seq<(Seq<char>, AssetPnl)>,
    t: OpenTrade,
    mids: Map<Seq<char>, Dec>,
    until: Timestamp,
    obs: Seq<LoggedFunding>,
) -> Option<Seq<(Seq<char>, AssetPnl)>> {
    let k = upper_seq(t.asset@);
    let row = value_or(rows, k, empty_pnl());
    match (t.spec_unrealized_pnl(open_mark(t, mids)), spec_accrued_funding(t.asset@, t.side, t.open.notional_usd, t.open.filled_at, until, obs)) {
        (Some(u), Some(f)) => match (row.unrealized.spec_add(u), row.funding.spec_add(f)) {
            (Some(un), Some(fu)) => Some(put_key(rows, k, AssetPnl {
                closed_count: row.closed_count,
                open_count: (row.open_count + 1) as usize,
                realized: row.realized,
                unrealized: un,
                funding: fu,
            })),
            _ => None,
        },
        _ => None,
    }
}

/// `rows` after booking the open trades in order.
pub open spec fn open_rows(
    rows: Seq<(Seq<char>, AssetPnl)>,
    open: Seq<OpenTrade>,
    mids: Map<Seq<char>, Dec>,
    until: Timestamp,
    obs: Seq<LoggedFunding>,
) -> Option<Seq<(Seq<char>, AssetPnl)>>
    decreases open.len(),
{
    if open.len() == 0 {
        Some(rows)
    } else {
        match open_rows(rows, open.drop_last(), mids, until, obs) {
            Some(r) => with_open(r, open.last(), mids, until, obs),
            None => None,
        }
    }
}

/// Rows keep their keys ascending, and their counts within `closed` and `open`.
pub open spec fn pnl_rows_ok(rows: Seq<(Seq<char>, AssetPnl)>, closed: nat, open: nat) -> bool {
    &&& sorted_keys(rows)
    &&& forall|j: int| 0 <= j < rows.len() ==> #[trigger] rows[j].1.closed_count <= closed && rows[j].1.open_count <= open
}

proof fn lemma_put_counts(rows: Seq<(Seq<char>, AssetPnl)>, k: Seq<char>, v: AssetPnl, closed: nat, open: nat)
    requires
        pnl_rows_ok(rows, closed, open),
        v.closed_count <= closed,
        v.open_count <= open,
    ensures
        pnl_rows_ok(put_key(rows, k, v), closed, open),
{
    lemma_put_key(rows, k, v);
    let r = put_key(rows, k, v);
    assert forall|j: int| 0 <= j < r.len() implies #[trigger] r[j].1.closed_count <= closed && r[j].1.open_count <= open by {
        if r[j] != (k, v) {
            let i = choose|i: int| 0 <= i < rows.len() && rows[i] == r[j];
            assert(rows[i].1.closed_count <= closed);
        }
    }
}

proof fn lemma_value_or_counts(rows: Seq<(Seq<char>, AssetPnl)>, k: Seq<char>, closed: nat, open: nat)
    requires
        pnl_rows_ok(rows, closed, open),
    ensures
        value_or(rows, k, empty_pnl()).closed_count <= closed,
        value_or(rows, k, empty_pnl()).open_count <= open,
{
    crate::ordered::lemma_key_position(rows, k);
}

fn add_closed(rows: &mut Vec<(String, AssetPnl)>, t: &ClosedTrade, obs: &[LoggedFunding], n: Ghost<nat>) -> (ok: bool)
    requires
        pnl_rows_ok(keyed(old(rows)@), n@, 0),
        n@ < usize::MAX,
    ensures
        match with_closed(keyed(old(rows)@), *t, obs@) {
            Some(r) => ok && keyed(final(rows)@) == r && pnl_rows_ok(r, n@ + 1, 0),
            None => !ok,
        },
{
    let key = to_ascii_uppercase(t.asset.as_str());
    let row = get_or(rows, key.as_str(), new_pnl());
    proof {
        lemma_value_or_counts(keyed(rows@), key@, n@, 0);
    }
    let f = match try_accrued_funding(t.asset.as_str(), t.side, t.open.notional_usd, t.open.filled_at, t.close.filled_at, obs) {
        Some(f) => f,
        None => return false,
    };
    let p = match t.try_realized_pnl() {
        Some(p) => p,
        None => return false,
    };
    let realized = match row.realized.checked_add(p) {
        Some(x) => x,
        None => return false,
    };
    let funding = match row.funding.checked_add(f) {
        Some(x) => x,
        None => return false,
    };
    let v = AssetPnl { closed_count: row.closed_count + 1, open_count: row.open_count, realized, unrealized: row.unrealized, funding };
    proof {
        lemma_put_counts(keyed(rows@), key@, v, n@ + 1, 0);
    }
    put(rows, key, v);
    true
}

fn add_open(
    rows: &mut Vec<(String, AssetPnl)>,
    t: &OpenTrade,
    mids: &PriceMap,
    until: Timestamp,
    obs: &[LoggedFunding],
    c: Ghost<nat>,
    n: Ghost<nat>,
) -> (ok: bool)
    requires
        pnl_rows_ok(keyed(old(rows)@), c@, n@),
        n@ < usize::MAX,
    ensures
        match with_open(keyed(old(rows)@), *t, mids.view(), until, obs@) {
            Some(r) => ok && keyed(final(rows)@) == r && pnl_rows_ok(r, c@, n@ + 1),
            None => !ok,
        },
{
    let key = to_ascii_uppercase(t.asset.as_str());
    let row = get_or(rows, key.as_str(), new_pnl());
    proof {
        lemma_value_or_counts(keyed(rows@), key@, c@, n@);
    }
    let mark = match mids.get(key.as_str()) {
        Some(m) => m,
        None => t.open.price,
    };
    let u = match t.try_unrealized_pnl(mark) {
        Some(u) => u,
        None => return false,
    };
    let f = match try_accrued_funding(t.asset.as_str(), t.side, t.open.notional_usd, t.open.filled_at, until, obs) {
        Some(f) => f,
        None => return false,
    };
    let unrealized = match row.unrealized.checked_add(u) {
        Some(x) => x,
        None => return false,
    };
    let funding = match row.funding.checked_add(f) {
        Some(x) => x,
        None => return false,
    };
    let v = AssetPnl { closed_count: row.closed_count, open_count: row.open_count + 1, realized: row.realized, unrealized, funding };
    proof {
        lemma_put_counts(keyed(rows@), key@, v, c@, n@ + 1);
    }
    put(rows, key, v);
    true
}

/// The per-asset rows of the run: closed trades first, then open ones with
/// funding accrued to `until`; `None` where an amount overflows.
fn book_trades(
    closed: &Vec<ClosedTrade>,
    open: &Vec<OpenTrade>,
    mids: &PriceMap,
    until: Timestamp,
    obs: &[LoggedFunding],
) -> (r: Option<Vec<(String, AssetPnl)>>)
    ensures
        match closed_rows(closed@, obs@) {
            Some(r1) => match (r, open_rows(r1, open@, mids.view(), until, obs@)) {
                (Some(rows), Some(want)) => keyed(rows@) == want && sorted_keys(want),
                (None, None) => true,
                _ => false,
            },
            None => r is None,
        },
{
    let mut rows: Vec<(String, AssetPnl)> = Vec::new();
    assert(keyed(rows@) =~= Seq::<(Seq<char>, AssetPnl)>::empty());
    let mut i: usize = 0;
    assert(closed@.take(0) =~= Seq::<ClosedTrade>::empty());
    while i < closed.len()
        invariant
            i <= closed@.len(),
            closed_rows(closed@.take(i as int), obs@) == Some(keyed(rows@)),
            pnl_rows_ok(keyed(rows@), i as nat, 0),
        decreases closed@.len() - i,
    {
        assert(closed@.take(i + 1).drop_last() =~= closed@.take(i as int));
        if !add_closed(&mut rows, &closed[i], obs, Ghost(i as nat)) {
            proof {
                lemma_closed_none_extends(closed@, obs@, i as int + 1);
            }
            return None;
        }
        i = i + 1;
    }
    assert(closed@.take(closed@.len() as int) =~= closed@);
    let ghost start = keyed(rows@);
    let mut j: usize = 0;
    assert(open@.take(0) =~= Seq::<OpenTrade>::empty());
    while j < open.len()
        invariant
            j <= open@.len(),
            closed_rows(closed@, obs@) == Some(start),
            open_rows(start, open@.take(j as int), mids.view(), until, obs@) == Some(keyed(rows@)),
            pnl_rows_ok(keyed(rows@), closed@.len(), j as nat),
        decreases open@.len() - j,
    {
        assert(open@.take(j + 1).drop_last() =~= open@.take(j as int));
        if !add_open(&mut rows, &open[j], mids, until, obs, Ghost(closed@.len()), Ghost(j as nat)) {
            proof {
                lemma_open_none_extends(start, open@, mids.view(), until, obs@, j as int + 1);
            }
            return None;
        }
        j = j + 1;
    }
    assert(open@.take(open@.len() as int) =~= open@);
    Some(rows)
}

proof fn lemma_closed_none_extends(closed: Seq<ClosedTrade>, obs: Seq<LoggedFunding>, k: int)
    requires
        0 <= k <= closed.len(),
        closed_rows(closed.take(k), obs) is None,
    ensures
        closed_rows(closed, obs) is None,
    decreases closed.len() - k,
{
    if k < closed.len() {
        assert(closed.take(k + 1).drop_last() =~= closed.take(k));
        lemma_closed_none_extends(closed, obs, k + 1);
    } else {
        assert(closed.take(k) =~= closed);
    }
}

proof fn lemma_open_none_extends(
    rows: Seq<(Seq<char>, AssetPnl)>,
    open: Seq<OpenTrade>,
    mids: Map<Seq<char>, Dec>,
    until: Timestamp,
    obs: Seq<LoggedFunding>,
    k: int,
)
    requires
        0 <= k <= open.len(),
        open_rows(rows, open.take(k), mids, until, obs) is None,
    ensures
        open_rows(rows, open, mids, until, obs) is None,
    decreases open.len() - k,
{
    if k < open.len() {
        assert(open.take(k + 1).drop_last() =~= open.take(k));
        lemma_open_none_extends(rows, open, mids, until, obs, k + 1);
    } else {
        assert(open.take(k) =~= open);
    }
}

// ---------------------------------------------------------------------------
// PnL table
// ---------------------------------------------------------------------------

/// Realized + unrealized + funding of a row.
pub open spec fn row_total(r: AssetPnl) -> Option<Dec> {
    match r.realized.spec_add(r.unrealized) {
        Some(x) => x.spec_add(r.funding),
        None => None,
    }
}

/// Header of the PnL table.
pub open spec fn pnl_header() -> Seq<char> {
    pad_right("asset"@, 6) + " "@ + pad_left("trades"@, 7) + " "@ + pad_left("open"@, 5) + " "@ + pad_left("realized"@, 12)
        + " "@ + pad_left("unrealized"@, 12) + " "@ + pad_left("funding"@, 12) + " "@ + pad_left("total"@, 12)
}

/// Line of the PnL table for an asset; `None` where its total overflows.
pub open spec fn pnl_line(k: Seq<char>, r: AssetPnl) -> Option<Seq<char>> {
    match row_total(r) {
        Some(t) => Some(
            pad_right(k, 6) + " "@ + pad_left(decimal_digits(r.closed_count as nat), 7) + " "@
                + pad_left(decimal_digits(r.open_count as nat), 5) + " "@ + pad_left(usd_text(r.realized), 12) + " "@
                + pad_left(usd_text(r.unrealized), 12) + " "@ + pad_left(usd_text(r.funding), 12) + " "@ + pad_left(usd_text(t), 12),
        ),
        None => None,
    }
}

/// Lines of the PnL table and the running totals (realized, unrealized,
/// funding) over its rows; `None` where an amount overflows.
pub open spec fn pnl_body(rows: Seq<(Seq<char>, AssetPnl)>) -> Option<(Seq<Seq<char>>, Dec, Dec, Dec)>
    decreases rows.len(),
{
    if rows.len() == 0 {
        Some((Seq::empty(), Dec::spec_zero(), Dec::spec_zero(), Dec::spec_zero()))
    } else {
        let r = rows.last().1;
        match (pnl_body(rows.drop_last()), pnl_line(rows.last().0, r)) {
            (Some((lines, re, un, fu)), Some(line)) => match (re.spec_add(r.realized), un.spec_add(r.unrealized), fu.spec_add(r.funding)) {
                (Some(re2), Some(un2), Some(fu2)) => Some((lines.push(line), re2, un2, fu2)),
                _ => None,
            },
            _ => None,
        }
    }
}

/// The PnL table: its lines, a blank line and the totals line.
#[verifier::opaque]
pub open spec fn pnl_table(rows: Seq<(Seq<char>, AssetPnl)>) -> Option<Seq<Seq<char>>> {
    match pnl_body(rows) {
        Some((lines, re, un, fu)) => match re.spec_add(un) {
            Some(x) => match x.spec_add(fu) {
                Some(net) => Some(lines + seq![
                    Seq::empty(),
                    "totals: realized "@ + usd_text(re) + "  unrealized "@ + usd_text(un) + "  funding "@ + usd_text(fu)
                        + "  net "@ + usd_text(net),
                ]),
                None => None,
            },
            None => None,
        },
        None => None,
    }
}

fn pnl_line_text(k: &str, r: &AssetPnl) -> (t: Option<String>)
    ensures
        match (t, pnl_line(k@, *r)) {
            (Some(a), Some(b)) => a@ == b,
            (None, None) => true,
            _ => false,
        },
{
    let total = match r.realized.checked_add(r.unrealized) {
        Some(x) => match x.checked_add(r.funding) {
            Some(y) => y,
            None => return None,
        },
        None => return None,
    };
    let mut out: Vec<char> = Vec::new();
    push_left_aligned(&mut out, k, 6);
    push_str(&mut out, " ");
    push_count(&mut out, r.closed_count as u64, 7);
    push_str(&mut out, " ");
    push_count(&mut out, r.open_count as u64, 5);
    push_str(&mut out, " ");
    push_right_aligned(&mut out, format_usd(r.realized).as_str(), 12);
    push_str(&mut out, " ");
    push_right_aligned(&mut out, format_usd(r.unrealized).as_str(), 12);
    push_str(&mut out, " ");
    push_right_aligned(&mut out, format_usd(r.funding).as_str(), 12);
    push_str(&mut out, " ");
    push_right_aligned(&mut out, format_usd(total).as_str(), 12);
    assert(out@ =~= pnl_line(k@, *r).unwrap());
    Some(string_from_chars(&out))
}

proof fn lemma_body_none_extends(rows: Seq<(Seq<char>, AssetPnl)>, k: int)
    requires
        0 <= k <= rows.len(),
        pnl_body(rows.take(k)) is None,
    ensures
        pnl_body(rows) is None,
    decreases rows.len() - k,
{
    if k < rows.len() {
        assert(rows.take(k + 1).drop_last() =~= rows.take(k));
        lemma_body_none_extends(rows, k + 1);
    } else {
        assert(rows.take(k) =~= rows);
    }
}

#[verifier::rlimit(40)]
#[verifier::spinoff_prover]
fn push_pnl_table(rows: &Vec<(String, AssetPnl)>, lines: &mut Vec<String>) -> (ok: bool)
    ensures
        match pnl_table(keyed(rows@)) {
            Some(t) => ok && texts(final(lines)@) == texts(old(lines)@) + t,
            None => !ok,
        },
{
    proof {
        reveal(pnl_table);
    }
    let ghost start = texts(lines@);
    let ghost kv = keyed(rows@);
    let mut re = Dec::zero();
    let mut un = Dec::zero();
    let mut fu = Dec::zero();
    let mut i: usize = 0;
    assert(kv.take(0) =~= Seq::<(Seq<char>, AssetPnl)>::empty());
    assert(start + Seq::<Seq<char>>::empty() =~= start);
    while i < rows.len()
        invariant
            kv == keyed(rows@),
            i <= rows@.len(),
            pnl_body(kv.take(i as int)) matches Some((ls, a, b, c)) && texts(lines@) == start + ls && a == re && b == un && c == fu,
        decreases rows@.len() - i,
    {
        proof {
            reveal(pnl_table);
        }
        let ghost done = pnl_body(kv.take(i as int)).unwrap().0;
        assert(kv.take(i + 1).drop_last() =~= kv.take(i as int));
        assert(kv[i as int] == (rows@[i as int].0@, rows@[i as int].1));
        let r = &rows[i].1;
        let line = match pnl_line_text(rows[i].0.as_str(), r) {
            Some(l) => l,
            None => {
                proof {
                    lemma_body_none_extends(kv, i as int + 1);
                }
                return false;
            },
        };
        match (re.checked_add(r.realized), un.checked_add(r.unrealized), fu.checked_add(r.funding)) {
            (Some(a), Some(b), Some(c)) => {
                re = a;
                un = b;
                fu = c;
            },
            _ => {
                proof {
                    lemma_body_none_extends(kv, i as int + 1);
                }
                return false;
            },
        }
        push_text(lines, line);
        assert(texts(lines@) =~= start + done.push(line@));
        i = i + 1;
    }
    assert(kv.take(rows@.len() as int) =~= kv);
    let net = match re.checked_add(un) {
        Some(x) => match x.checked_add(fu) {
            Some(y) => y,
            None => return false,
        },
        None => return false,
    };
    proof {
        reveal_strlit("");
        assert(""@ =~= Seq::<char>::empty());
    }
    push_line_str(lines, "");
    let mut out: Vec<char> = Vec::new();
    push_str(&mut out, "totals: realized ");
    push_str(&mut out, format_usd(re).as_str());
    push_str(&mut out, "  unrealized ");
    push_str(&mut out, format_usd(un).as_str());
    push_str(&mut out, "  funding ");
    push_str(&mut out, format_usd(fu).as_str());
    push_str(&mut out, "  net ");
    push_str(&mut out, format_usd(net).as_str());
    let ghost body = pnl_body(kv).unwrap().0;
    let ghost mid = texts(lines@);
    push_line(lines, &out);
    proof {
        let t = pnl_table(kv).unwrap();
        assert(out@ =~= "totals: realized "@ + usd_text(re) + "  unrealized "@ + usd_text(un) + "  funding "@ + usd_text(fu)
            + "  net "@ + usd_text(net));
        assert(t =~= body + seq![Seq::<char>::empty(), out@]);
        assert(texts(lines@) =~= start + t);
    }
    true
}

// ---------------------------------------------------------------------------
// Open positions
// ---------------------------------------------------------------------------

/// The position an open trade stands for: 1x leverage, the entry notional as
/// margin, no venue liquidation price.
pub open spec fn open_position(t: OpenTrade) -> Position {
    Position {
        venue: t.open.venue,
        asset: t.asset,
        side: t.side,
        size: t.open.size,
        entry_price: t.open.price,
        leverage: Dec::spec_one(),
        margin_used: t.open.notional_usd,
        liquidation_price: None,
    }
}

/// `long` or `short`.
pub open spec fn side_text(s: Side) -> Seq<char> {
    match s {
        Side::Long => "long"@,
        Side::Short => "short"@,
    }
}

/// Header of the open positions table.
pub open spec fn open_header() -> Seq<char> {
    pad_right("asset"@, 6) + " "@ + pad_right("side"@, 6) + " "@ + pad_left("size"@, 14) + " "@ + pad_left("entry"@, 12) + " "@
        + pad_left("mark"@, 12) + " "@ + pad_left("liq_price"@, 14) + " "@ + pad_left("buffer"@, 10) + " "@ + pad_left("delta_usd"@, 14)
}

/// Line of an open position at its mark, with the default maintenance margin
/// ratio; `None` where an amount overflows.
pub open spec fn open_line(t: OpenTrade, mids: Map<Seq<char>, Dec>) -> Option<Seq<char>> {
    let mark = open_mark(t, mids);
    let p = open_position(t);
    let mmr = Dec::of(5, 3);
    match (spec_liquidation_price(p, mmr), spec_liquidation_buffer_pct(p, mark, mmr), p.spec_signed_notional(mark)) {
        (Some(liq), Some(buf), Some(delta)) => match pct_text(buf) {
            Some(b) => Some(
                pad_right(t.asset@, 6) + " "@ + pad_right(side_text(t.side), 6) + " "@ + pad_left(rounded_text(p.size, 6), 14) + " "@
                    + pad_left(rounded_text(p.entry_price, 2), 12) + " "@ + pad_left(rounded_text(mark, 2), 12) + " "@
                    + pad_left(rounded_text(liq, 2), 14) + " "@ + pad_left(b, 10) + " "@ + pad_left(usd_text(delta), 14),
            ),
            None => None,
        },
        _ => None,
    }
}

/// Lines of the open positions and their net directional exposure; `None`
/// where an amount overflows.
pub open spec fn open_body(open: Seq<OpenTrade>, mids: Map<Seq<char>, Dec>) -> Option<(Seq<Seq<char>>, Dec)>
    decreases open.len(),
{
    if open.len() == 0 {
        Some((Seq::empty(), Dec::spec_zero()))
    } else {
        let t = open.last();
        match (open_body(open.drop_last(), mids), open_line(t, mids), open_position(t).spec_signed_notional(open_mark(t, mids))) {
            (Some((lines, net)), Some(line), Some(delta)) => match net.spec_add(delta) {
                Some(n) => Some((lines.push(line), n)),
                None => None,
            },
            _ => None,
        }
    }
}

/// Gross exposure: the sum of `|size * mark|` over the open trades.
pub open spec fn gross_exposure(open: Seq<OpenTrade>, mids: Map<Seq<char>, Dec>) -> Option<Dec>
    decreases open.len(),
{
    if open.len() == 0 {
        Some(Dec::spec_zero())
    } else {
        let t = open.last();
        match (gross_exposure(open.drop_last(), mids), t.open.size.spec_mul(open_mark(t, mids))) {
            (Some(g), Some(x)) => g.spec_add(x.spec_abs()),
            _ => None,
        }
    }
}

/// `|size * mark|` of each open trade, in order (`None` where the product
/// overflows).
pub open spec fn exposure_terms(open: Seq<OpenTrade>, mids: Map<Seq<char>, Dec>) -> Seq<Option<Dec>> {
    open.map_values(
        |t: OpenTrade|
            match t.open.size.spec_mul(open_mark(t, mids)) {
                Some(x) => Some(x.spec_abs()),
                None => None,
            },
    )
}

/// Gross exposure sums every open trade: it is the sum, in order, of
/// `|size * mark|` over all the open trades (not only the latest), and
/// missing exactly where that sum is.
pub proof fn lemma_gross_sums_all_trades(open: Seq<OpenTrade>, mids: Map<Seq<char>, Dec>)
    ensures
        gross_exposure(open, mids) == crate::risk::spec_sum(exposure_terms(open, mids)),
    decreases open.len(),
{
    if open.len() > 0 {
        let d = open.drop_last();
        lemma_gross_sums_all_trades(d, mids);
        let terms = exposure_terms(open, mids);
        assert(terms.drop_last() =~= exposure_terms(d, mids));
        assert(terms.last() == terms[open.len() - 1]);
    }
}

/// Warning printed when the book carries material directional exposure.
pub open spec fn directional_warning() -> Seq<char> {
    "  \u{26a0} book is directional, not delta-neutral \u{2014} hedge leg not yet wired (single-leg perp)"@
}

/// The book is directional: its gross exposure is positive and the net
/// exposure is at least 1% of it (`|net| * 100 >= gross`); `None` where
/// `|net| * 100` overflows.
pub open spec fn is_directional(net: Dec, gross: Dec) -> Option<bool> {
    if Dec::spec_zero().num_lt(gross) {
        match net.spec_abs().spec_mul(Dec::spec_from_int(100)) {
            Some(x) => Some(!x.num_lt(gross)),
            None => None,
        }
    } else {
        Some(false)
    }
}

/// The open positions section: nothing when no trade is open; else a blank
/// line, the table, a blank line, the net and gross exposure, and the warning
/// when the book is directional.
#[verifier::opaque]
pub open spec fn open_section(open: Seq<OpenTrade>, mids: Map<Seq<char>, Dec>) -> Option<Seq<Seq<char>>> {
    if open.len() == 0 {
        Some(Seq::empty())
    } else {
        match (open_body(open, mids), gross_exposure(open, mids)) {
            (Some((lines, net)), Some(gross)) => match is_directional(net, gross) {
                Some(d) => Some(seq![Seq::empty(), "open positions:"@, open_header()] + lines + seq![
                    Seq::empty(),
                    "net delta: "@ + usd_text(net) + " (gross "@ + usd_text(gross) + ")"@,
                ] + if d { seq![directional_warning()] } else { Seq::empty() }),
                None => None,
            },
            _ => None,
        }
    }
}

pub(crate) fn open_position_of(t: &OpenTrade) -> (p: Position)
    ensures
        p == open_position(*t),
{
    Position {
        venue: t.open.venue,
        asset: t.asset.clone(),
        side: t.side,
        size: t.open.size,
        entry_price: t.open.price,
        leverage: Dec::one(),
        margin_used: t.open.notional_usd,
        liquidation_price: None,
    }
}

fn mark_of(t: &OpenTrade, mids: &PriceMap) -> (m: Dec)
    ensures
        m == open_mark(*t, mids.view()),
{
    let key = to_ascii_uppercase(t.asset.as_str());
    match mids.get(key.as_str()) {
        Some(m) => m,
        None => t.open.price,
    }
}

fn open_line_text(t: &OpenTrade, mids: &PriceMap) -> (r: Option<(String, Dec)>)
    ensures
        match (r, open_line(*t, mids.view()), open_position(*t).spec_signed_notional(open_mark(*t, mids.view()))) {
            (Some((a, d)), Some(b), Some(e)) => a@ == b && d == e,
            (None, _, _) => open_line(*t, mids.view()) is None || open_position(*t).spec_signed_notional(open_mark(*t, mids.view())) is None,
            _ => false,
        },
{
    let mark = mark_of(t, mids);
    let p = open_position_of(t);
    let mmr = default_maintenance_margin_ratio();
    let liq = match try_liquidation_price(&p, mmr) {
        Some(x) => x,
        None => return None,
    };
    let buf = match try_liquidation_buffer_pct(&p, mark, mmr) {
        Some(x) => x,
        None => return None,
    };
    let delta = match p.try_signed_notional(mark) {
        Some(x) => x,
        None => return None,
    };
    let b = match format_pct(buf) {
        Some(x) => x,
        None => return None,
    };
    let mut out: Vec<char> = Vec::new();
    push_left_aligned(&mut out, t.asset.as_str(), 6);
    push_str(&mut out, " ");
    match t.side {
        Side::Long => push_left_aligned(&mut out, "long", 6),
        Side::Short => push_left_aligned(&mut out, "short", 6),
    }
    push_str(&mut out, " ");
    push_right_aligned(&mut out, format_decimal(p.size, 6).as_str(), 14);
    push_str(&mut out, " ");
    push_right_aligned(&mut out, format_decimal(p.entry_price, 2).as_str(), 12);
    push_str(&mut out, " ");
    push_right_aligned(&mut out, format_decimal(mark, 2).as_str(), 12);
    push_str(&mut out, " ");
    push_right_aligned(&mut out, format_decimal(liq, 2).as_str(), 14);
    push_str(&mut out, " ");
    push_right_aligned(&mut out, b.as_str(), 10);
    push_str(&mut out, " ");
    push_right_aligned(&mut out, format_usd(delta).as_str(), 14);
    assert(out@ =~= open_line(*t, mids.view()).unwrap());
    Some((string_from_chars(&out), delta))
}

proof fn lemma_open_body_none_extends(open: Seq<OpenTrade>, mids: Map<Seq<char>, Dec>, k: int)
    requires
        0 <= k <= open.len(),
        open_body(open.take(k), mids) is None,
    ensures
        open_body(open, mids) is None,
    decreases open.len() - k,
{
    if k < open.len() {
        assert(open.take(k + 1).drop_last() =~= open.take(k));
        lemma_open_body_none_extends(open, mids, k + 1);
    } else {
        assert(open.take(k) =~= open);
    }
}

proof fn lemma_gross_none_extends(open: Seq<OpenTrade>, mids: Map<Seq<char>, Dec>, k: int)
    requires
        0 <= k <= open.len(),
        gross_exposure(open.take(k), mids) is None,
    ensures
        gross_exposure(open, mids) is None,
    decreases open.len() - k,
{
    if k < open.len() {
        assert(open.take(k + 1).drop_last() =~= open.take(k));
        lemma_gross_none_extends(open, mids, k + 1);
    } else {
        assert(open.take(k) =~= open);
    }
}

fn gross_of(open: &Vec<OpenTrade>, mids: &PriceMap) -> (r: Option<Dec>)
    ensures
        r == gross_exposure(open@, mids.view()),
{
    let mut g = Dec::zero();
    let mut i: usize = 0;
    assert(open@.take(0) =~= Seq::<OpenTrade>::empty());
    while i < open.len()
        invariant
            i <= open@.len(),
            gross_exposure(open@.take(i as int), mids.view()) == Some(g),
        decreases open@.len() - i,
    {
        assert(open@.take(i + 1).drop_last() =~= open@.take(i as int));
        let t = &open[i];
        let mark = mark_of(t, mids);
        let x = match t.open.size.checked_mul(mark) {
            Some(x) => x,
            None => {
                proof {
                    lemma_gross_none_extends(open@, mids.view(), i as int + 1);
                }
                return None;
            },
        };
        g = match g.checked_add(x.abs()) {
            Some(y) => y,
            None => {
                proof {
                    lemma_gross_none_extends(open@, mids.view(), i as int + 1);
                }
                return None;
            },
        };
        i = i + 1;
    }
    assert(open@.take(open@.len() as int) =~= open@);
    Some(g)
}

fn push_open_header(lines: &mut Vec<String>)
    ensures
        texts(final(lines)@) == texts(old(lines)@) + seq![Seq::<char>::empty(), "open positions:"@, open_header()],
{
    let ghost start = texts(lines@);
    proof {
        reveal_strlit("");
        assert(""@ =~= Seq::<char>::empty());
    }
    push_line_str(lines, "");
    push_line_str(lines, "open positions:");
    let mut header: Vec<char> = Vec::new();
    push_left_aligned(&mut header, "asset", 6);
    push_str(&mut header, " ");
    push_left_aligned(&mut header, "side", 6);
    push_str(&mut header, " ");
    push_right_aligned(&mut header, "size", 14);
    push_str(&mut header, " ");
    push_right_aligned(&mut header, "entry", 12);
    push_str(&mut header, " ");
    push_right_aligned(&mut header, "mark", 12);
    push_str(&mut header, " ");
    push_right_aligned(&mut header, "liq_price", 14);
    push_str(&mut header, " ");
    push_right_aligned(&mut header, "buffer", 10);
    push_str(&mut header, " ");
    push_right_aligned(&mut header, "delta_usd", 14);
    assert(header@ =~= open_header());
    push_line(lines, &header);
    assert(texts(lines@) =~= start + seq![Seq::<char>::empty(), "open positions:"@, open_header()]);
}

#[verifier::rlimit(40)]
#[verifier::spinoff_prover]
fn push_open_lines(open: &Vec<OpenTrade>, mids: &PriceMap, lines: &mut Vec<String>) -> (r: Option<Dec>)
    ensures
        match open_body(open@, mids.view()) {
            Some((ls, n)) => r == Some(n) && texts(final(lines)@) == texts(old(lines)@) + ls,
            None => r is None,
        },
{
    let ghost head = texts(lines@);
    let mut net = Dec::zero();
    let mut i: usize = 0;
    assert(open@.take(0) =~= Seq::<OpenTrade>::empty());
    assert(head + Seq::<Seq<char>>::empty() =~= head);
    while i < open.len()
        invariant
            i <= open@.len(),
            open_body(open@.take(i as int), mids.view()) matches Some((ls, n)) && texts(lines@) == head + ls && n == net,
        decreases open@.len() - i,
    {
        let ghost done = open_body(open@.take(i as int), mids.view()).unwrap().0;
        assert(open@.take(i + 1).drop_last() =~= open@.take(i as int));
        let (line, delta) = match open_line_text(&open[i], mids) {
            Some(x) => x,
            None => {
                proof {
                    lemma_open_body_none_extends(open@, mids.view(), i as int + 1);
                }
                return None;
            },
        };
        net = match net.checked_add(delta) {
            Some(n) => n,
            None => {
                proof {
                    lemma_open_body_none_extends(open@, mids.view(), i as int + 1);
                }
                return None;
            },
        };
        push_text(lines, line);
        assert(texts(lines@) =~= head + done.push(line@));
        i = i + 1;
    }
    assert(open@.take(open@.len() as int) =~= open@);
    Some(net)
}

fn push_exposure(net: Dec, gross: Dec, lines: &mut Vec<String>) -> (ok: bool)
    ensures
        match is_directional(net, gross) {
            Some(d) => ok && texts(final(lines)@) == texts(old(lines)@) + seq![
                Seq::empty(),
                "net delta: "@ + usd_text(net) + " (gross "@ + usd_text(gross) + ")"@,
            ] + if d { seq![directional_warning()] } else { Seq::empty() },
            None => !ok,
        },
{
    let ghost start = texts(lines@);
    let directional = if Dec::zero().lt(&gross) {
        match net.abs().checked_mul(Dec::from_u32(100)) {
            Some(x) => !x.lt(&gross),
            None => return false,
        }
    } else {
        false
    };
    proof {
        reveal_strlit("");
        assert(""@ =~= Seq::<char>::empty());
    }
    push_line_str(lines, "");
    let mut out: Vec<char> = Vec::new();
    push_str(&mut out, "net delta: ");
    push_str(&mut out, format_usd(net).as_str());
    push_str(&mut out, " (gross ");
    push_str(&mut out, format_usd(gross).as_str());
    push_str(&mut out, ")");
    assert(out@ =~= "net delta: "@ + usd_text(net) + " (gross "@ + usd_text(gross) + ")"@);
    push_line(lines, &out);
    let ghost mid = texts(lines@);
    if directional {
        push_line_str(lines, "  \u{26a0} book is directional, not delta-neutral \u{2014} hedge leg not yet wired (single-leg perp)");
        assert(texts(lines@) =~= start + seq![Seq::<char>::empty(), out@] + seq![directional_warning()]);
    } else {
        assert(texts(lines@) =~= start + seq![Seq::<char>::empty(), out@] + Seq::<Seq<char>>::empty());
    }
    true
}

#[verifier::rlimit(50)]
#[verifier::spinoff_prover]
fn push_open_section(open: &Vec<OpenTrade>, mids: &PriceMap, lines: &mut Vec<String>) -> (ok: bool)
    ensures
        match open_section(open@, mids.view()) {
            Some(t) => ok && texts(final(lines)@) == texts(old(lines)@) + t,
            None => !ok,
        },
{
    proof {
        reveal(open_section);
    }
    let ghost start = texts(lines@);
    if open.len() == 0 {
        assert(start + Seq::<Seq<char>>::empty() =~= start);
        return true;
    }
    push_open_header(lines);
    let ghost head = texts(lines@);
    let net = match push_open_lines(open, mids, lines) {
        Some(n) => n,
        None => return false,
    };
    let ghost body = open_body(open@, mids.view()).unwrap().0;
    let ghost after = texts(lines@);
    let gross = match gross_of(open, mids) {
        Some(g) => g,
        None => return false,
    };
    if !push_exposure(net, gross, lines) {
        return false;
    }
    proof {
        let t = open_section(open@, mids.view()).unwrap();
        let d = is_directional(net, gross).unwrap();
        let tail = seq![Seq::<char>::empty(), "net delta: "@ + usd_text(net) + " (gross "@ + usd_text(gross) + ")"@]
            + if d { seq![directional_warning()] } else { Seq::<Seq<char>>::empty() };
        assert(t =~= seq![Seq::<char>::empty(), "open positions:"@, open_header()] + body + tail);
        assert(texts(lines@) =~= start + t);
    }
    true
}

// ---------------------------------------------------------------------------
// The digest
// ---------------------------------------------------------------------------

/// Start of the run: the first fill, or the first observation when it came
/// strictly earlier.
pub open spec fn earliest_time(fills: Seq<Fill>, obs: Seq<LoggedFunding>) -> Timestamp {
    if obs.len() > 0 && obs[0].observed_at.spec_before(fills[0].filled_at) {
        obs[0].observed_at
    } else {
        fills[0].filled_at
    }
}

/// End of the run: the last fill, or the last observation when it came
/// strictly later.
pub open spec fn latest_time(fills: Seq<Fill>, obs: Seq<LoggedFunding>) -> Timestamp {
    if obs.len() > 0 && fills.last().filled_at.spec_before(obs.last().observed_at) {
        obs.last().observed_at
    } else {
        fills.last().filled_at
    }
}

/// `period: {start} \u{2192} {end} ({duration})`; `None` where a time cannot be
/// written as a date.
#[verifier::opaque]
pub open spec fn period_line(fills: Seq<Fill>, obs: Seq<LoggedFunding>) -> Option<Seq<char>> {
    let e = earliest_time(fills, obs);
    let l = latest_time(fills, obs);
    match (utc_iso_text(e.secs, e.nanos), utc_iso_text(l.secs, l.nanos)) {
        (Some(a), Some(b)) => Some(
            "period: "@ + a + " \u{2192} "@ + b + " ("@ + duration_text(Timestamp::spec_secs_between(e, l)) + ")"@,
        ),
        _ => None,
    }
}

/// `fills: {n}  observations: {n}  open positions: {n}  closed trades: {n}`.
pub open spec fn counts_line(fills: nat, observations: nat, open: nat, closed: nat) -> Seq<char> {
    "fills: "@ + decimal_digits(fills) + "  observations: "@ + decimal_digits(observations) + "  open positions: "@
        + decimal_digits(open) + "  closed trades: "@ + decimal_digits(closed)
}

/// The open trades left by the fills.
pub open spec fn open_trades(fills: Seq<Fill>) -> Seq<OpenTrade> {
    pair_state(fills).1.map_values(|e: (Seq<char>, Fill)| spec_open_trade(e.1))
}

/// Latest observed mid per uppercased asset.
pub open spec fn mids_of(obs: Seq<LoggedFunding>) -> Map<Seq<char>, Dec> {
    latest_state(obs).map_values(|v: (Timestamp, Dec)| v.1)
}

/// Where funding of still-open trades stops accruing: the last observation,
/// or `now` when there is none (time after the last poll is not observed).
pub open spec fn accrual_end(obs: Seq<LoggedFunding>, now: Timestamp) -> Timestamp {
    if obs.len() > 0 {
        obs.last().observed_at
    } else {
        now
    }
}

/// The per-asset rows of the run: closed trades, then open ones.
#[verifier::opaque]
pub open spec fn digest_rows(fills: Seq<Fill>, obs: Seq<LoggedFunding>, now: Timestamp) -> Option<Seq<(Seq<char>, AssetPnl)>> {
    match closed_rows(pair_state(fills).0, obs) {
        Some(r1) => open_rows(r1, open_trades(fills), mids_of(obs), accrual_end(obs, now), obs),
        None => None,
    }
}

/// Lines printed by the digest of a run with at least one fill: the period
/// and counts, the per-asset PnL table with its totals, and the open
/// positions.
#[verifier::opaque]
pub open spec fn trades_report(state_dir: Seq<char>, fills: Seq<Fill>, obs: Seq<LoggedFunding>, now: Timestamp) -> Option<Seq<Seq<char>>> {
    let open = open_trades(fills);
    match (digest_rows(fills, obs, now), period_line(fills, obs)) {
        (Some(rows), Some(period)) => match (pnl_table(rows), open_section(open, mids_of(obs))) {
            (Some(table), Some(tail)) => Some(seq![
                "paper-trade digest from "@ + state_dir,
                Seq::empty(),
                period,
                counts_line(fills.len(), obs.len(), open.len(), pair_state(fills).0.len()),
                Seq::empty(),
                pnl_header(),
            ] + table + tail),
            _ => None,
        },
        _ => None,
    }
}

/// Lines printed by the digest of a run with the given fills and funding
/// observations (both in time order), `state_dir` and `fills_path` being how
/// the directory and the fills log are shown: a note when there is no fill,
/// else `trades_report`. `None` where an amount overflows or a time cannot be
/// written as a date.
pub open spec fn digest_report(
    state_dir: Seq<char>,
    fills_path: Seq<char>,
    fills: Seq<Fill>,
    obs: Seq<LoggedFunding>,
    now: Timestamp,
) -> Option<Seq<Seq<char>>> {
    if fills.len() == 0 {
        Some(seq!["no fills recorded yet ("@ + fills_path + ")"@])
    } else {
        trades_report(state_dir, fills, obs, now)
    }
}

fn period_text(fills: &[Fill], obs: &[LoggedFunding]) -> (r: Option<String>)
    requires
        fills@.len() > 0,
    ensures
        match (r, period_line(fills@, obs@)) {
            (Some(a), Some(b)) => a@ == b,
            (None, None) => true,
            _ => false,
        },
{
    proof {
        reveal(period_line);
    }
    let first_fill = fills[0].filled_at;
    let last_fill = fills[fills.len() - 1].filled_at;
    let earliest = if obs.len() > 0 && obs[0].observed_at.before(&first_fill) {
        obs[0].observed_at
    } else {
        first_fill
    };
    let latest = if obs.len() > 0 && last_fill.before(&obs[obs.len() - 1].observed_at) {
        obs[obs.len() - 1].observed_at
    } else {
        last_fill
    };
    let a = match format_utc(earliest) {
        Some(t) => t,
        None => return None,
    };
    let b = match format_utc(latest) {
        Some(t) => t,
        None => return None,
    };
    let mut out: Vec<char> = Vec::new();
    push_str(&mut out, "period: ");
    push_str(&mut out, a.as_str());
    push_str(&mut out, " \u{2192} ");
    push_str(&mut out, b.as_str());
    push_str(&mut out, " (");
    push_str(&mut out, format_duration(Timestamp::secs_between(&earliest, &latest)).as_str());
    push_str(&mut out, ")");
    assert(out@ =~= period_line(fills@, obs@).unwrap());
    Some(string_from_chars(&out))
}

fn digest_head(state_dir: &str, period: String, fills: usize, obs: usize, open: usize, closed: usize) -> (r: Vec<String>)
    ensures
        texts(r@) == seq![
            "paper-trade digest from "@ + state_dir@,
            Seq::<char>::empty(),
            period@,
            counts_line(fills as nat, obs as nat, open as nat, closed as nat),
            Seq::<char>::empty(),
            pnl_header(),
        ],
{
    let mut lines: Vec<String> = Vec::new();
    assert(texts(lines@) =~= Seq::<Seq<char>>::empty());
    proof {
        reveal_strlit("");
        assert(""@ =~= Seq::<char>::empty());
    }
    let mut head: Vec<char> = Vec::new();
    push_str(&mut head, "paper-trade digest from ");
    push_str(&mut head, state_dir);
    push_line(&mut lines, &head);
    push_line_str(&mut lines, "");
    push_text(&mut lines, period);
    let mut counts: Vec<char> = Vec::new();
    push_str(&mut counts, "fills: ");
    push_u64(&mut counts, fills as u64);
    push_str(&mut counts, "  observations: ");
    push_u64(&mut counts, obs as u64);
    push_str(&mut counts, "  open positions: ");
    push_u64(&mut counts, open as u64);
    push_str(&mut counts, "  closed trades: ");
    push_u64(&mut counts, closed as u64);
    assert(counts@ =~= counts_line(fills as nat, obs as nat, open as nat, closed as nat));
    push_line(&mut lines, &counts);
    push_line_str(&mut lines, "");
    let mut header: Vec<char> = Vec::new();
    push_left_aligned(&mut header, "asset", 6);
    push_str(&mut header, " ");
    push_right_aligned(&mut header, "trades", 7);
    push_str(&mut header, " ");
    push_right_aligned(&mut header, "open", 5);
    push_str(&mut header, " ");
    push_right_aligned(&mut header, "realized", 12);
    push_str(&mut header, " ");
    push_right_aligned(&mut header, "unrealized", 12);
    push_str(&mut header, " ");
    push_right_aligned(&mut header, "funding", 12);
    push_str(&mut header, " ");
    push_right_aligned(&mut header, "total", 12);
    assert(header@ =~= pnl_header());
    push_line(&mut lines, &header);
    assert(head@ =~= "paper-trade digest from "@ + state_dir@);
    lines
}

#[verifier::rlimit(60)]
#[verifier::spinoff_prover]
fn report_trades(state_dir: &str, fills: &[Fill], observations: &[LoggedFunding], now: Timestamp) -> (r: Option<Vec<String>>)
    requires
        fills@.len() > 0,
    ensures
        match (r, trades_report(state_dir@, fills@, observations@, now)) {
            (Some(lines), Some(want)) => texts(lines@) == want,
            (None, None) => true,
            _ => false,
        },
{
    proof {
        reveal(digest_rows);
        reveal(trades_report);
    }
    let (closed, open) = pair_fills(fills);
    let mids = latest_mids(observations);
    let until = if observations.len() > 0 {
        observations[observations.len() - 1].observed_at
    } else {
        now
    };
    assert(open@ == open_trades(fills@));
    assert(mids.view() == mids_of(observations@));
    assert(until == accrual_end(observations@, now));
    let rows = match book_trades(&closed, &open, &mids, until, observations) {
        Some(r) => r,
        None => return None,
    };
    assert(digest_rows(fills@, observations@, now) == Some(keyed(rows@)));
    let period = match period_text(fills, observations) {
        Some(p) => p,
        None => return None,
    };
    let mut lines = digest_head(state_dir, period, fills.len(), observations.len(), open.len(), closed.len());
    let ghost head = texts(lines@);
    if !push_pnl_table(&rows, &mut lines) {
        return None;
    }
    if !push_open_section(&open, &mids, &mut lines) {
        return None;
    }
    proof {
        let table = pnl_table(keyed(rows@)).unwrap();
        let tail = open_section(open@, mids.view()).unwrap();
        assert(trades_report(state_dir@, fills@, observations@, now) == Some(head + table + tail));
    }
    Some(lines)
}

/// The digest lines (see `digest_report`), or `None` where an amount
/// overflows or a time cannot be written as a date.
pub fn try_run(state_dir: &str, fills_path: &str, fills: &[Fill], observations: &[LoggedFunding], now: Timestamp) -> (r: Option<Vec<String>>)
    ensures
        match (r, digest_report(state_dir@, fills_path@, fills@, observations@, now)) {
            (Some(lines), Some(want)) => texts(lines@) == want,
            (None, None) => true,
            _ => false,
        },
{
    if fills.len() == 0 {
        let mut lines: Vec<String> = Vec::new();
        let mut out: Vec<char> = Vec::new();
        push_str(&mut out, "no fills recorded yet (");
        push_str(&mut out, fills_path);
        push_str(&mut out, ")");
        push_line(&mut lines, &out);
        assert(texts(lines@) =~= seq!["no fills recorded yet ("@ + fills_path@ + ")"@]);
        return Some(lines);
    }
    report_trades(state_dir, fills, observations, now)
}

/// Lines printed by the digest (see `digest_report`).
pub fn run(state_dir: &str, fills_path: &str, fills: &[Fill], observations: &[LoggedFunding], now: Timestamp) -> (r: Vec<String>)
    requires
        digest_report(state_dir@, fills_path@, fills@, observations@, now) is Some,
    ensures
        Some(texts(r@)) == digest_report(state_dir@, fills_path@, fills@, observations@, now),
{
    match try_run(state_dir, fills_path, fills, observations, now) {
        Some(lines) => lines,
        None => Vec::new(),
    }
}

} // verus!
