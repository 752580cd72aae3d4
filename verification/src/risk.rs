//! Risk arithmetic: notional, simulated margin usage, would-be liquidation
//! prices, and portfolio aggregates valued at supplied marks.
use vstd::prelude::*;
use crate::decimal::Dec;
use crate::prices::PriceMap;
use crate::text::{to_ascii_uppercase, upper_seq};
use crate::types::{spec_signed, Position, Side};

verus! {

broadcast use crate::decimal::group_dec_parts;

/// Left-to-right sum of the terms starting from zero; `None` as soon as a term is
/// missing or an addition overflows.
pub open spec fn spec_sum(terms: Seq<Option<Dec>>) -> Option<Dec>
    decreases terms.len(),
{
    if terms.len() == 0 {
        Some(Dec::spec_zero())
    } else {
        match spec_sum(terms.drop_last()) {
            Some(acc) => match terms.last() {
                Some(t) => acc.spec_add(t),
                None => None,
            },
            None => None,
        }
    }
}

/// A missing prefix sum stays missing.
pub proof fn lemma_sum_none_extends(terms: Seq<Option<Dec>>, i: int)
    requires
        0 <= i <= terms.len(),
        spec_sum(terms.take(i)) is None,
    ensures
        spec_sum(terms) is None,
    decreases terms.len() - i,
{
    if i < terms.len() {
        assert(terms.take(i + 1).drop_last() =~= terms.take(i));
        lemma_sum_none_extends(terms, i + 1);
    } else {
        assert(terms.take(i) =~= terms);
    }
}

/// A missing term makes the whole sum missing.
pub proof fn lemma_sum_none_at(terms: Seq<Option<Dec>>, k: int)
    requires
        0 <= k < terms.len(),
        terms[k] is None,
    ensures
        spec_sum(terms) is None,
{
    lemma_sum_step(terms, k);
    lemma_sum_none_extends(terms, k + 1);
}

/// One more term of a prefix sum.
pub proof fn lemma_sum_step(terms: Seq<Option<Dec>>, i: int)
    requires
        0 <= i < terms.len(),
    ensures
        spec_sum(terms.take(i + 1)) == (match spec_sum(terms.take(i)) {
            Some(acc) => match terms[i] {
                Some(t) => acc.spec_add(t),
                None => None,
            },
            None => None,
        }),
{
    assert(terms.take(i + 1).drop_last() =~= terms.take(i));
}

/// Hyperliquid majors use about 0.5% maintenance margin: `0.005`.
pub fn default_maintenance_margin_ratio() -> (r: Dec)
    ensures
        r == Dec::of(5, 3),
        r.valid(),
{
    Dec::new(5, 3)
}

/// Mark used to value `p`: the price of its uppercased asset name when present,
/// otherwise its entry price.
pub open spec fn spec_mark_for(p: Position, marks: Map<Seq<char>, Dec>) -> Dec {
    if marks.contains_key(upper_seq(p.asset@)) {
        marks[upper_seq(p.asset@)]
    } else {
        p.entry_price
    }
}

fn mark_for(p: &Position, marks: &PriceMap) -> (r: Dec)
    ensures
        r == spec_mark_for(*p, marks.view()),
{
    let key = to_ascii_uppercase(p.asset.as_str());
    match marks.get(key.as_str()) {
        Some(m) => m,
        None => p.entry_price,
    }
}

/// Notional in USD: `size * mark_price`.
pub fn notional_usd(position: &Position, mark_price: Dec) -> (r: Dec)
    requires
        position.spec_notional(mark_price) is Some,
    ensures
        Some(r) == position.spec_notional(mark_price),
        r.valid(),
{
    position.notional_usd(mark_price)
}

/// `notional_usd`, or `None` where the product overflows.
pub fn try_notional_usd(position: &Position, mark_price: Dec) -> (r: Option<Dec>)
    ensures
        r == position.spec_notional(mark_price),
{
    match position.try_notional_usd(mark_price) {
        Some(_) => Some(notional_usd(position, mark_price)),
        None => None,
    }
}

/// Simulated margin: notional / leverage, with zero or negative leverage
/// treated as 1x (the notional itself).
pub open spec fn spec_margin_used(p: Position, mark_price: Dec) -> Option<Dec> {
    match p.spec_notional(mark_price) {
        Some(n) => if Dec::spec_zero().num_lt(p.leverage) {
            n.spec_div(p.leverage)
        } else {
            Some(n)
        },
        None => None,
    }
}

fn compute_margin_used(position: &Position, mark_price: Dec) -> (r: Option<Dec>)
    ensures
        r == spec_margin_used(*position, mark_price),
        r matches Some(d) ==> d.valid(),
{
    let n = match position.try_notional_usd(mark_price) {
        Some(n) => n,
        None => return None,
    };
    if position.leverage.gt(&Dec::zero()) {
        n.checked_div(position.leverage)
    } else {
        Some(n)
    }
}

/// Simulated margin used (USD) under cross-margin: notional / leverage; zero or
/// negative leverage counts as 1x.
pub fn margin_used(position: &Position, mark_price: Dec) -> (r: Dec)
    requires
        spec_margin_used(*position, mark_price) is Some,
    ensures
        Some(r) == spec_margin_used(*position, mark_price),
        r.valid(),
{
    compute_margin_used(position, mark_price).unwrap()
}

/// `margin_used`, or `None` where it would overflow.
pub fn try_margin_used(position: &Position, mark_price: Dec) -> (r: Option<Dec>)
    ensures
        r == spec_margin_used(*position, mark_price),
{
    match compute_margin_used(position, mark_price) {
        Some(_) => Some(margin_used(position, mark_price)),
        None => None,
    }
}

/// Leverage for the liquidation formula: below 1 counts as 1 (`leverage.max(1)`).
pub open spec fn spec_effective_leverage(leverage: Dec) -> Dec {
    if leverage.num_lt(Dec::spec_one()) {
        Dec::spec_one()
    } else {
        leverage
    }
}

/// Isolated-margin liquidation price:
/// Long `entry * (1 - (1 - mmr) / lev)`, Short `entry * (1 + (1 - mmr) / lev)`.
pub open spec fn spec_liquidation_price(p: Position, mmr: Dec) -> Option<Dec> {
    match Dec::spec_one().spec_sub(mmr) {
        Some(keep) => match keep.spec_div(spec_effective_leverage(p.leverage)) {
            Some(buffer) => match p.side {
                Side::Long => match Dec::spec_one().spec_sub(buffer) {
                    Some(f) => p.entry_price.spec_mul(f),
                    None => None,
                },
                Side::Short => match Dec::spec_one().spec_add(buffer) {
                    Some(f) => p.entry_price.spec_mul(f),
                    None => None,
                },
            },
            None => None,
        },
        None => None,
    }
}

/// The liquidation price lies on the losing side of the entry: at or below it
/// for a Long, at or above it for a Short.
pub open spec fn liquidation_on_losing_side(p: Position, liq: Dec) -> bool {
    match p.side {
        Side::Long => liq.num_le(p.entry_price),
        Side::Short => p.entry_price.num_le(liq),
    }
}

proof fn lemma_not_below_zero(x: Dec)
    requires
        Dec::spec_zero().num_le(x),
    ensures
        x.mant() >= 0,
{
    crate::decimal::lemma_pow10_positive(x.scl() as nat);
    assert(crate::decimal::pow10(0) == 1);
    assert(x.mant() * 1 >= 0);
}

proof fn lemma_at_least_one(x: Dec)
    requires
        Dec::spec_one().num_le(x),
    ensures
        x.mant() > 0,
{
    crate::decimal::lemma_pow10_positive(x.scl() as nat);
    assert(crate::decimal::pow10(0) == 1);
    assert(x.mant() * 1 >= 1 * crate::decimal::pow10(x.scl() as nat));
}

proof fn lemma_not_positive_below(a: Dec, b: Dec)
    requires
        a.mant() <= 0,
        b.mant() >= 0,
    ensures
        a.num_le(b),
{
    let pa = crate::decimal::pow10(a.scl() as nat);
    let pb = crate::decimal::pow10(b.scl() as nat);
    crate::decimal::lemma_pow10_positive(a.scl() as nat);
    crate::decimal::lemma_pow10_positive(b.scl() as nat);
    assert(a.mant() * pb <= 0) by (nonlinear_arith)
        requires
            a.mant() <= 0,
            pb >= 1,
    ;
    assert(b.mant() * pa >= 0) by (nonlinear_arith)
        requires
            b.mant() >= 0,
            pa >= 1,
    ;
}

fn compute_liquidation_price(position: &Position, mmr: Dec) -> (r: Option<Dec>)
    ensures
        r == spec_liquidation_price(*position, mmr),
        r matches Some(d) ==> d.valid(),
        Dec::spec_zero().num_le(position.entry_price) && mmr.num_le(Dec::spec_one()) ==> (r matches Some(
            d,
        ) ==> liquidation_on_losing_side(*position, d)),
{
    let one = Dec::one();
    let leverage = if position.leverage.lt(&one) {
        one
    } else {
        position.leverage
    };
    proof {
        assert(crate::decimal::pow10(0) == 1);
        assert(Dec::spec_one().num_le(leverage));
        lemma_at_least_one(leverage);
    }
    let keep = match one.checked_sub(mmr) {
        Some(k) => k,
        None => return None,
    };
    let buffer = match keep.checked_div(leverage) {
        Some(b) => b,
        None => return None,
    };
    proof {
        if mmr.num_le(Dec::spec_one()) {
            assert(keep.mant() >= 0);
            assert(keep.mant() == 0 ==> buffer.mant() == 0);
            assert(buffer.mant() >= 0) by (nonlinear_arith)
                requires
                    keep.mant() >= 0,
                    leverage.mant() > 0,
                    keep.mant() == 0 ==> buffer.mant() == 0,
                    buffer.mant() == 0 || ((buffer.mant() > 0) == (keep.mant() * leverage.mant() > 0)),
            ;
        }
    }
    match position.side {
        Side::Long => match one.checked_sub(buffer) {
            Some(f) => {
                let r = position.entry_price.checked_mul(f);
                proof {
                    if Dec::spec_zero().num_le(position.entry_price) && mmr.num_le(Dec::spec_one()) {
                        lemma_not_below_zero(position.entry_price);
                        if let Some(d) = r {
                            if f.mant() < 0 {
                                assert(d.mant() <= 0) by (nonlinear_arith)
                                    requires
                                        position.entry_price.mant() >= 0,
                                        f.mant() < 0,
                                        d.mant() == 0 || ((d.mant() > 0) == (position.entry_price.mant() * f.mant() > 0)),
                                ;
                                lemma_not_positive_below(d, position.entry_price);
                            }
                        }
                    }
                }
                r
            },
            None => None,
        },
        Side::Short => match one.checked_add(buffer) {
            Some(f) => {
                let r = position.entry_price.checked_mul(f);
                proof {
                    if Dec::spec_zero().num_le(position.entry_price) && mmr.num_le(Dec::spec_one()) {
                        lemma_not_below_zero(position.entry_price);
                    }
                }
                r
            },
            None => None,
        },
    }
}

/// Would-be liquidation price (USD per base unit), isolated-margin formula with
/// leverage below 1 clamped to 1. For an entry of at least zero and a
/// maintenance ratio of at most 1 it lies on the losing side of the entry.
pub fn liquidation_price(position: &Position, mmr: Dec) -> (r: Dec)
    requires
        spec_liquidation_price(*position, mmr) is Some,
    ensures
        Some(r) == spec_liquidation_price(*position, mmr),
        r.valid(),
        Dec::spec_zero().num_le(position.entry_price) && mmr.num_le(Dec::spec_one()) ==> liquidation_on_losing_side(
            *position,
            r,
        ),
{
    compute_liquidation_price(position, mmr).unwrap()
}

/// `liquidation_price`, or `None` where it would overflow.
pub fn try_liquidation_price(position: &Position, mmr: Dec) -> (r: Option<Dec>)
    ensures
        r == spec_liquidation_price(*position, mmr),
        Dec::spec_zero().num_le(position.entry_price) && mmr.num_le(Dec::spec_one()) ==> (r matches Some(
            d,
        ) ==> liquidation_on_losing_side(*position, d)),
{
    match compute_liquidation_price(position, mmr) {
        Some(_) => Some(liquidation_price(position, mmr)),
        None => None,
    }
}

/// Distance from the mark to the liquidation price as a fraction of the mark:
/// Long `(mark - liq) / mark`, Short `(liq - mark) / mark`; zero for a
/// non-positive mark.
pub open spec fn spec_liquidation_buffer_pct(p: Position, mark_price: Dec, mmr: Dec) -> Option<Dec> {
    if mark_price.num_le(Dec::spec_zero()) {
        Some(Dec::spec_zero())
    } else {
        match spec_liquidation_price(p, mmr) {
            Some(liq) => match p.side {
                Side::Long => match mark_price.spec_sub(liq) {
                    Some(d) => d.spec_div(mark_price),
                    None => None,
                },
                Side::Short => match liq.spec_sub(mark_price) {
                    Some(d) => d.spec_div(mark_price),
                    None => None,
                },
            },
            None => None,
        }
    }
}

/// The buffer tells which side of the liquidation price the mark is on, and
/// the side of the mark fixes the sign of the buffer: on the safe side
/// (Long: liquidation below the mark, Short: above it) the buffer is positive,
/// or zero where the quotient rounds to zero; past liquidation it is negative
/// or zero likewise; at the liquidation price it is zero.
pub open spec fn buffer_agrees_with_liquidation(p: Position, mark_price: Dec, mmr: Dec, buffer: Dec) -> bool {
    let liq = spec_liquidation_price(p, mmr)->0;
    let (safe, past) = match p.side {
        Side::Long => (liq.num_lt(mark_price), mark_price.num_lt(liq)),
        Side::Short => (mark_price.num_lt(liq), liq.num_lt(mark_price)),
    };
    Dec::spec_zero().num_lt(mark_price) ==> {
        &&& buffer.mant() > 0 ==> safe
        &&& buffer.mant() < 0 ==> past
        &&& safe ==> buffer.mant() >= 0
        &&& past ==> buffer.mant() <= 0
        &&& (!safe && !past) ==> buffer.mant() == 0
    }
}

proof fn lemma_positive_mark(mark_price: Dec)
    requires
        Dec::spec_zero().num_lt(mark_price),
    ensures
        mark_price.mant() > 0,
{
    crate::decimal::lemma_pow10_positive(mark_price.scl() as nat);
    assert(Dec::spec_zero().mant() == 0);
    assert(Dec::spec_zero().scl() == 0);
    assert(crate::decimal::pow10(0) == 1);
    assert(mark_price.mant() * 1 > 0);
}

proof fn lemma_sign_of_quotient(q: int, d: int, m: int)
    requires
        m > 0,
        d == 0 ==> q == 0,
        q == 0 || ((q > 0) == (d * m > 0)),
    ensures
        q > 0 ==> d > 0,
        q < 0 ==> d < 0,
        d > 0 ==> q >= 0,
        d < 0 ==> q <= 0,
{
    if d > 0 {
        assert(d * m > 0) by (nonlinear_arith)
            requires
                d > 0,
                m > 0,
        ;
    } else {
        assert(d * m <= 0) by (nonlinear_arith)
            requires
                d <= 0,
                m > 0,
        ;
    }
}

fn compute_liquidation_buffer_pct(position: &Position, mark_price: Dec, mmr: Dec) -> (r: Option<Dec>)
    ensures
        r == spec_liquidation_buffer_pct(*position, mark_price, mmr),
        r matches Some(b) ==> b.valid() && buffer_agrees_with_liquidation(*position, mark_price, mmr, b),
{
    if mark_price.le(&Dec::zero()) {
        return Some(Dec::zero());
    }
    proof {
        lemma_positive_mark(mark_price);
    }
    let liq = match compute_liquidation_price(position, mmr) {
        Some(l) => l,
        None => return None,
    };
    let d = match position.side {
        Side::Long => mark_price.checked_sub(liq),
        Side::Short => liq.checked_sub(mark_price),
    };
    let d = match d {
        Some(d) => d,
        None => return None,
    };
    let q = d.checked_div(mark_price);
    proof {
        if let Some(qq) = q {
            lemma_sign_of_quotient(qq.mant(), d.mant(), mark_price.mant());
        }
    }
    q
}

/// Distance from the current mark to the liquidation price, as a fraction of the
/// mark. Positive = safe, negative = already past liquidation; zero for a
/// non-positive mark.
pub fn liquidation_buffer_pct(position: &Position, mark_price: Dec, mmr: Dec) -> (r: Dec)
    requires
        spec_liquidation_buffer_pct(*position, mark_price, mmr) is Some,
    ensures
        Some(r) == spec_liquidation_buffer_pct(*position, mark_price, mmr),
        r.valid(),
        buffer_agrees_with_liquidation(*position, mark_price, mmr, r),
{
    compute_liquidation_buffer_pct(position, mark_price, mmr).unwrap()
}

/// `liquidation_buffer_pct`, or `None` where it would overflow.
pub fn try_liquidation_buffer_pct(position: &Position, mark_price: Dec, mmr: Dec) -> (r: Option<Dec>)
    ensures
        r == spec_liquidation_buffer_pct(*position, mark_price, mmr),
{
    match compute_liquidation_buffer_pct(position, mark_price, mmr) {
        Some(_) => Some(liquidation_buffer_pct(position, mark_price, mmr)),
        None => None,
    }
}

/// Notional of each position at its mark (see `spec_mark_for`).
pub open spec fn notional_terms(positions: Seq<Position>, marks: Map<Seq<char>, Dec>) -> Seq<Option<Dec>> {
    positions.map_values(|p: Position| p.spec_notional(spec_mark_for(p, marks)))
}

/// Margin of each position at its mark.
pub open spec fn margin_terms(positions: Seq<Position>, marks: Map<Seq<char>, Dec>) -> Seq<Option<Dec>> {
    positions.map_values(|p: Position| spec_margin_used(p, spec_mark_for(p, marks)))
}

/// Signed notional of each position at its mark.
pub open spec fn delta_terms(positions: Seq<Position>, marks: Map<Seq<char>, Dec>) -> Seq<Option<Dec>> {
    positions.map_values(|p: Position| p.spec_signed_notional(spec_mark_for(p, marks)))
}

fn compute_portfolio_notional(positions: &[Position], mark_prices: &PriceMap) -> (r: Option<Dec>)
    ensures
        r == spec_sum(notional_terms(positions@, mark_prices.view())),
{
    let ghost terms = notional_terms(positions@, mark_prices.view());
    let mut acc = Dec::zero();
    let mut i: usize = 0;
    assert(terms.take(0) =~= Seq::<Option<Dec>>::empty());
    while i < positions.len()
        invariant
            terms == notional_terms(positions@, mark_prices.view()),
            i <= positions@.len(),
            Some(acc) == spec_sum(terms.take(i as int)),
        decreases positions@.len() - i,
    {
        proof {
            lemma_sum_step(terms, i as int);
        }
        let mark = mark_for(&positions[i], mark_prices);
        let t = match positions[i].try_notional_usd(mark) {
            Some(t) => t,
            None => {
                proof {
                    lemma_sum_none_extends(terms, i + 1);
                }
                return None;
            },
        };
        acc = match acc.checked_add(t) {
            Some(a) => a,
            None => {
                proof {
                    lemma_sum_none_extends(terms, i + 1);
                }
                return None;
            },
        };
        i = i + 1;
    }
    assert(terms.take(positions@.len() as int) =~= terms);
    Some(acc)
}

/// Total notional across all positions, valued at the supplied marks (keyed by
/// uppercased asset name), falling back to `entry_price` where a mark is missing.
pub fn portfolio_notional(positions: &[Position], mark_prices: &PriceMap) -> (r: Dec)
    requires
        spec_sum(notional_terms(positions@, mark_prices.view())) is Some,
    ensures
        Some(r) == spec_sum(notional_terms(positions@, mark_prices.view())),
{
    compute_portfolio_notional(positions, mark_prices).unwrap()
}

/// `portfolio_notional`, or `None` where it would overflow.
pub fn try_portfolio_notional(positions: &[Position], mark_prices: &PriceMap) -> (r: Option<Dec>)
    ensures
        r == spec_sum(notional_terms(positions@, mark_prices.view())),
{
    match compute_portfolio_notional(positions, mark_prices) {
        Some(_) => Some(portfolio_notional(positions, mark_prices)),
        None => None,
    }
}

fn compute_portfolio_margin(positions: &[Position], mark_prices: &PriceMap) -> (r: Option<Dec>)
    ensures
        r == spec_sum(margin_terms(positions@, mark_prices.view())),
{
    let ghost terms = margin_terms(positions@, mark_prices.view());
    let mut acc = Dec::zero();
    let mut i: usize = 0;
    assert(terms.take(0) =~= Seq::<Option<Dec>>::empty());
    while i < positions.len()
        invariant
            terms == margin_terms(positions@, mark_prices.view()),
            i <= positions@.len(),
            Some(acc) == spec_sum(terms.take(i as int)),
        decreases positions@.len() - i,
    {
        proof {
            lemma_sum_step(terms, i as int);
        }
        let mark = mark_for(&positions[i], mark_prices);
        let t = match try_margin_used(&positions[i], mark) {
            Some(t) => t,
            None => {
                proof {
                    lemma_sum_none_extends(terms, i + 1);
                }
                return None;
            },
        };
        acc = match acc.checked_add(t) {
            Some(a) => a,
            None => {
                proof {
                    lemma_sum_none_extends(terms, i + 1);
                }
                return None;
            },
        };
        i = i + 1;
    }
    assert(terms.take(positions@.len() as int) =~= terms);
    Some(acc)
}

/// Total simulated margin used across all positions, at the supplied marks.
pub fn portfolio_margin(positions: &[Position], mark_prices: &PriceMap) -> (r: Dec)
    requires
        spec_sum(margin_terms(positions@, mark_prices.view())) is Some,
    ensures
        Some(r) == spec_sum(margin_terms(positions@, mark_prices.view())),
{
    compute_portfolio_margin(positions, mark_prices).unwrap()
}

/// `portfolio_margin`, or `None` where it would overflow.
pub fn try_portfolio_margin(positions: &[Position], mark_prices: &PriceMap) -> (r: Option<Dec>)
    ensures
        r == spec_sum(margin_terms(positions@, mark_prices.view())),
{
    match compute_portfolio_margin(positions, mark_prices) {
        Some(_) => Some(portfolio_margin(positions, mark_prices)),
        None => None,
    }
}

/// The spot hedge leg of a perp position: opposite side, same size, entered at
/// `mark_price`, 1x, margin equal to its notional, no liquidation price.
pub open spec fn spec_hedge_position(p: Position, mark_price: Dec) -> Position {
    Position {
        venue: p.venue,
        asset: p.asset,
        side: p.side.spec_flip(),
        size: p.size,
        entry_price: mark_price,
        leverage: Dec::spec_one(),
        margin_used: p.spec_notional(mark_price)->0,
        liquidation_price: None,
    }
}

/// A book made of a position and its hedge, both valued at one mark: the
/// supplied mark of the asset, or (without one) equal entry prices.
pub open spec fn is_hedged_pair(positions: Seq<Position>, marks: Map<Seq<char>, Dec>) -> bool {
    &&& positions.len() == 2
    &&& positions[1] == spec_hedge_position(positions[0], positions[1].entry_price)
    &&& (marks.contains_key(upper_seq(positions[0].asset@)) || positions[0].entry_price
        == positions[1].entry_price)
}

fn compute_net_delta_usd(positions: &[Position], mark_prices: &PriceMap) -> (r: Option<Dec>)
    ensures
        r == spec_sum(delta_terms(positions@, mark_prices.view())),
        r matches Some(d) ==> (is_hedged_pair(positions@, mark_prices.view()) ==> d.mant() == 0),
{
    let ghost terms = delta_terms(positions@, mark_prices.view());
    let ghost hedged = is_hedged_pair(positions@, mark_prices.view());
    let ghost mut first = Dec::spec_zero();
    let mut acc = Dec::zero();
    let mut i: usize = 0;
    assert(terms.take(0) =~= Seq::<Option<Dec>>::empty());
    while i < positions.len()
        invariant
            terms == delta_terms(positions@, mark_prices.view()),
            hedged == is_hedged_pair(positions@, mark_prices.view()),
            i <= positions@.len(),
            Some(acc) == spec_sum(terms.take(i as int)),
            hedged && i == 1 ==> acc == first && terms[0] == Some(first) && first.valid(),
            hedged && i == 2 ==> acc.mant() == 0,
        decreases positions@.len() - i,
    {
        proof {
            lemma_sum_step(terms, i as int);
        }
        let mark = mark_for(&positions[i], mark_prices);
        let t = match positions[i].try_notional_usd(mark) {
            Some(_) => positions[i].signed_notional(mark),
            None => {
                proof {
                    lemma_sum_none_extends(terms, i + 1);
                }
                return None;
            },
        };
        proof {
            if hedged && i == 1 {
                let p0 = positions@[0];
                let p1 = positions@[1];
                assert(p1.asset == p0.asset);
                assert(spec_mark_for(p1, mark_prices.view()) == spec_mark_for(p0, mark_prices.view()));
            }
        }
        let ghost before = acc;
        acc = match acc.checked_add(t) {
            Some(a) => a,
            None => {
                proof {
                    lemma_sum_none_extends(terms, i + 1);
                }
                return None;
            },
        };
        proof {
            if hedged && i == 0 {
                first = t;
            }
        }
        i = i + 1;
    }
    assert(terms.take(positions@.len() as int) =~= terms);
    Some(acc)
}

/// Net directional exposure across all positions, in USD: the sum of each
/// position's signed notional at the supplied marks (entry price where a mark is
/// missing). A position together with its hedge at a common mark nets to zero.
pub fn net_delta_usd(positions: &[Position], mark_prices: &PriceMap) -> (r: Dec)
    requires
        spec_sum(delta_terms(positions@, mark_prices.view())) is Some,
    ensures
        Some(r) == spec_sum(delta_terms(positions@, mark_prices.view())),
        is_hedged_pair(positions@, mark_prices.view()) ==> r.mant() == 0,
{
    compute_net_delta_usd(positions, mark_prices).unwrap()
}

/// `net_delta_usd`, or `None` where it would overflow.
pub fn try_net_delta_usd(positions: &[Position], mark_prices: &PriceMap) -> (r: Option<Dec>)
    ensures
        r == spec_sum(delta_terms(positions@, mark_prices.view())),
{
    match compute_net_delta_usd(positions, mark_prices) {
        Some(_) => Some(net_delta_usd(positions, mark_prices)),
        None => None,
    }
}

/// The spot hedge leg that neutralizes `position`: opposite side, equal size,
/// entered at `mark_price`, leverage 1, margin equal to its notional.
pub fn hedge_position_for(position: &Position, mark_price: Dec) -> (r: Position)
    requires
        position.spec_notional(mark_price) is Some,
    ensures
        r == spec_hedge_position(*position, mark_price),
{
    let notional = position.notional_usd(mark_price);
    Position {
        venue: position.venue,
        asset: position.asset.clone(),
        side: position.side.flip(),
        size: position.size,
        entry_price: mark_price,
        leverage: Dec::one(),
        margin_used: notional,
        liquidation_price: None,
    }
}

/// `hedge_position_for`, or `None` where the notional overflows.
pub fn try_hedge_position_for(position: &Position, mark_price: Dec) -> (r: Option<Position>)
    ensures
        r == (if position.spec_notional(mark_price) is Some {
            Some(spec_hedge_position(*position, mark_price))
        } else {
            None
        }),
{
    match position.try_notional_usd(mark_price) {
        Some(_) => Some(hedge_position_for(position, mark_price)),
        None => None,
    }
}

/// Pairing a position with its hedge at the same mark: the hedge sits on the
/// other side with the same size, so the two signed notionals at any common mark
/// are exact negations of each other.
pub proof fn lemma_hedge_offsets_position(p: Position, mark_price: Dec, mark: Dec)
    requires
        p.spec_notional(mark_price) is Some,
        p.spec_notional(mark) is Some,
        p.spec_notional(mark)->0.valid(),
    ensures
        spec_hedge_position(p, mark_price).spec_signed_notional(mark) == Dec::neg_opt(p.spec_signed_notional(mark)),
{
}

/// The hedge is entered at the mark it is built for: valued at its own entry
/// price it has the position's notional at that mark, which is also the
/// margin it records (it is held at 1x), on the other side with the same size.
pub proof fn lemma_hedge_entered_at_mark(p: Position, mark_price: Dec)
    requires
        p.spec_notional(mark_price) is Some,
    ensures
        ({
            let h = spec_hedge_position(p, mark_price);
            &&& h.spec_notional(h.entry_price) == p.spec_notional(mark_price)
            &&& Some(h.margin_used) == h.spec_notional(h.entry_price)
            &&& h.side == p.side.spec_flip()
            &&& h.size == p.size
            &&& h.leverage == Dec::spec_one()
        }),
{
}

} // verus!
