//! Delta-neutral entry/exit rule on annualized funding, and the portfolio the
//! rule looks at.
//!
//! Sign convention follows Hyperliquid funding: positive APY means longs pay
//! shorts, so funding is collected by going short; negative APY means shorts pay
//! longs, so it is collected by going long.
use vstd::prelude::*;
use crate::decimal::Dec;
use crate::text::{eq_ignore_ascii_case, same_asset};
use crate::types::{FundingRate, Position, Side, Venue};

verus! {

broadcast use crate::decimal::group_dec_parts;

/// Action to take for an asset after evaluating its funding signal.
#[derive(Debug, PartialEq)]
pub enum Decision {
    /// Enter a position in `asset` on `side`, sized to `notional_usd`.
    Open { asset: String, side: Side, notional_usd: Dec },
    /// Exit the existing position in `asset`.
    Close { asset: String },
    /// Do nothing this tick for `asset`.
    Hold { asset: String },
}

/// Per-asset funding signal, already annualized.
#[derive(Debug)]
pub struct FundingSignal {
    pub venue: Venue,
    pub asset: String,
    /// Signed annualized funding rate: `0.10` = 10% APY.
    pub apy: Dec,
}

/// Threshold parameters of the symmetric entry/exit rule.
#[derive(Clone, Copy, Debug)]
pub struct Thresholds {
    /// |APY| at or above this opens a position when none is held.
    pub min_apy_to_enter: Dec,
    /// |APY| strictly below this closes a held position.
    pub max_apy_to_exit: Dec,
}

/// Positions currently held, as the strategy sees them.
#[derive(Debug)]
pub struct PortfolioState {
    pub positions: Vec<Position>,
}

/// Index of the first position in `asset` (ignoring ASCII case).
pub open spec fn index_of_asset(positions: Seq<Position>, asset: Seq<char>) -> Option<int>
    decreases positions.len(),
{
    if positions.len() == 0 {
        None
    } else {
        match index_of_asset(positions.drop_last(), asset) {
            Some(i) => Some(i),
            None => if same_asset(positions.last().asset@, asset) {
                Some(positions.len() - 1)
            } else {
                None
            },
        }
    }
}

/// The positions not in `asset`, in order.
pub open spec fn without_asset(positions: Seq<Position>, asset: Seq<char>) -> Seq<Position>
    decreases positions.len(),
{
    if positions.len() == 0 {
        positions
    } else if same_asset(positions.last().asset@, asset) {
        without_asset(positions.drop_last(), asset)
    } else {
        without_asset(positions.drop_last(), asset).push(positions.last())
    }
}

/// No two positions share an asset.
pub open spec fn assets_distinct(positions: Seq<Position>) -> bool {
    forall|i: int, j: int|
        0 <= i < j < positions.len() ==> !same_asset(#[trigger] positions[i].asset@, #[trigger] positions[j].asset@)
}

/// Positions after `open(position)`: any position in the same asset replaced.
pub open spec fn spec_open(positions: Seq<Position>, position: Position) -> Seq<Position> {
    without_asset(positions, position.asset@).push(position)
}

/// Positions after `close(asset)`, and the position taken out.
pub open spec fn spec_close(positions: Seq<Position>, asset: Seq<char>) -> (Seq<Position>, Option<Position>) {
    match index_of_asset(positions, asset) {
        Some(i) => (positions.remove(i), Some(positions[i])),
        None => (positions, None),
    }
}

proof fn lemma_index_of_asset(positions: Seq<Position>, asset: Seq<char>)
    ensures
        match index_of_asset(positions, asset) {
            Some(i) => 0 <= i < positions.len() && same_asset(positions[i].asset@, asset) && forall|k: int|
                0 <= k < i ==> !same_asset(#[trigger] positions[k].asset@, asset),
            None => forall|k: int| 0 <= k < positions.len() ==> !same_asset(#[trigger] positions[k].asset@, asset),
        },
    decreases positions.len(),
{
    if positions.len() > 0 {
        lemma_index_of_asset(positions.drop_last(), asset);
        match index_of_asset(positions.drop_last(), asset) {
            Some(i) => {
                assert forall|k: int| 0 <= k < i implies !same_asset(#[trigger] positions[k].asset@, asset) by {
                    assert(positions[k] == positions.drop_last()[k]);
                }
            },
            None => {
                assert forall|k: int| 0 <= k < positions.len() - 1 implies !same_asset(#[trigger] positions[k].asset@, asset) by {
                    assert(positions[k] == positions.drop_last()[k]);
                }
            },
        }
    }
}

proof fn lemma_index_of_asset_first(positions: Seq<Position>, asset: Seq<char>, i: int)
    requires
        0 <= i < positions.len(),
        same_asset(positions[i].asset@, asset),
        forall|k: int| 0 <= k < i ==> !same_asset(#[trigger] positions[k].asset@, asset),
    ensures
        index_of_asset(positions, asset) == Some(i),
{
    lemma_index_of_asset(positions, asset);
}

proof fn lemma_index_of_asset_none(positions: Seq<Position>, asset: Seq<char>)
    requires
        forall|k: int| 0 <= k < positions.len() ==> !same_asset(#[trigger] positions[k].asset@, asset),
    ensures
        index_of_asset(positions, asset) is None,
{
    lemma_index_of_asset(positions, asset);
}

proof fn lemma_without_asset(positions: Seq<Position>, asset: Seq<char>)
    ensures
        forall|k: int| 0 <= k < without_asset(positions, asset).len() ==> !same_asset(#[trigger] without_asset(positions, asset)[k].asset@, asset),
        forall|k: int| 0 <= k < without_asset(positions, asset).len() ==> positions.contains(#[trigger] without_asset(positions, asset)[k]),
        without_asset(positions, asset).len() <= positions.len(),
    decreases positions.len(),
{
    if positions.len() > 0 {
        lemma_without_asset(positions.drop_last(), asset);
        let w = without_asset(positions.drop_last(), asset);
        assert forall|k: int| 0 <= k < w.len() implies positions.contains(#[trigger] w[k]) by {
            let j = choose|j: int| 0 <= j < positions.drop_last().len() && positions.drop_last()[j] == w[k];
            assert(positions[j] == w[k]);
        }
        if !same_asset(positions.last().asset@, asset) {
            assert(positions[positions.len() - 1] == positions.last());
        }
    }
}

proof fn lemma_without_asset_distinct(positions: Seq<Position>, asset: Seq<char>)
    requires
        assets_distinct(positions),
    ensures
        assets_distinct(without_asset(positions, asset)),
    decreases positions.len(),
{
    if positions.len() > 0 {
        let d = positions.drop_last();
        assert(assets_distinct(d)) by {
            assert forall|i: int, j: int| 0 <= i < j < d.len() implies !same_asset(#[trigger] d[i].asset@, #[trigger] d[j].asset@) by {
                assert(d[i] == positions[i] && d[j] == positions[j]);
            }
        }
        lemma_without_asset_distinct(d, asset);
        if !same_asset(positions.last().asset@, asset) {
            let w = without_asset(d, asset);
            lemma_without_asset(d, asset);
            let w2 = w.push(positions.last());
            assert forall|i: int, j: int| 0 <= i < j < w2.len() implies !same_asset(#[trigger] w2[i].asset@, #[trigger] w2[j].asset@) by {
                if j == w.len() {
                    assert(w2[i] == w[i]);
                    assert(d.contains(w[i]));
                    let k = choose|k: int| 0 <= k < d.len() && d[k] == w[i];
                    assert(positions[k] == w[i]);
                    assert(!same_asset(positions[k].asset@, positions[positions.len() - 1].asset@));
                } else {
                    assert(w2[i] == w[i] && w2[j] == w[j]);
                }
            }
        }
    }
}

impl PortfolioState {
    /// An empty portfolio.
    pub fn new() -> (r: PortfolioState)
        ensures
            r.positions@ == Seq::<Position>::empty(),
    {
        PortfolioState { positions: Vec::new() }
    }

    /// Case-insensitive lookup of the (first) position in `asset`.
    pub fn position_for(&self, asset: &str) -> (r: Option<&Position>)
        ensures
            r == (match index_of_asset(self.positions@, asset@) {
                Some(i) => Some(&self.positions@[i]),
                None => None,
            }),
    {
        let mut i: usize = 0;
        while i < self.positions.len()
            invariant
                i <= self.positions@.len(),
                forall|k: int| 0 <= k < i ==> !same_asset(#[trigger] self.positions@[k].asset@, asset@),
            decreases self.positions@.len() - i,
        {
            if eq_ignore_ascii_case(self.positions[i].asset.as_str(), asset) {
                proof {
                    lemma_index_of_asset_first(self.positions@, asset@, i as int);
                }
                return Some(&self.positions[i]);
            }
            i = i + 1;
        }
        proof {
            lemma_index_of_asset_none(self.positions@, asset@);
        }
        None
    }

    /// Replaces any existing position in the same asset (ignoring case) and adds
    /// the new one at the end. Afterwards `position_for` of its asset finds it, and
    /// a book without repeated assets stays so.
    pub fn open(&mut self, position: Position)
        ensures
            final(self).positions@ == spec_open(old(self).positions@, position),
            index_of_asset(final(self).positions@, position.asset@) == Some(final(self).positions@.len() - 1),
            assets_distinct(old(self).positions@) ==> assets_distinct(final(self).positions@),
    {
        let ghost key = position.asset@;
        let ghost old_positions = self.positions@;
        let mut kept: Vec<Position> = Vec::new();
        let mut i: usize = 0;
        while i < self.positions.len()
            invariant
                self.positions@ == old_positions,
                key == position.asset@,
                i <= old_positions.len(),
                kept@ == without_asset(old_positions.take(i as int), key),
            decreases old_positions.len() - i,
        {
            assert(old_positions.take(i as int + 1).drop_last() =~= old_positions.take(i as int));
            assert(old_positions.take(i as int + 1).last() == old_positions[i as int]);
            if !eq_ignore_ascii_case(self.positions[i].asset.as_str(), position.asset.as_str()) {
                kept.push(self.positions[i].duplicate());
            }
            i = i + 1;
        }
        assert(old_positions.take(old_positions.len() as int) =~= old_positions);
        kept.push(position);
        self.positions = kept;
        proof {
            lemma_open_finds_position(old_positions, position);
            if assets_distinct(old_positions) {
                lemma_open_keeps_assets_distinct(old_positions, position);
            }
        }
    }

    /// Removes and returns the (first) position in `asset`, if any (ignoring
    /// case). In a book without repeated assets, none is left in that asset.
    pub fn close(&mut self, asset: &str) -> (r: Option<Position>)
        ensures
            (final(self).positions@, r) == spec_close(old(self).positions@, asset@),
            assets_distinct(old(self).positions@) ==> index_of_asset(final(self).positions@, asset@) is None,
            assets_distinct(old(self).positions@) ==> assets_distinct(final(self).positions@),
    {
        let ghost old_positions = self.positions@;
        let mut i: usize = 0;
        while i < self.positions.len()
            invariant
                self.positions@ == old_positions,
                old(self).positions@ == old_positions,
                i <= old_positions.len(),
                forall|k: int| 0 <= k < i ==> !same_asset(#[trigger] old_positions[k].asset@, asset@),
            decreases old_positions.len() - i,
        {
            if eq_ignore_ascii_case(self.positions[i].asset.as_str(), asset) {
                proof {
                    lemma_index_of_asset_first(old_positions, asset@, i as int);
                }
                let p = self.positions.remove(i);
                proof {
                    let f = self.positions@;
                    assert(f == old_positions.remove(i as int));
                    if assets_distinct(old_positions) {
                        assert forall|k: int| 0 <= k < f.len() implies !same_asset(#[trigger] f[k].asset@, asset@) by {
                            if k < i {
                                assert(f[k] == old_positions[k]);
                            } else {
                                assert(f[k] == old_positions[k + 1]);
                                assert(!same_asset(old_positions[i as int].asset@, old_positions[k + 1].asset@));
                                crate::text::lemma_same_asset_symm(old_positions[i as int].asset@, asset@);
                                if same_asset(f[k].asset@, asset@) {
                                    crate::text::lemma_same_asset_symm(f[k].asset@, asset@);
                                    crate::text::lemma_same_asset_trans(old_positions[i as int].asset@, asset@, f[k].asset@);
                                }
                            }
                        }
                        lemma_index_of_asset_none(f, asset@);
                        assert forall|a: int, b: int| 0 <= a < b < f.len() implies !same_asset(#[trigger] f[a].asset@, #[trigger] f[b].asset@) by {
                            let a2 = if a < i { a } else { a + 1 };
                            let b2 = if b < i { b } else { b + 1 };
                            assert(f[a] == old_positions[a2] && f[b] == old_positions[b2]);
                        }
                    }
                }
                return Some(p);
            }
            i = i + 1;
        }
        proof {
            lemma_index_of_asset_none(old_positions, asset@);
        }
        None
    }
}

/// After `open(position)`, the position is the only one in its asset: it is
/// what `position_for` finds.
pub proof fn lemma_open_finds_position(positions: Seq<Position>, position: Position)
    ensures
        index_of_asset(spec_open(positions, position), position.asset@) == Some(spec_open(positions, position).len() - 1),
        forall|k: int|
            0 <= k < spec_open(positions, position).len() - 1 ==> !same_asset(
                #[trigger] spec_open(positions, position)[k].asset@,
                position.asset@,
            ),
{
    let key = position.asset@;
    lemma_without_asset(positions, key);
    let w = without_asset(positions, key);
    let f = spec_open(positions, position);
    crate::text::lemma_same_asset_refl(key);
    assert forall|k: int| 0 <= k < f.len() - 1 implies !same_asset(#[trigger] f[k].asset@, key) by {
        assert(f[k] == w[k]);
    }
    lemma_index_of_asset_first(f, key, f.len() - 1);
}

/// `open` keeps a book without repeated assets so.
pub proof fn lemma_open_keeps_assets_distinct(positions: Seq<Position>, position: Position)
    requires
        assets_distinct(positions),
    ensures
        assets_distinct(spec_open(positions, position)),
{
    let key = position.asset@;
    lemma_without_asset(positions, key);
    lemma_without_asset_distinct(positions, key);
    let w = without_asset(positions, key);
    let f = spec_open(positions, position);
    assert forall|a: int, b: int| 0 <= a < b < f.len() implies !same_asset(#[trigger] f[a].asset@, #[trigger] f[b].asset@) by {
        if b == f.len() - 1 {
            assert(f[a] == w[a]);
            crate::text::lemma_same_asset_symm(f[a].asset@, key);
        } else {
            assert(f[a] == w[a] && f[b] == w[b]);
        }
    }
}

/// Closing the asset of a just-opened position gives that position back and
/// leaves exactly the positions in other assets.
pub proof fn lemma_open_then_close(positions: Seq<Position>, position: Position)
    ensures
        spec_close(spec_open(positions, position), position.asset@) == (without_asset(positions, position.asset@), Some(position)),
{
    lemma_open_finds_position(positions, position);
    let w = without_asset(positions, position.asset@);
    assert(spec_open(positions, position).remove(w.len() as int) =~= w);
}

/// Numeric facts used by the symmetry of the rule.
proof fn lemma_neg_le(a: Dec, b: Dec)
    requires
        a.valid(),
        b.valid(),
    ensures
        a.num_le(b) == b.spec_neg().num_le(a.spec_neg()),
{
    let x = a.mant() * crate::decimal::pow10(b.scl() as nat);
    let y = b.mant() * crate::decimal::pow10(a.scl() as nat);
    assert(b.spec_neg().mant() == -b.mant());
    assert(a.spec_neg().mant() == -a.mant());
    lemma_neg_mul(b.mant(), crate::decimal::pow10(a.scl() as nat));
    lemma_neg_mul(a.mant(), crate::decimal::pow10(b.scl() as nat));
}

proof fn lemma_neg_mul(m: int, p: int)
    ensures
        (-m) * p == -(m * p),
{
    assert((-m) * p == -(m * p)) by (nonlinear_arith);
}

proof fn lemma_positive_not_both(min: Dec, apy: Dec)
    requires
        min.valid(),
        apy.valid(),
        Dec::spec_zero().num_lt(min),
    ensures
        !(min.num_le(apy) && apy.num_le(min.spec_neg())),
{
    crate::decimal::lemma_pow10_positive(apy.scl() as nat);
    crate::decimal::lemma_pow10_positive(min.scl() as nat);
    assert(Dec::spec_zero().mant() == 0 && Dec::spec_zero().scl() == 0);
    assert(crate::decimal::pow10(0) == 1);
    assert(min.mant() > 0);
    let p = crate::decimal::pow10(apy.scl() as nat);
    let q = crate::decimal::pow10(min.scl() as nat);
    assert(min.mant() * p > 0) by (nonlinear_arith)
        requires
            min.mant() > 0,
            p >= 1,
    ;
    assert(min.spec_neg().mant() == -min.mant());
    assert(min.spec_neg().scl() == min.scl());
    lemma_neg_mul(min.mant(), p);
}

/// The rule is symmetric in the sign of funding: with a positive entry
/// threshold and no position held, negating the APY turns an `Open` on one side
/// into an `Open` on the other side (same asset and size), and a `Hold` into a
/// `Hold`.
pub proof fn lemma_decide_symmetric(positions: Seq<Position>, signal: FundingSignal, thresholds: Thresholds, max_notional_usd: Dec)
    requires
        signal.apy.valid(),
        thresholds.min_apy_to_enter.valid(),
        Dec::spec_zero().num_lt(thresholds.min_apy_to_enter),
        index_of_asset(positions, signal.asset@) is None,
    ensures
        ({
            let mirrored = FundingSignal { venue: signal.venue, asset: signal.asset, apy: signal.apy.spec_neg() };
            match spec_decide(positions, signal, thresholds, max_notional_usd) {
                Decision::Open { asset, side, notional_usd } => spec_decide(positions, mirrored, thresholds, max_notional_usd)
                    == Decision::Open { asset, side: side.spec_flip(), notional_usd },
                Decision::Hold { asset } => spec_decide(positions, mirrored, thresholds, max_notional_usd)
                    == Decision::Hold { asset },
                Decision::Close { .. } => false,
            }
        }),
{
    let min = thresholds.min_apy_to_enter;
    let apy = signal.apy;
    lemma_positive_not_both(min, apy);
    lemma_positive_not_both(min, apy.spec_neg());
    lemma_neg_le(min, apy);
    lemma_neg_le(apy, min.spec_neg());
    assert(apy.spec_neg().spec_neg() == apy);
    assert(min.spec_neg().spec_neg() == min);
    assert(min.spec_neg().valid());
}

/// Holding a position, the rule never opens: it closes when `|apy|` has decayed
/// below the exit threshold and otherwise holds (no churn in the dead zone).
/// Without a position it never closes. Every decision names the signal's asset.
pub proof fn lemma_decide_shape(positions: Seq<Position>, signal: FundingSignal, thresholds: Thresholds, max_notional_usd: Dec)
    ensures
        index_of_asset(positions, signal.asset@) is Some ==> (spec_decide(positions, signal, thresholds, max_notional_usd) == if signal.apy.spec_abs().num_lt(thresholds.max_apy_to_exit) {
            Decision::Close { asset: signal.asset }
        } else {
            Decision::Hold { asset: signal.asset }
        }),
        index_of_asset(positions, signal.asset@) is None ==> !(spec_decide(positions, signal, thresholds, max_notional_usd) is Close),
        match spec_decide(positions, signal, thresholds, max_notional_usd) {
            Decision::Open { asset, notional_usd, .. } => asset == signal.asset && notional_usd == max_notional_usd,
            Decision::Close { asset } => asset == signal.asset,
            Decision::Hold { asset } => asset == signal.asset,
        },
{
}

impl Default for PortfolioState {
    fn default() -> (r: PortfolioState)
        ensures
            r.positions@ == Seq::<Position>::empty(),
    {
        PortfolioState::new()
    }
}

/// The symmetric threshold rule.
///
/// * Holding a position in the asset: `Close` if `|apy| < max_apy_to_exit`,
///   else `Hold`.
/// * Not holding one: `Open` Short if `apy >= min_apy_to_enter`, `Open` Long if
///   `apy <= -min_apy_to_enter`, else `Hold`.
pub open spec fn spec_decide(positions: Seq<Position>, signal: FundingSignal, thresholds: Thresholds, max_notional_usd: Dec) -> Decision {
    if index_of_asset(positions, signal.asset@) is Some {
        if signal.apy.spec_abs().num_lt(thresholds.max_apy_to_exit) {
            Decision::Close { asset: signal.asset }
        } else {
            Decision::Hold { asset: signal.asset }
        }
    } else if thresholds.min_apy_to_enter.num_le(signal.apy) {
        Decision::Open { asset: signal.asset, side: Side::Short, notional_usd: max_notional_usd }
    } else if signal.apy.num_le(thresholds.min_apy_to_enter.spec_neg()) {
        Decision::Open { asset: signal.asset, side: Side::Long, notional_usd: max_notional_usd }
    } else {
        Decision::Hold { asset: signal.asset }
    }
}

/// Entry/exit decision for one asset. The dead zone between `max_apy_to_exit`
/// and `min_apy_to_enter` is intentional: a held position is not churned while
/// funding wobbles, and after an exit APY must recover before re-entering.
pub fn decide(state: &PortfolioState, signal: &FundingSignal, thresholds: &Thresholds, max_notional_usd: Dec) -> (r: Decision)
    ensures
        r == spec_decide(state.positions@, *signal, *thresholds, max_notional_usd),
{
    if state.position_for(signal.asset.as_str()).is_some() {
        if signal.apy.abs().lt(&thresholds.max_apy_to_exit) {
            return Decision::Close { asset: signal.asset.clone() };
        }
        return Decision::Hold { asset: signal.asset.clone() };
    }
    if signal.apy.ge(&thresholds.min_apy_to_enter) {
        return Decision::Open { asset: signal.asset.clone(), side: Side::Short, notional_usd: max_notional_usd };
    }
    if signal.apy.le(&thresholds.min_apy_to_enter.neg()) {
        return Decision::Open { asset: signal.asset.clone(), side: Side::Long, notional_usd: max_notional_usd };
    }
    Decision::Hold { asset: signal.asset.clone() }
}

/// Two decisions take the same action (on possibly differently written
/// assets): both open on the same side with the same notional, both close, or
/// both hold.
pub open spec fn same_action(a: Decision, b: Decision) -> bool {
    match (a, b) {
        (Decision::Open { side: s1, notional_usd: n1, .. }, Decision::Open { side: s2, notional_usd: n2, .. }) => s1 == s2 && n1 == n2,
        (Decision::Close { .. }, Decision::Close { .. }) => true,
        (Decision::Hold { .. }, Decision::Hold { .. }) => true,
        _ => false,
    }
}

proof fn lemma_index_of_same_asset(positions: Seq<Position>, a: Seq<char>, b: Seq<char>)
    requires
        same_asset(a, b),
    ensures
        index_of_asset(positions, a) == index_of_asset(positions, b),
    decreases positions.len(),
{
    if positions.len() > 0 {
        lemma_index_of_same_asset(positions.drop_last(), a, b);
    }
}

/// Decisions are per asset and case-insensitive: signals of the same APY for
/// asset names that match ignoring ASCII case lead to the same action.
pub proof fn lemma_decide_ignores_case(
    positions: Seq<Position>,
    a: FundingSignal,
    b: FundingSignal,
    thresholds: Thresholds,
    max_notional_usd: Dec,
)
    requires
        same_asset(a.asset@, b.asset@),
        a.apy == b.apy,
    ensures
        same_action(spec_decide(positions, a, thresholds, max_notional_usd), spec_decide(positions, b, thresholds, max_notional_usd)),
{
    lemma_index_of_same_asset(positions, a.asset@, b.asset@);
}

/// The signal of an observed funding rate: its venue and asset, and the rate
/// annualized.
pub open spec fn spec_signal(fr: FundingRate) -> Option<FundingSignal> {
    match fr.spec_annualized() {
        Some(apy) => Some(FundingSignal { venue: fr.venue, asset: fr.asset, apy }),
        None => None,
    }
}

/// The signal the strategy evaluates for an observed funding rate.
pub fn signal_for(fr: &FundingRate) -> (r: FundingSignal)
    requires
        fr.spec_annualized() is Some,
    ensures
        spec_signal(*fr) == Some(r),
{
    FundingSignal { venue: fr.venue, asset: fr.asset.clone(), apy: fr.annualized() }
}

/// `signal_for`, or `None` where the annualization overflows.
pub fn try_signal_for(fr: &FundingRate) -> (r: Option<FundingSignal>)
    ensures
        r == spec_signal(*fr),
{
    match fr.try_annualized() {
        Some(_) => Some(signal_for(fr)),
        None => None,
    }
}

} // verus!
