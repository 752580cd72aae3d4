//! `stats`: per-asset summaries of the funding log and of the decisions log,
//! as the lines of two tables listed by asset in ascending order.
use vstd::prelude::*;
use crate::decimal::Dec;
use crate::jsonl::{lemma_log_counts, lemma_records_step, malformed_count, records_of, LogLine};
use crate::decisions::{decision_asset, spec_decision_asset, DecisionRecord};
use crate::ordered::{find_key, insert_position, key_position, keyed, lemma_insert_sorted, lemma_key_position, sorted_keys};
use crate::report::{
    age_text, format_age, format_pct_cut, pad_left, pad_right, pct_cut_text, push_count, push_left_aligned,
    push_line, push_line_str, push_right_aligned, push_text, push_skipped_suffix, skipped_suffix, texts,
};
use crate::strategy::Decision;
use crate::text::{decimal_digits, push_str, push_u64};
use crate::executor::{Fill, FillIntent};
use crate::types::{FundingRate, Timestamp};

verus! {

broadcast use crate::decimal::group_dec_parts;

// ---------------------------------------------------------------------------
// Funding log
// ---------------------------------------------------------------------------

/// Observations of one asset: how many, the latest, and the range of their
/// annualized rates.
#[derive(Debug)]
pub struct AssetStats {
    pub count: usize,
    pub last: FundingRate,
    pub min_apy: Dec,
    pub max_apy: Dec,
}

/// Stats of the first observation `fr` of an asset, annualized to `apy`.
pub open spec fn first_stats(fr: FundingRate, apy: Dec) -> AssetStats {
    AssetStats { count: 1, last: fr, min_apy: apy, max_apy: apy }
}

/// Stats `s` after one more observation `fr`, annualized to `apy`: counted,
/// taken as the latest, and widening the range where it falls outside.
pub open spec fn bump_stats(s: AssetStats, fr: FundingRate, apy: Dec) -> AssetStats {
    AssetStats {
        count: (s.count + 1) as usize,
        last: fr,
        min_apy: if apy.num_lt(s.min_apy) { apy } else { s.min_apy },
        max_apy: if s.max_apy.num_lt(apy) { apy } else { s.max_apy },
    }
}

/// Per-asset stats of the observations, keyed by the asset exactly as
/// written, in ascending key order; `None` where an annualization overflows.
pub open spec fn funding_stats(records: Seq<FundingRate>) -> Option<Seq<(Seq<char>, AssetStats)>>
    decreases records.len(),
{
    if records.len() == 0 {
        Some(Seq::empty())
    } else {
        let fr = records.last();
        match (funding_stats(records.drop_last()), fr.spec_annualized()) {
            (Some(rows), Some(apy)) => Some(match key_position(rows, fr.asset@) {
                Some(i) => rows.update(i, (fr.asset@, bump_stats(rows[i].1, fr, apy))),
                None => rows.insert(insert_position(rows, fr.asset@), (fr.asset@, first_stats(fr, apy))),
            }),
            _ => None,
        }
    }
}

/// Header of the funding table.
pub open spec fn funding_header() -> Seq<char> {
    pad_right("asset"@, 6) + " "@ + pad_left("count"@, 6) + " "@ + pad_left("last_seen"@, 14) + " "@
        + pad_left("last_rate"@, 14) + " "@ + pad_left("last_apy"@, 10) + " "@ + pad_left("min_apy"@, 10) + " "@
        + pad_left("max_apy"@, 10)
}

/// Row of the funding table for `asset`, ages counted up to `now`; `None`
/// where a percentage overflows.
pub open spec fn funding_row(asset: Seq<char>, s: AssetStats, now: Timestamp) -> Option<Seq<char>> {
    match (s.last.spec_annualized(), s.min_apy.spec_mul(Dec::spec_from_int(100)), s.max_apy.spec_mul(Dec::spec_from_int(100))) {
        (Some(last_apy), Some(_), Some(_)) => match pct_cut_text(last_apy) {
            Some(last_pct) => Some(
                pad_right(asset, 6) + " "@ + pad_left(decimal_digits(s.count as nat), 6) + " "@
                    + pad_left(age_text(Timestamp::spec_secs_between(s.last.observed_at, now)), 14) + " "@
                    + pad_left(s.last.rate.spec_text(), 14) + " "@ + pad_left(last_pct, 10) + " "@
                    + pad_left(pct_cut_text(s.min_apy).unwrap(), 10) + " "@ + pad_left(pct_cut_text(s.max_apy).unwrap(), 10),
            ),
            None => None,
        },
        _ => None,
    }
}

/// Rows of the funding table, in the order of `rows`.
pub open spec fn funding_rows(rows: Seq<(Seq<char>, AssetStats)>, now: Timestamp) -> Option<Seq<Seq<char>>>
    decreases rows.len(),
{
    if rows.len() == 0 {
        Some(Seq::empty())
    } else {
        match (funding_rows(rows.drop_last(), now), funding_row(rows.last().0, rows.last().1, now)) {
            (Some(t), Some(r)) => Some(t.push(r)),
            _ => None,
        }
    }
}

/// Lines printed for the funding log at `path`: a note when there is no log
/// (`None`) or no parseable observation in it, else the totals and the table.
/// `None` where an annualization or a percentage overflows.
pub open spec fn funding_report(path: Seq<char>, log: Option<Seq<LogLine<FundingRate>>>, now: Timestamp) -> Option<Seq<Seq<char>>> {
    match log {
        None => Some(seq!["no observations recorded yet ("@ + path + ")"@]),
        Some(lines) => {
            let records = records_of(lines);
            let malformed = malformed_count(lines);
            match funding_stats(records) {
                None => None,
                Some(rows) => if rows.len() == 0 {
                    let note = seq!["no parseable observations in "@ + path];
                    Some(if malformed > 0 { note.push("("@ + decimal_digits(malformed) + " malformed lines skipped)"@) } else { note })
                } else {
                    match funding_rows(rows, now) {
                        Some(table) => Some(seq![
                            "funding observations from "@ + path,
                            "total: "@ + decimal_digits(records.len()) + " observations across "@ + decimal_digits(rows.len())
                                + " asset(s)"@ + skipped_suffix(malformed),
                            Seq::empty(),
                            funding_header(),
                        ] + table),
                        None => None,
                    }
                },
            }
        },
    }
}

/// The key of each row is the asset of its latest observation, and its count
/// is at most the number of observations taken in.
pub open spec fn stats_rows_ok(rows: Seq<(Seq<char>, AssetStats)>, n: nat) -> bool {
    &&& sorted_keys(rows)
    &&& forall|i: int| 0 <= i < rows.len() ==> #[trigger] rows[i].1.count <= n && rows[i].1.last.asset@ == rows[i].0
}

#[verifier::rlimit(40)]
proof fn lemma_funding_stats_ok(records: Seq<FundingRate>)
    ensures
        funding_stats(records) matches Some(rows) ==> stats_rows_ok(rows, records.len()),
    decreases records.len(),
{
    if records.len() > 0 {
        lemma_funding_stats_ok(records.drop_last());
        let fr = records.last();
        if let (Some(rows), Some(apy)) = (funding_stats(records.drop_last()), fr.spec_annualized()) {
            lemma_key_position(rows, fr.asset@);
            match key_position(rows, fr.asset@) {
                Some(i) => {
                    let r2 = rows.update(i, (fr.asset@, bump_stats(rows[i].1, fr, apy)));
                    assert(sorted_keys(r2)) by {
                        assert forall|a: int, b: int| 0 <= a < b < r2.len() implies crate::ordered::key_lt(#[trigger] r2[a].0, #[trigger] r2[b].0) by {
                            assert(r2[a].0 == rows[a].0 && r2[b].0 == rows[b].0);
                        }
                    }
                    assert forall|j: int| 0 <= j < r2.len() implies #[trigger] r2[j].1.count <= records.len() && r2[j].1.last.asset@ == r2[j].0 by {
                        if j != i {
                            assert(r2[j] == rows[j]);
                        }
                    }
                },
                None => {
                    lemma_insert_sorted(rows, fr.asset@, first_stats(fr, apy));
                    let p = insert_position(rows, fr.asset@);
                    crate::ordered::lemma_insert_position(rows, fr.asset@);
                    let r2 = rows.insert(p, (fr.asset@, first_stats(fr, apy)));
                    assert forall|j: int| 0 <= j < r2.len() implies #[trigger] r2[j].1.count <= records.len() && r2[j].1.last.asset@ == r2[j].0 by {
                        if j < p {
                            assert(r2[j] == rows[j]);
                        } else if j > p {
                            assert(r2[j] == rows[j - 1]);
                        }
                    }
                },
            }
        }
    }
}

/// Number of observations of the asset written exactly `k`.
pub open spec fn observation_count(records: Seq<FundingRate>, k: Seq<char>) -> nat
    decreases records.len(),
{
    if records.len() == 0 {
        0
    } else {
        observation_count(records.drop_last(), k) + if records.last().asset@ == k { 1nat } else { 0nat }
    }
}

/// The funding table has one row per asset observed, and each row counts
/// exactly the observations of its asset.
pub proof fn lemma_funding_rows_count(records: Seq<FundingRate>)
    requires
        records.len() <= usize::MAX,
    ensures
        funding_stats(records) matches Some(rows) ==> {
            &&& forall|i: int| 0 <= i < rows.len() ==> (#[trigger] rows[i]).1.count == observation_count(records, rows[i].0)
            &&& forall|j: int| 0 <= j < records.len() ==> #[trigger] key_position(rows, records[j].asset@) is Some
            &&& forall|k: Seq<char>| key_position(rows, k) is None ==> #[trigger] observation_count(records, k) == 0
        },
    decreases records.len(),
{
    if records.len() > 0 {
        let d = records.drop_last();
        lemma_funding_rows_count(d);
        lemma_funding_stats_ok(d);
        lemma_funding_stats_ok(records);
        let fr = records.last();
        if let (Some(rows), Some(apy)) = (funding_stats(d), fr.spec_annualized()) {
            let k = fr.asset@;
            lemma_key_position(rows, k);
            let now = funding_stats(records).unwrap();
            lemma_key_position(now, k);
            match key_position(rows, k) {
                Some(p) => {
                    assert forall|i: int| 0 <= i < now.len() implies (#[trigger] now[i]).1.count == observation_count(records, now[i].0) by {
                        if i != p {
                            assert(now[i] == rows[i]);
                        }
                    }
                    assert forall|k2: Seq<char>| key_position(now, k2) is None implies #[trigger] observation_count(records, k2) == 0 by {
                        lemma_key_position(now, k2);
                        lemma_key_position(rows, k2);
                        if let Some(q) = key_position(rows, k2) {
                            assert(now[q].0 == rows[q].0);
                        }
                        assert(now[p].0 == k);
                        assert(k2 != k);
                        assert(key_position(rows, k2) is None);
                        assert(observation_count(d, k2) == 0);
                    }
                    assert forall|j: int| 0 <= j < records.len() implies #[trigger] key_position(now, records[j].asset@) is Some by {
                        lemma_key_position(now, records[j].asset@);
                        if j < d.len() {
                            assert(records[j] == d[j]);
                            lemma_key_position(rows, d[j].asset@);
                            let q = key_position(rows, d[j].asset@)->0;
                            assert(now[q].0 == rows[q].0);
                        } else {
                            assert(now[p].0 == k);
                        }
                    }
                },
                None => {
                    let p = insert_position(rows, k);
                    crate::ordered::lemma_insert_position(rows, k);
                    assert(observation_count(d, k) == 0);
                    assert forall|i: int| 0 <= i < now.len() implies (#[trigger] now[i]).1.count == observation_count(records, now[i].0) by {
                        if i < p {
                            assert(now[i] == rows[i]);
                        } else if i > p {
                            assert(now[i] == rows[i - 1]);
                        }
                    }
                    assert forall|k2: Seq<char>| key_position(now, k2) is None implies #[trigger] observation_count(records, k2) == 0 by {
                        lemma_key_position(now, k2);
                        lemma_key_position(rows, k2);
                        if let Some(q) = key_position(rows, k2) {
                            let q2 = if q < p { q } else { q + 1 };
                            assert(now[q2] == rows[q]);
                        }
                        assert(now[p].0 == k);
                        assert(k2 != k);
                        assert(key_position(rows, k2) is None);
                        assert(observation_count(d, k2) == 0);
                    }
                    assert forall|j: int| 0 <= j < records.len() implies #[trigger] key_position(now, records[j].asset@) is Some by {
                        lemma_key_position(now, records[j].asset@);
                        if j < d.len() {
                            assert(records[j] == d[j]);
                            lemma_key_position(rows, d[j].asset@);
                            let q = key_position(rows, d[j].asset@)->0;
                            let q2 = if q < p { q } else { q + 1 };
                            assert(now[q2] == rows[q]);
                        } else {
                            assert(now[p].0 == k);
                        }
                    }
                },
            }
        }
    }
}

/// The annualized rate of every observation of `k` lies in `[lo, hi]`.
pub open spec fn apys_within(records: Seq<FundingRate>, k: Seq<char>, lo: Dec, hi: Dec) -> bool {
    forall|j: int|
        0 <= j < records.len() && (#[trigger] records[j]).asset@ == k ==> (records[j].spec_annualized() matches Some(a)
            && lo.num_le(a) && a.num_le(hi))
}

/// Some observation of `k` has annualized rate `v`.
pub open spec fn apy_attained(records: Seq<FundingRate>, k: Seq<char>, v: Dec) -> bool {
    exists|j: int| 0 <= j < records.len() && (#[trigger] records[j]).asset@ == k && records[j].spec_annualized() == Some(v)
}

/// The range of a row: every observation of its asset annualizes into
/// `[min_apy, max_apy]`, and both ends are the APY of one of them.
pub open spec fn apy_range_of(records: Seq<FundingRate>, row: (Seq<char>, AssetStats)) -> bool {
    &&& apys_within(records, row.0, row.1.min_apy, row.1.max_apy)
    &&& apy_attained(records, row.0, row.1.min_apy)
    &&& apy_attained(records, row.0, row.1.max_apy)
}

proof fn lemma_range_other_row(d: Seq<FundingRate>, fr: FundingRate, row: (Seq<char>, AssetStats))
    requires
        row.0 != fr.asset@,
        apy_range_of(d, row),
    ensures
        apy_range_of(d.push(fr), row),
{
    let records = d.push(fr);
    assert forall|j: int| 0 <= j < records.len() && (#[trigger] records[j]).asset@ == row.0 implies (
    records[j].spec_annualized() matches Some(a) && row.1.min_apy.num_le(a) && a.num_le(row.1.max_apy)) by {
        assert(j != d.len());
        assert(d[j] == records[j]);
    }
    let jm = choose|j: int| 0 <= j < d.len() && (#[trigger] d[j]).asset@ == row.0 && d[j].spec_annualized() == Some(row.1.min_apy);
    assert(records[jm] == d[jm]);
    let jx = choose|j: int| 0 <= j < d.len() && (#[trigger] d[j]).asset@ == row.0 && d[j].spec_annualized() == Some(row.1.max_apy);
    assert(records[jx] == d[jx]);
}

proof fn lemma_range_bumped(d: Seq<FundingRate>, fr: FundingRate, old: AssetStats, apy: Dec)
    requires
        apy_range_of(d, (fr.asset@, old)),
        fr.spec_annualized() == Some(apy),
    ensures
        apy_range_of(d.push(fr), (fr.asset@, bump_stats(old, fr, apy))),
{
    let records = d.push(fr);
    let k = fr.asset@;
    let new = bump_stats(old, fr, apy);
    let last = d.len() as int;
    assert(records[last] == fr);
    if apy.num_lt(old.min_apy) {
        assert(new.min_apy == apy);
    } else {
        assert(old.min_apy.num_le(apy));
    }
    if old.max_apy.num_lt(apy) {
        assert(new.max_apy == apy);
    } else {
        assert(apy.num_le(old.max_apy));
    }
    assert(new.min_apy.num_le(old.min_apy));
    assert(old.max_apy.num_le(new.max_apy));
    assert(new.min_apy.num_le(apy) && apy.num_le(new.max_apy));
    assert forall|j: int| 0 <= j < records.len() && (#[trigger] records[j]).asset@ == k implies (
    records[j].spec_annualized() matches Some(a) && new.min_apy.num_le(a) && a.num_le(new.max_apy)) by {
        if j != last {
            assert(d[j] == records[j]);
            let a = records[j].spec_annualized()->0;
            crate::decimal::lemma_num_le_trans(new.min_apy, old.min_apy, a);
            crate::decimal::lemma_num_le_trans(a, old.max_apy, new.max_apy);
        }
    }
    if new.min_apy != apy {
        let jm = choose|j: int| 0 <= j < d.len() && (#[trigger] d[j]).asset@ == k && d[j].spec_annualized() == Some(old.min_apy);
        assert(records[jm] == d[jm]);
    }
    if new.max_apy != apy {
        let jx = choose|j: int| 0 <= j < d.len() && (#[trigger] d[j]).asset@ == k && d[j].spec_annualized() == Some(old.max_apy);
        assert(records[jx] == d[jx]);
    }
}

proof fn lemma_range_first(d: Seq<FundingRate>, fr: FundingRate, apy: Dec)
    requires
        forall|j: int| 0 <= j < d.len() ==> (#[trigger] d[j]).asset@ != fr.asset@,
        fr.spec_annualized() == Some(apy),
    ensures
        apy_range_of(d.push(fr), (fr.asset@, first_stats(fr, apy))),
{
    let records = d.push(fr);
    let last = d.len() as int;
    assert(records[last] == fr);
    assert forall|j: int| 0 <= j < records.len() && (#[trigger] records[j]).asset@ == fr.asset@ implies (
    records[j].spec_annualized() matches Some(a) && apy.num_le(a) && a.num_le(apy)) by {
        if j != last {
            assert(d[j] == records[j]);
        }
    }
}

proof fn lemma_apy_range_aux(records: Seq<FundingRate>)
    ensures
        funding_stats(records) matches Some(rows) ==> {
            &&& forall|i: int| 0 <= i < rows.len() ==> apy_range_of(records, #[trigger] rows[i])
            &&& forall|j: int| 0 <= j < records.len() ==> #[trigger] key_position(rows, records[j].asset@) is Some
        },
    decreases records.len(),
{
    if records.len() > 0 {
        let d = records.drop_last();
        let fr = records.last();
        assert(records =~= d.push(fr));
        lemma_apy_range_aux(d);
        lemma_funding_stats_ok(d);
        lemma_funding_stats_ok(records);
        if let (Some(rows), Some(apy)) = (funding_stats(d), fr.spec_annualized()) {
            let k = fr.asset@;
            lemma_key_position(rows, k);
            let now = funding_stats(records).unwrap();
            lemma_key_position(now, k);
            match key_position(rows, k) {
                Some(p) => {
                    assert(now == rows.update(p, (k, bump_stats(rows[p].1, fr, apy))));
                    lemma_range_bumped(d, fr, rows[p].1, apy);
                    assert forall|i: int| 0 <= i < now.len() implies apy_range_of(records, #[trigger] now[i]) by {
                        if i != p {
                            assert(now[i] == rows[i]);
                            if rows[i].0 == k {
                                assert(key_position(rows, k) == Some(i));
                            }
                            lemma_range_other_row(d, fr, rows[i]);
                        }
                    }
                    assert forall|j: int| 0 <= j < records.len() implies #[trigger] key_position(now, records[j].asset@) is Some by {
                        lemma_key_position(now, records[j].asset@);
                        if j < d.len() {
                            assert(records[j] == d[j]);
                            lemma_key_position(rows, d[j].asset@);
                            let q = key_position(rows, d[j].asset@)->0;
                            assert(now[q].0 == rows[q].0);
                        } else {
                            assert(now[p].0 == k);
                        }
                    }
                },
                None => {
                    let p = insert_position(rows, k);
                    crate::ordered::lemma_insert_position(rows, k);
                    assert(now == rows.insert(p, (k, first_stats(fr, apy))));
                    assert forall|j: int| 0 <= j < d.len() implies (#[trigger] d[j]).asset@ != k by {
                        assert(key_position(rows, d[j].asset@) is Some);
                    }
                    lemma_range_first(d, fr, apy);
                    assert forall|i: int| 0 <= i < now.len() implies apy_range_of(records, #[trigger] now[i]) by {
                        if i < p {
                            assert(now[i] == rows[i]);
                            lemma_range_other_row(d, fr, rows[i]);
                        } else if i > p {
                            assert(now[i] == rows[i - 1]);
                            lemma_range_other_row(d, fr, rows[i - 1]);
                        }
                    }
                    assert forall|j: int| 0 <= j < records.len() implies #[trigger] key_position(now, records[j].asset@) is Some by {
                        lemma_key_position(now, records[j].asset@);
                        if j < d.len() {
                            assert(records[j] == d[j]);
                            lemma_key_position(rows, d[j].asset@);
                            let q = key_position(rows, d[j].asset@)->0;
                            let q2 = if q < p { q } else { q + 1 };
                            assert(now[q2] == rows[q]);
                        } else {
                            assert(now[p].0 == k);
                        }
                    }
                },
            }
        }
    }
}

/// The funding table's APY range is the range of the observations: every
/// observation of a row's asset annualizes to at least the row's `min_apy`
/// and at most its `max_apy`, and each of the two is the annualized rate of
/// one of those observations.
pub proof fn lemma_funding_apy_range(records: Seq<FundingRate>)
    ensures
        funding_stats(records) matches Some(rows) ==> forall|i: int|
            0 <= i < rows.len() ==> apy_range_of(records, #[trigger] rows[i]),
{
    lemma_apy_range_aux(records);
}

fn funding_row_text(asset: &str, s: &AssetStats, now: Timestamp) -> (r: Option<String>)
    ensures
        match (r, funding_row(asset@, *s, now)) {
            (Some(t), Some(u)) => t@ == u,
            (None, None) => true,
            _ => false,
        },
{
    let last_apy = match s.last.try_annualized() {
        Some(a) => a,
        None => return None,
    };
    let last_pct = match format_pct_cut(last_apy) {
        Some(t) => t,
        None => return None,
    };
    let min_pct = match format_pct_cut(s.min_apy) {
        Some(t) => t,
        None => return None,
    };
    let max_pct = match format_pct_cut(s.max_apy) {
        Some(t) => t,
        None => return None,
    };
    let mut out: Vec<char> = Vec::new();
    push_left_aligned(&mut out, asset, 6);
    push_str(&mut out, " ");
    push_count(&mut out, s.count as u64, 6);
    push_str(&mut out, " ");
    let age = format_age(Timestamp::secs_between(&s.last.observed_at, &now));
    push_right_aligned(&mut out, age.as_str(), 14);
    push_str(&mut out, " ");
    let rate = s.last.rate.to_text();
    push_right_aligned(&mut out, rate.as_str(), 14);
    push_str(&mut out, " ");
    push_right_aligned(&mut out, last_pct.as_str(), 10);
    push_str(&mut out, " ");
    push_right_aligned(&mut out, min_pct.as_str(), 10);
    push_str(&mut out, " ");
    push_right_aligned(&mut out, max_pct.as_str(), 10);
    let ghost want = funding_row(asset@, *s, now).unwrap();
    assert(out@ =~= want);
    Some(crate::text::string_from_chars(&out))
}

/// Per-asset stats of the records of `lines`, with the number of records and
/// of malformed lines; `None` where an annualization overflows.
fn collect_funding(lines: &Vec<LogLine<FundingRate>>) -> (r: Option<(Vec<(String, AssetStats)>, usize, usize)>)
    ensures
        match (r, funding_stats(records_of(lines@))) {
            (Some((rows, total, malformed)), Some(want)) => keyed(rows@) == want && total == records_of(lines@).len()
                && malformed == malformed_count(lines@),
            (None, None) => true,
            _ => false,
        },
{
    let mut rows: Vec<(String, AssetStats)> = Vec::new();
    let mut total: usize = 0;
    let mut malformed: usize = 0;
    let mut i: usize = 0;
    assert(lines@.take(0) =~= Seq::<LogLine<FundingRate>>::empty());
    assert(keyed(rows@) =~= Seq::<(Seq<char>, AssetStats)>::empty());
    while i < lines.len()
        invariant
            i <= lines@.len(),
            total == records_of(lines@.take(i as int)).len(),
            malformed == malformed_count(lines@.take(i as int)),
            funding_stats(records_of(lines@.take(i as int))) == Some(keyed(rows@)),
            stats_rows_ok(keyed(rows@), total as nat),
        decreases lines@.len() - i,
    {
        proof {
            lemma_records_step(lines@, i as int);
            lemma_log_counts(lines@.take(i as int));
        }
        match &lines[i] {
            LogLine::Blank => {},
            LogLine::Malformed => {
                malformed = malformed + 1;
            },
            LogLine::Record(fr) => {
                let ghost recs = records_of(lines@.take(i as int)).push(*fr);
                assert(recs.drop_last() =~= records_of(lines@.take(i as int)));
                let apy = match fr.try_annualized() {
                    Some(a) => a,
                    None => {
                        proof {
                            assert(funding_stats(recs) is None);
                            lemma_none_extends(lines@, i as int + 1);
                        }
                        return None;
                    },
                };
                let ghost before = keyed(rows@);
                match find_key(&rows, fr.asset.as_str()) {
                    Ok(j) => {
                        proof {
                            lemma_key_position(before, fr.asset@);
                        }
                        let old_stats = &rows[j].1;
                        let min_apy = if apy.lt(&old_stats.min_apy) { apy } else { old_stats.min_apy };
                        let max_apy = if old_stats.max_apy.lt(&apy) { apy } else { old_stats.max_apy };
                        assert(old_stats.count <= total);
                        let s = AssetStats { count: old_stats.count + 1, last: fr.duplicate(), min_apy, max_apy };
                        let key = rows[j].0.clone();
                        proof {
                            lemma_key_position(before, fr.asset@);
                        }
                        rows.set(j, (key, s));
                        assert(keyed(rows@) =~= before.update(j as int, (fr.asset@, bump_stats(before[j as int].1, *fr, apy))));
                    },
                    Err(j) => {
                        proof {
                            crate::ordered::lemma_insert_position(before, fr.asset@);
                        }
                        let s = AssetStats { count: 1, last: fr.duplicate(), min_apy: apy, max_apy: apy };
                        rows.insert(j, (fr.asset.clone(), s));
                        assert(keyed(rows@) =~= before.insert(j as int, (fr.asset@, first_stats(*fr, apy))));
                    },
                }
                total = total + 1;
                proof {
                    lemma_funding_stats_ok(recs);
                }
            },
        }
        i = i + 1;
    }
    assert(lines@.take(lines@.len() as int) =~= lines@);
    Some((rows, total, malformed))
}

proof fn lemma_none_extends(lines: Seq<LogLine<FundingRate>>, k: int)
    requires
        0 <= k <= lines.len(),
        funding_stats(records_of(lines.take(k))) is None,
    ensures
        funding_stats(records_of(lines)) is None,
    decreases lines.len() - k,
{
    if k < lines.len() {
        lemma_records_step(lines, k);
        let recs = records_of(lines.take(k + 1));
        if recs.len() > 0 && recs != records_of(lines.take(k)) {
            assert(recs.drop_last() =~= records_of(lines.take(k)));
        }
        lemma_none_extends(lines, k + 1);
    } else {
        assert(lines.take(k) =~= lines);
    }
}

fn funding_table(rows: &Vec<(String, AssetStats)>, now: Timestamp, lines: &mut Vec<String>) -> (ok: bool)
    ensures
        match funding_rows(keyed(rows@), now) {
            Some(t) => ok && texts(final(lines)@) == texts(old(lines)@) + t,
            None => !ok,
        },
{
    let ghost start = texts(lines@);
    let mut i: usize = 0;
    assert(keyed(rows@).take(0) =~= Seq::<(Seq<char>, AssetStats)>::empty());
    assert(start + Seq::<Seq<char>>::empty() =~= start);
    while i < rows.len()
        invariant
            i <= rows@.len(),
            funding_rows(keyed(rows@).take(i as int), now) matches Some(t) && texts(lines@) == start + t,
        decreases rows@.len() - i,
    {
        let ghost done = funding_rows(keyed(rows@).take(i as int), now).unwrap();
        assert(keyed(rows@).take(i + 1).drop_last() =~= keyed(rows@).take(i as int));
        assert(keyed(rows@)[i as int] == (rows@[i as int].0@, rows@[i as int].1));
        match funding_row_text(rows[i].0.as_str(), &rows[i].1, now) {
            Some(t) => {
                push_text(lines, t);
                assert(texts(lines@) =~= start + done.push(t@));
            },
            None => {
                proof {
                    lemma_rows_none_extends(keyed(rows@), now, i as int + 1);
                }
                return false;
            },
        }
        i = i + 1;
    }
    assert(keyed(rows@).take(rows@.len() as int) =~= keyed(rows@));
    true
}

proof fn lemma_rows_none_extends(rows: Seq<(Seq<char>, AssetStats)>, now: Timestamp, k: int)
    requires
        0 <= k <= rows.len(),
        funding_rows(rows.take(k), now) is None,
    ensures
        funding_rows(rows, now) is None,
    decreases rows.len() - k,
{
    if k < rows.len() {
        assert(rows.take(k + 1).drop_last() =~= rows.take(k));
        lemma_rows_none_extends(rows, now, k + 1);
    } else {
        assert(rows.take(k) =~= rows);
    }
}

/// Lines printed for the funding log at `path` (see `funding_report`).
pub fn report_funding(path: &str, log: Option<&Vec<LogLine<FundingRate>>>, now: Timestamp) -> (r: Option<Vec<String>>)
    ensures
        match (r, funding_report(path@, match log { Some(l) => Some(l@), None => None }, now)) {
            (Some(lines), Some(want)) => texts(lines@) == want,
            (None, None) => true,
            _ => false,
        },
{
    let mut lines: Vec<String> = Vec::new();
    let log = match log {
        None => {
            let mut out: Vec<char> = Vec::new();
            push_str(&mut out, "no observations recorded yet (");
            push_str(&mut out, path);
            push_str(&mut out, ")");
            push_line(&mut lines, &out);
            assert(texts(lines@) =~= seq!["no observations recorded yet ("@ + path@ + ")"@]);
            return Some(lines);
        },
        Some(l) => l,
    };
    let (rows, total, malformed) = match collect_funding(log) {
        Some(c) => c,
        None => return None,
    };
    if rows.len() == 0 {
        let mut out: Vec<char> = Vec::new();
        push_str(&mut out, "no parseable observations in ");
        push_str(&mut out, path);
        push_line(&mut lines, &out);
        if malformed > 0 {
            let mut note: Vec<char> = Vec::new();
            push_str(&mut note, "(");
            push_u64(&mut note, malformed as u64);
            push_str(&mut note, " malformed lines skipped)");
            push_line(&mut lines, &note);
        }
        assert(texts(lines@) =~= funding_report(path@, Some(log@), now).unwrap());
        return Some(lines);
    }
    proof {
        reveal_strlit("");
        assert(""@ =~= Seq::<char>::empty());
        assert(texts(lines@) =~= Seq::<Seq<char>>::empty());
    }
    let mut head: Vec<char> = Vec::new();
    push_str(&mut head, "funding observations from ");
    push_str(&mut head, path);
    assert(head@ =~= "funding observations from "@ + path@);
    push_line(&mut lines, &head);
    let mut totals: Vec<char> = Vec::new();
    push_str(&mut totals, "total: ");
    push_u64(&mut totals, total as u64);
    push_str(&mut totals, " observations across ");
    push_u64(&mut totals, rows.len() as u64);
    push_str(&mut totals, " asset(s)");
    push_skipped_suffix(&mut totals, malformed);
    assert(totals@ =~= "total: "@ + decimal_digits(total as nat) + " observations across "@ + decimal_digits(rows@.len())
        + " asset(s)"@ + skipped_suffix(malformed as nat));
    push_line(&mut lines, &totals);
    push_line_str(&mut lines, "");
    let mut header: Vec<char> = Vec::new();
    push_left_aligned(&mut header, "asset", 6);
    push_str(&mut header, " ");
    push_right_aligned(&mut header, "count", 6);
    push_str(&mut header, " ");
    push_right_aligned(&mut header, "last_seen", 14);
    push_str(&mut header, " ");
    push_right_aligned(&mut header, "last_rate", 14);
    push_str(&mut header, " ");
    push_right_aligned(&mut header, "last_apy", 10);
    push_str(&mut header, " ");
    push_right_aligned(&mut header, "min_apy", 10);
    push_str(&mut header, " ");
    push_right_aligned(&mut header, "max_apy", 10);
    assert(header@ =~= funding_header());
    push_line(&mut lines, &header);
    let ghost before = texts(lines@);
    if !funding_table(&rows, now, &mut lines) {
        return None;
    }
    proof {
        let want = funding_report(path@, Some(log@), now).unwrap();
        let t = funding_rows(keyed(rows@), now).unwrap();
        assert(keyed(rows@).len() == rows@.len());
        assert(before =~= seq![
            "funding observations from "@ + path@,
            "total: "@ + decimal_digits(total as nat) + " observations across "@ + decimal_digits(rows@.len())
                + " asset(s)"@ + skipped_suffix(malformed as nat),
            Seq::empty(),
            funding_header(),
        ]);
        assert(want =~= before + t);
    }
    Some(lines)
}

// ---------------------------------------------------------------------------
// Decisions log
// ---------------------------------------------------------------------------

/// Kind of a decision.
#[derive(Clone, Copy, Debug, PartialEq, Eq, Structural)]
pub enum DecisionKind {
    Open,
    Close,
    Hold,
}

/// Kind of the decision `d`.
pub open spec fn spec_kind_of(d: Decision) -> DecisionKind {
    match d {
        Decision::Open { .. } => DecisionKind::Open,
        Decision::Close { .. } => DecisionKind::Close,
        Decision::Hold { .. } => DecisionKind::Hold,
    }
}

/// Name of a kind: `open`, `close` or `hold`.
pub open spec fn kind_text(k: DecisionKind) -> Seq<char> {
    match k {
        DecisionKind::Open => "open"@,
        DecisionKind::Close => "close"@,
        DecisionKind::Hold => "hold"@,
    }
}

fn kind_of(d: &Decision) -> (r: DecisionKind)
    ensures
        r == spec_kind_of(*d),
{
    match d {
        Decision::Open { .. } => DecisionKind::Open,
        Decision::Close { .. } => DecisionKind::Close,
        Decision::Hold { .. } => DecisionKind::Hold,
    }
}

/// Decisions on one asset: how many of each kind, and the kind and time of
/// the latest.
#[derive(Clone, Copy, Debug)]
pub struct DecisionSummary {
    pub total: usize,
    pub open: usize,
    pub close: usize,
    pub hold: usize,
    pub last_kind: DecisionKind,
    pub last_seen: Timestamp,
}

/// 1 when `b`, else 0.
pub open spec fn one_if(b: bool) -> usize {
    if b { 1 } else { 0 }
}

/// Summary of the first decision `rec` on an asset.
pub open spec fn first_summary(rec: DecisionRecord) -> DecisionSummary {
    let k = spec_kind_of(rec.decision);
    DecisionSummary {
        total: 1,
        open: one_if(k == DecisionKind::Open),
        close: one_if(k == DecisionKind::Close),
        hold: one_if(k == DecisionKind::Hold),
        last_kind: k,
        last_seen: rec.decided_at,
    }
}

/// Summary `s` after one more decision `rec`: counted by kind, and taken as
/// the latest unless it is dated strictly before the latest so far.
pub open spec fn bump_summary(s: DecisionSummary, rec: DecisionRecord) -> DecisionSummary {
    let k = spec_kind_of(rec.decision);
    let newer = !rec.decided_at.spec_before(s.last_seen);
    DecisionSummary {
        total: (s.total + 1) as usize,
        open: (s.open + one_if(k == DecisionKind::Open)) as usize,
        close: (s.close + one_if(k == DecisionKind::Close)) as usize,
        hold: (s.hold + one_if(k == DecisionKind::Hold)) as usize,
        last_kind: if newer { k } else { s.last_kind },
        last_seen: if newer { rec.decided_at } else { s.last_seen },
    }
}

/// Per-asset summaries of the decisions, keyed by the decision's asset
/// exactly as written, in ascending key order.
pub open spec fn decision_stats(records: Seq<DecisionRecord>) -> Seq<(Seq<char>, DecisionSummary)>
    decreases records.len(),
{
    if records.len() == 0 {
        Seq::empty()
    } else {
        let rec = records.last();
        let rows = decision_stats(records.drop_last());
        let k = spec_decision_asset(rec.decision);
        match key_position(rows, k) {
            Some(i) => rows.update(i, (k, bump_summary(rows[i].1, rec))),
            None => rows.insert(insert_position(rows, k), (k, first_summary(rec))),
        }
    }
}

/// Counts of the summaries are bounded by the number of decisions taken in.
pub open spec fn summary_rows_ok(rows: Seq<(Seq<char>, DecisionSummary)>, n: nat) -> bool {
    &&& sorted_keys(rows)
    &&& forall|i: int| 0 <= i < rows.len() ==> {
        &&& #[trigger] rows[i].1.total <= n
        &&& rows[i].1.open <= rows[i].1.total
        &&& rows[i].1.close <= rows[i].1.total
        &&& rows[i].1.hold <= rows[i].1.total
    }
}

#[verifier::rlimit(40)]
proof fn lemma_decision_stats_ok(records: Seq<DecisionRecord>)
    requires
        records.len() <= usize::MAX,
    ensures
        summary_rows_ok(decision_stats(records), records.len()),
    decreases records.len(),
{
    if records.len() > 0 {
        lemma_decision_stats_ok(records.drop_last());
        let rec = records.last();
        let rows = decision_stats(records.drop_last());
        let k = spec_decision_asset(rec.decision);
        lemma_key_position(rows, k);
        match key_position(rows, k) {
            Some(i) => {
                let r2 = rows.update(i, (k, bump_summary(rows[i].1, rec)));
                assert(sorted_keys(r2)) by {
                    assert forall|a: int, b: int| 0 <= a < b < r2.len() implies crate::ordered::key_lt(#[trigger] r2[a].0, #[trigger] r2[b].0) by {
                        assert(r2[a].0 == rows[a].0 && r2[b].0 == rows[b].0);
                    }
                }
                assert forall|j: int| 0 <= j < r2.len() implies #[trigger] r2[j].1.total <= records.len() && r2[j].1.open <= r2[j].1.total
                    && r2[j].1.close <= r2[j].1.total && r2[j].1.hold <= r2[j].1.total by {
                    if j != i {
                        assert(r2[j] == rows[j]);
                    } else {
                        assert(rows[i].1.total <= records.len() - 1);
                        assert(rows[i].1.open <= rows[i].1.total);
                    }
                }
            },
            None => {
                lemma_insert_sorted(rows, k, first_summary(rec));
                let p = insert_position(rows, k);
                crate::ordered::lemma_insert_position(rows, k);
                let r2 = rows.insert(p, (k, first_summary(rec)));
                assert forall|j: int| 0 <= j < r2.len() implies #[trigger] r2[j].1.total <= records.len() && r2[j].1.open <= r2[j].1.total
                    && r2[j].1.close <= r2[j].1.total && r2[j].1.hold <= r2[j].1.total by {
                    if j < p {
                        assert(r2[j] == rows[j]);
                    } else if j > p {
                        assert(r2[j] == rows[j - 1]);
                    }
                }
            },
        }
    }
}

/// Number of decisions on the asset written exactly `k`.
pub open spec fn decision_count(records: Seq<DecisionRecord>, k: Seq<char>) -> nat
    decreases records.len(),
{
    if records.len() == 0 {
        0
    } else {
        decision_count(records.drop_last(), k) + if spec_decision_asset(records.last().decision) == k { 1nat } else { 0nat }
    }
}

/// The decisions table has one row per asset decided on; each row's total
/// counts exactly the decisions on its asset and splits into its opens,
/// closes and holds.
pub proof fn lemma_decision_rows_count(records: Seq<DecisionRecord>)
    requires
        records.len() <= usize::MAX,
    ensures
        forall|i: int| 0 <= i < decision_stats(records).len() ==> {
            &&& (#[trigger] decision_stats(records)[i]).1.total == decision_count(records, decision_stats(records)[i].0)
            &&& decision_stats(records)[i].1.open + decision_stats(records)[i].1.close + decision_stats(records)[i].1.hold
                == decision_stats(records)[i].1.total
        },
        forall|k: Seq<char>| key_position(decision_stats(records), k) is None ==> #[trigger] decision_count(records, k) == 0,
    decreases records.len(),
{
    if records.len() > 0 {
        let d = records.drop_last();
        lemma_decision_rows_count(d);
        lemma_decision_stats_ok(d);
        lemma_decision_stats_ok(records);
        let rec = records.last();
        let rows = decision_stats(d);
        let now = decision_stats(records);
        let k = spec_decision_asset(rec.decision);
        lemma_key_position(rows, k);
        lemma_key_position(now, k);
        match key_position(rows, k) {
            Some(p) => {
                assert forall|i: int| 0 <= i < now.len() implies {
                    &&& (#[trigger] now[i]).1.total == decision_count(records, now[i].0)
                    &&& now[i].1.open + now[i].1.close + now[i].1.hold == now[i].1.total
                } by {
                    if i != p {
                        assert(now[i] == rows[i]);
                    } else {
                        assert(rows[p].1.total <= d.len());
                    }
                }
                assert forall|k2: Seq<char>| key_position(now, k2) is None implies #[trigger] decision_count(records, k2) == 0 by {
                    lemma_key_position(now, k2);
                    lemma_key_position(rows, k2);
                    if let Some(q) = key_position(rows, k2) {
                        assert(now[q].0 == rows[q].0);
                    }
                    assert(now[p].0 == k);
                    assert(k2 != k);
                    assert(decision_count(d, k2) == 0);
                }
            },
            None => {
                let p = insert_position(rows, k);
                crate::ordered::lemma_insert_position(rows, k);
                assert(decision_count(d, k) == 0);
                assert forall|i: int| 0 <= i < now.len() implies {
                    &&& (#[trigger] now[i]).1.total == decision_count(records, now[i].0)
                    &&& now[i].1.open + now[i].1.close + now[i].1.hold == now[i].1.total
                } by {
                    if i < p {
                        assert(now[i] == rows[i]);
                    } else if i > p {
                        assert(now[i] == rows[i - 1]);
                    }
                }
                assert forall|k2: Seq<char>| key_position(now, k2) is None implies #[trigger] decision_count(records, k2) == 0 by {
                    lemma_key_position(now, k2);
                    lemma_key_position(rows, k2);
                    if let Some(q) = key_position(rows, k2) {
                        let q2 = if q < p { q } else { q + 1 };
                        assert(now[q2] == rows[q]);
                    }
                    assert(now[p].0 == k);
                    assert(k2 != k);
                    assert(decision_count(d, k2) == 0);
                }
            },
        }
    }
}

/// Header of the decisions table.
pub open spec fn decisions_header() -> Seq<char> {
    pad_right("asset"@, 6) + " "@ + pad_left("total"@, 7) + " "@ + pad_left("open"@, 6) + " "@ + pad_left("close"@, 6) + " "@
        + pad_left("hold"@, 6) + " "@ + pad_left("last_seen"@, 14) + " "@ + pad_left("last_kind"@, 10)
}

/// Row of the decisions table for `asset`, ages counted up to `now`.
pub open spec fn decision_row(asset: Seq<char>, s: DecisionSummary, now: Timestamp) -> Seq<char> {
    pad_right(asset, 6) + " "@ + pad_left(decimal_digits(s.total as nat), 7) + " "@ + pad_left(decimal_digits(s.open as nat), 6)
        + " "@ + pad_left(decimal_digits(s.close as nat), 6) + " "@ + pad_left(decimal_digits(s.hold as nat), 6) + " "@
        + pad_left(age_text(Timestamp::spec_secs_between(s.last_seen, now)), 14) + " "@ + pad_left(kind_text(s.last_kind), 10)
}

/// Lines printed for the decisions log at `path`: nothing when there is no
/// log or no parseable decision in it, else a blank line, the totals and the
/// table.
pub open spec fn decisions_report(path: Seq<char>, log: Option<Seq<LogLine<DecisionRecord>>>, now: Timestamp) -> Seq<Seq<char>> {
    match log {
        None => Seq::empty(),
        Some(lines) => {
            let records = records_of(lines);
            let rows = decision_stats(records);
            if rows.len() == 0 {
                Seq::empty()
            } else {
                seq![
                    Seq::empty(),
                    "decisions from "@ + path,
                    "total: "@ + decimal_digits(records.len()) + " decisions across "@ + decimal_digits(rows.len()) + " asset(s)"@
                        + skipped_suffix(malformed_count(lines)),
                    Seq::empty(),
                    decisions_header(),
                ] + Seq::new(rows.len(), |i: int| decision_row(rows[i].0, rows[i].1, now))
            }
        },
    }
}

fn collect_decisions(lines: &Vec<LogLine<DecisionRecord>>) -> (r: (Vec<(String, DecisionSummary)>, usize, usize))
    ensures
        keyed(r.0@) == decision_stats(records_of(lines@)),
        r.1 == records_of(lines@).len(),
        r.2 == malformed_count(lines@),
{
    let mut rows: Vec<(String, DecisionSummary)> = Vec::new();
    let mut total: usize = 0;
    let mut malformed: usize = 0;
    let mut i: usize = 0;
    assert(lines@.take(0) =~= Seq::<LogLine<DecisionRecord>>::empty());
    assert(keyed(rows@) =~= Seq::<(Seq<char>, DecisionSummary)>::empty());
    while i < lines.len()
        invariant
            i <= lines@.len(),
            total == records_of(lines@.take(i as int)).len(),
            malformed == malformed_count(lines@.take(i as int)),
            decision_stats(records_of(lines@.take(i as int))) == keyed(rows@),
            summary_rows_ok(keyed(rows@), total as nat),
        decreases lines@.len() - i,
    {
        proof {
            lemma_records_step(lines@, i as int);
            lemma_log_counts(lines@.take(i as int));
        }
        match &lines[i] {
            LogLine::Blank => {},
            LogLine::Malformed => {
                malformed = malformed + 1;
            },
            LogLine::Record(rec) => {
                let ghost recs = records_of(lines@.take(i as int)).push(*rec);
                assert(recs.drop_last() =~= records_of(lines@.take(i as int)));
                let ghost before = keyed(rows@);
                let asset = decision_asset(&rec.decision);
                let k = kind_of(&rec.decision);
                match find_key(&rows, asset) {
                    Ok(j) => {
                        proof {
                            lemma_key_position(before, asset@);
                        }
                        let old_s = rows[j].1;
                        assert(old_s.total <= total);
                        let newer = !rec.decided_at.before(&old_s.last_seen);
                        let s = DecisionSummary {
                            total: old_s.total + 1,
                            open: if k == DecisionKind::Open { old_s.open + 1 } else { old_s.open },
                            close: if k == DecisionKind::Close { old_s.close + 1 } else { old_s.close },
                            hold: if k == DecisionKind::Hold { old_s.hold + 1 } else { old_s.hold },
                            last_kind: if newer { k } else { old_s.last_kind },
                            last_seen: if newer { rec.decided_at } else { old_s.last_seen },
                        };
                        let key = rows[j].0.clone();
                        rows.set(j, (key, s));
                        assert(keyed(rows@) =~= before.update(j as int, (asset@, bump_summary(before[j as int].1, *rec))));
                    },
                    Err(j) => {
                        proof {
                            crate::ordered::lemma_insert_position(before, asset@);
                        }
                        let s = DecisionSummary {
                            total: 1,
                            open: if k == DecisionKind::Open { 1 } else { 0 },
                            close: if k == DecisionKind::Close { 1 } else { 0 },
                            hold: if k == DecisionKind::Hold { 1 } else { 0 },
                            last_kind: k,
                            last_seen: rec.decided_at,
                        };
                        let mut key: Vec<char> = Vec::new();
                        push_str(&mut key, asset);
                        let key = crate::text::string_from_chars(&key);
                        rows.insert(j, (key, s));
                        assert(keyed(rows@) =~= before.insert(j as int, (asset@, first_summary(*rec))));
                    },
                }
                total = total + 1;
                proof {
                    lemma_decision_stats_ok(recs);
                }
            },
        }
        i = i + 1;
    }
    assert(lines@.take(lines@.len() as int) =~= lines@);
    (rows, total, malformed)
}

fn push_kind(out: &mut Vec<char>, k: DecisionKind)
    ensures
        final(out)@ == old(out)@ + pad_left(kind_text(k), 10),
{
    match k {
        DecisionKind::Open => push_right_aligned(out, "open", 10),
        DecisionKind::Close => push_right_aligned(out, "close", 10),
        DecisionKind::Hold => push_right_aligned(out, "hold", 10),
    }
}

fn decision_row_text(asset: &str, s: &DecisionSummary, now: Timestamp) -> (r: String)
    ensures
        r@ == decision_row(asset@, *s, now),
{
    let mut out: Vec<char> = Vec::new();
    push_left_aligned(&mut out, asset, 6);
    push_str(&mut out, " ");
    push_count(&mut out, s.total as u64, 7);
    push_str(&mut out, " ");
    push_count(&mut out, s.open as u64, 6);
    push_str(&mut out, " ");
    push_count(&mut out, s.close as u64, 6);
    push_str(&mut out, " ");
    push_count(&mut out, s.hold as u64, 6);
    push_str(&mut out, " ");
    let age = format_age(Timestamp::secs_between(&s.last_seen, &now));
    push_right_aligned(&mut out, age.as_str(), 14);
    push_str(&mut out, " ");
    push_kind(&mut out, s.last_kind);
    assert(out@ =~= decision_row(asset@, *s, now));
    crate::text::string_from_chars(&out)
}

/// Lines printed for the decisions log at `path` (see `decisions_report`).
pub fn report_decisions(path: &str, log: Option<&Vec<LogLine<DecisionRecord>>>, now: Timestamp) -> (r: Vec<String>)
    ensures
        texts(r@) == decisions_report(path@, match log { Some(l) => Some(l@), None => None }, now),
{
    let mut lines: Vec<String> = Vec::new();
    assert(texts(lines@) =~= Seq::<Seq<char>>::empty());
    let log = match log {
        None => return lines,
        Some(l) => l,
    };
    let (rows, total, malformed) = collect_decisions(log);
    if rows.len() == 0 {
        return lines;
    }
    proof {
        reveal_strlit("");
        assert(""@ =~= Seq::<char>::empty());
    }
    push_line_str(&mut lines, "");
    let mut head: Vec<char> = Vec::new();
    push_str(&mut head, "decisions from ");
    push_str(&mut head, path);
    push_line(&mut lines, &head);
    let mut totals: Vec<char> = Vec::new();
    push_str(&mut totals, "total: ");
    push_u64(&mut totals, total as u64);
    push_str(&mut totals, " decisions across ");
    push_u64(&mut totals, rows.len() as u64);
    push_str(&mut totals, " asset(s)");
    push_skipped_suffix(&mut totals, malformed);
    push_line(&mut lines, &totals);
    push_line_str(&mut lines, "");
    let mut header: Vec<char> = Vec::new();
    push_left_aligned(&mut header, "asset", 6);
    push_str(&mut header, " ");
    push_right_aligned(&mut header, "total", 7);
    push_str(&mut header, " ");
    push_right_aligned(&mut header, "open", 6);
    push_str(&mut header, " ");
    push_right_aligned(&mut header, "close", 6);
    push_str(&mut header, " ");
    push_right_aligned(&mut header, "hold", 6);
    push_str(&mut header, " ");
    push_right_aligned(&mut header, "last_seen", 14);
    push_str(&mut header, " ");
    push_right_aligned(&mut header, "last_kind", 10);
    push_line(&mut lines, &header);
    let ghost kv = keyed(rows@);
    let ghost head_lines = seq![
        Seq::<char>::empty(),
        "decisions from "@ + path@,
        "total: "@ + decimal_digits(total as nat) + " decisions across "@ + decimal_digits(rows@.len()) + " asset(s)"@
            + skipped_suffix(malformed as nat),
        Seq::<char>::empty(),
        decisions_header(),
    ];
    assert(texts(lines@) =~= head_lines);
    let mut i: usize = 0;
    while i < rows.len()
        invariant
            kv == keyed(rows@),
            i <= rows@.len(),
            texts(lines@) == head_lines + Seq::new(i as nat, |j: int| decision_row(kv[j].0, kv[j].1, now)),
        decreases rows@.len() - i,
    {
        assert(kv[i as int] == (rows@[i as int].0@, rows@[i as int].1));
        let t = decision_row_text(rows[i].0.as_str(), &rows[i].1, now);
        push_text(&mut lines, t);
        assert(Seq::new((i + 1) as nat, |j: int| decision_row(kv[j].0, kv[j].1, now)) =~= Seq::new(i as nat, |j: int| decision_row(kv[j].0, kv[j].1, now)).push(t@));
        i = i + 1;
    }
    proof {
        let want = decisions_report(path@, Some(log@), now);
        assert(kv.len() == rows@.len());
        assert(want =~= head_lines + Seq::new(rows@.len(), |j: int| decision_row(kv[j].0, kv[j].1, now)));
    }
    lines
}

// ---------------------------------------------------------------------------
// Fills log
// ---------------------------------------------------------------------------

/// Fills of one asset: how many, how many opened and closed, and the intent
/// and time of the latest.
#[derive(Clone, Copy, Debug)]
pub struct FillSummary {
    pub total: usize,
    pub opens: usize,
    pub closes: usize,
    pub last_intent: FillIntent,
    pub last_seen: Timestamp,
}

/// Summary of the first fill `f` of an asset.
pub open spec fn first_fill_summary(f: Fill) -> FillSummary {
    FillSummary {
        total: 1,
        opens: one_if(f.intent == FillIntent::Open),
        closes: one_if(f.intent == FillIntent::Close),
        last_intent: f.intent,
        last_seen: f.filled_at,
    }
}

/// Summary `s` after one more fill `f`: counted by intent, and taken as the
/// latest unless it is dated strictly before the latest so far.
pub open spec fn bump_fill_summary(s: FillSummary, f: Fill) -> FillSummary {
    let newer = !f.filled_at.spec_before(s.last_seen);
    FillSummary {
        total: (s.total + 1) as usize,
        opens: (s.opens + one_if(f.intent == FillIntent::Open)) as usize,
        closes: (s.closes + one_if(f.intent == FillIntent::Close)) as usize,
        last_intent: if newer { f.intent } else { s.last_intent },
        last_seen: if newer { f.filled_at } else { s.last_seen },
    }
}

/// Per-asset summaries of the fills, keyed by the asset exactly as written,
/// in ascending key order.
pub open spec fn fill_stats(records: Seq<Fill>) -> Seq<(Seq<char>, FillSummary)>
    decreases records.len(),
{
    if records.len() == 0 {
        Seq::empty()
    } else {
        let f = records.last();
        let rows = fill_stats(records.drop_last());
        match key_position(rows, f.asset@) {
            Some(i) => rows.update(i, (f.asset@, bump_fill_summary(rows[i].1, f))),
            None => rows.insert(insert_position(rows, f.asset@), (f.asset@, first_fill_summary(f))),
        }
    }
}

/// Counts of the summaries are bounded by the number of fills taken in.
pub open spec fn fill_rows_ok(rows: Seq<(Seq<char>, FillSummary)>, n: nat) -> bool {
    &&& sorted_keys(rows)
    &&& forall|i: int| 0 <= i < rows.len() ==> {
        &&& #[trigger] rows[i].1.total <= n
        &&& rows[i].1.opens <= rows[i].1.total
        &&& rows[i].1.closes <= rows[i].1.total
    }
}

#[verifier::rlimit(40)]
#[verifier::spinoff_prover]
proof fn lemma_fill_stats_ok(records: Seq<Fill>)
    requires
        records.len() <= usize::MAX,
    ensures
        fill_rows_ok(fill_stats(records), records.len()),
    decreases records.len(),
{
    if records.len() > 0 {
        lemma_fill_stats_ok(records.drop_last());
        let f = records.last();
        let rows = fill_stats(records.drop_last());
        let k = f.asset@;
        lemma_key_position(rows, k);
        match key_position(rows, k) {
            Some(i) => {
                let r2 = rows.update(i, (k, bump_fill_summary(rows[i].1, f)));
                assert(sorted_keys(r2)) by {
                    assert forall|a: int, b: int| 0 <= a < b < r2.len() implies crate::ordered::key_lt(#[trigger] r2[a].0, #[trigger] r2[b].0) by {
                        assert(r2[a].0 == rows[a].0 && r2[b].0 == rows[b].0);
                    }
                }
                assert forall|j: int| 0 <= j < r2.len() implies #[trigger] r2[j].1.total <= records.len() && r2[j].1.opens <= r2[j].1.total
                    && r2[j].1.closes <= r2[j].1.total by {
                    if j != i {
                        assert(r2[j] == rows[j]);
                    } else {
                        assert(rows[i].1.total <= records.len() - 1);
                    }
                }
            },
            None => {
                lemma_insert_sorted(rows, k, first_fill_summary(f));
                let p = insert_position(rows, k);
                crate::ordered::lemma_insert_position(rows, k);
                let r2 = rows.insert(p, (k, first_fill_summary(f)));
                assert forall|j: int| 0 <= j < r2.len() implies #[trigger] r2[j].1.total <= records.len() && r2[j].1.opens <= r2[j].1.total
                    && r2[j].1.closes <= r2[j].1.total by {
                    if j < p {
                        assert(r2[j] == rows[j]);
                    } else if j > p {
                        assert(r2[j] == rows[j - 1]);
                    }
                }
            },
        }
    }
}

/// `open` or `close`.
pub open spec fn intent_text(i: FillIntent) -> Seq<char> {
    match i {
        FillIntent::Open => "open"@,
        FillIntent::Close => "close"@,
    }
}

/// Header of the fills table.
pub open spec fn fills_header() -> Seq<char> {
    pad_right("asset"@, 6) + " "@ + pad_left("total"@, 7) + " "@ + pad_left("opens"@, 6) + " "@ + pad_left("closes"@, 6) + " "@
        + pad_left("last_seen"@, 14) + " "@ + pad_left("last_intent"@, 12)
}

/// Row of the fills table for `asset`, ages counted up to `now`.
pub open spec fn fill_row(asset: Seq<char>, s: FillSummary, now: Timestamp) -> Seq<char> {
    pad_right(asset, 6) + " "@ + pad_left(decimal_digits(s.total as nat), 7) + " "@ + pad_left(decimal_digits(s.opens as nat), 6)
        + " "@ + pad_left(decimal_digits(s.closes as nat), 6) + " "@
        + pad_left(age_text(Timestamp::spec_secs_between(s.last_seen, now)), 14) + " "@ + pad_left(intent_text(s.last_intent), 12)
}

/// Lines printed for the fills log at `path`: nothing when there is no log or
/// no parseable fill in it, else a blank line, the totals and the table.
pub open spec fn fills_report(path: Seq<char>, log: Option<Seq<LogLine<Fill>>>, now: Timestamp) -> Seq<Seq<char>> {
    match log {
        None => Seq::empty(),
        Some(lines) => {
            let records = records_of(lines);
            let rows = fill_stats(records);
            if rows.len() == 0 {
                Seq::empty()
            } else {
                seq![
                    Seq::empty(),
                    "fills from "@ + path,
                    "total: "@ + decimal_digits(records.len()) + " fills across "@ + decimal_digits(rows.len()) + " asset(s)"@
                        + skipped_suffix(malformed_count(lines)),
                    Seq::empty(),
                    fills_header(),
                ] + Seq::new(rows.len(), |i: int| fill_row(rows[i].0, rows[i].1, now))
            }
        },
    }
}

fn collect_fills(lines: &Vec<LogLine<Fill>>) -> (r: (Vec<(String, FillSummary)>, usize, usize))
    ensures
        keyed(r.0@) == fill_stats(records_of(lines@)),
        r.1 == records_of(lines@).len(),
        r.2 == malformed_count(lines@),
{
    let mut rows: Vec<(String, FillSummary)> = Vec::new();
    let mut total: usize = 0;
    let mut malformed: usize = 0;
    let mut i: usize = 0;
    assert(lines@.take(0) =~= Seq::<LogLine<Fill>>::empty());
    assert(keyed(rows@) =~= Seq::<(Seq<char>, FillSummary)>::empty());
    while i < lines.len()
        invariant
            i <= lines@.len(),
            total == records_of(lines@.take(i as int)).len(),
            malformed == malformed_count(lines@.take(i as int)),
            fill_stats(records_of(lines@.take(i as int))) == keyed(rows@),
            fill_rows_ok(keyed(rows@), total as nat),
        decreases lines@.len() - i,
    {
        proof {
            lemma_records_step(lines@, i as int);
            lemma_log_counts(lines@.take(i as int));
        }
        match &lines[i] {
            LogLine::Blank => {},
            LogLine::Malformed => {
                malformed = malformed + 1;
            },
            LogLine::Record(f) => {
                let ghost recs = records_of(lines@.take(i as int)).push(*f);
                assert(recs.drop_last() =~= records_of(lines@.take(i as int)));
                let ghost before = keyed(rows@);
                let is_open = f.intent == FillIntent::Open;
                match find_key(&rows, f.asset.as_str()) {
                    Ok(j) => {
                        proof {
                            lemma_key_position(before, f.asset@);
                        }
                        let old_s = rows[j].1;
                        assert(old_s.total <= total);
                        let newer = !f.filled_at.before(&old_s.last_seen);
                        let s = FillSummary {
                            total: old_s.total + 1,
                            opens: if is_open { old_s.opens + 1 } else { old_s.opens },
                            closes: if is_open { old_s.closes } else { old_s.closes + 1 },
                            last_intent: if newer { f.intent } else { old_s.last_intent },
                            last_seen: if newer { f.filled_at } else { old_s.last_seen },
                        };
                        let key = rows[j].0.clone();
                        rows.set(j, (key, s));
                        assert(keyed(rows@) =~= before.update(j as int, (f.asset@, bump_fill_summary(before[j as int].1, *f))));
                    },
                    Err(j) => {
                        proof {
                            crate::ordered::lemma_insert_position(before, f.asset@);
                        }
                        let s = FillSummary {
                            total: 1,
                            opens: if is_open { 1 } else { 0 },
                            closes: if is_open { 0 } else { 1 },
                            last_intent: f.intent,
                            last_seen: f.filled_at,
                        };
                        rows.insert(j, (f.asset.clone(), s));
                        assert(keyed(rows@) =~= before.insert(j as int, (f.asset@, first_fill_summary(*f))));
                    },
                }
                total = total + 1;
                proof {
                    lemma_fill_stats_ok(recs);
                }
            },
        }
        i = i + 1;
    }
    assert(lines@.take(lines@.len() as int) =~= lines@);
    (rows, total, malformed)
}

fn fill_row_text(asset: &str, s: &FillSummary, now: Timestamp) -> (r: String)
    ensures
        r@ == fill_row(asset@, *s, now),
{
    let mut out: Vec<char> = Vec::new();
    push_left_aligned(&mut out, asset, 6);
    push_str(&mut out, " ");
    push_count(&mut out, s.total as u64, 7);
    push_str(&mut out, " ");
    push_count(&mut out, s.opens as u64, 6);
    push_str(&mut out, " ");
    push_count(&mut out, s.closes as u64, 6);
    push_str(&mut out, " ");
    let age = format_age(Timestamp::secs_between(&s.last_seen, &now));
    push_right_aligned(&mut out, age.as_str(), 14);
    push_str(&mut out, " ");
    match s.last_intent {
        FillIntent::Open => push_right_aligned(&mut out, "open", 12),
        FillIntent::Close => push_right_aligned(&mut out, "close", 12),
    }
    assert(out@ =~= fill_row(asset@, *s, now));
    crate::text::string_from_chars(&out)
}

/// Lines printed for the fills log at `path` (see `fills_report`).
pub fn report_fills(path: &str, log: Option<&Vec<LogLine<Fill>>>, now: Timestamp) -> (r: Vec<String>)
    ensures
        texts(r@) == fills_report(path@, match log { Some(l) => Some(l@), None => None }, now),
{
    let mut lines: Vec<String> = Vec::new();
    assert(texts(lines@) =~= Seq::<Seq<char>>::empty());
    let log = match log {
        None => return lines,
        Some(l) => l,
    };
    let (rows, total, malformed) = collect_fills(log);
    if rows.len() == 0 {
        return lines;
    }
    proof {
        reveal_strlit("");
        assert(""@ =~= Seq::<char>::empty());
    }
    push_line_str(&mut lines, "");
    let mut head: Vec<char> = Vec::new();
    push_str(&mut head, "fills from ");
    push_str(&mut head, path);
    push_line(&mut lines, &head);
    let mut totals: Vec<char> = Vec::new();
    push_str(&mut totals, "total: ");
    push_u64(&mut totals, total as u64);
    push_str(&mut totals, " fills across ");
    push_u64(&mut totals, rows.len() as u64);
    push_str(&mut totals, " asset(s)");
    push_skipped_suffix(&mut totals, malformed);
    push_line(&mut lines, &totals);
    push_line_str(&mut lines, "");
    let mut header: Vec<char> = Vec::new();
    push_left_aligned(&mut header, "asset", 6);
    push_str(&mut header, " ");
    push_right_aligned(&mut header, "total", 7);
    push_str(&mut header, " ");
    push_right_aligned(&mut header, "opens", 6);
    push_str(&mut header, " ");
    push_right_aligned(&mut header, "closes", 6);
    push_str(&mut header, " ");
    push_right_aligned(&mut header, "last_seen", 14);
    push_str(&mut header, " ");
    push_right_aligned(&mut header, "last_intent", 12);
    push_line(&mut lines, &header);
    let ghost kv = keyed(rows@);
    let ghost head_lines = seq![
        Seq::<char>::empty(),
        "fills from "@ + path@,
        "total: "@ + decimal_digits(total as nat) + " fills across "@ + decimal_digits(rows@.len()) + " asset(s)"@
            + skipped_suffix(malformed as nat),
        Seq::<char>::empty(),
        fills_header(),
    ];
    assert(texts(lines@) =~= head_lines);
    let mut i: usize = 0;
    while i < rows.len()
        invariant
            kv == keyed(rows@),
            i <= rows@.len(),
            texts(lines@) == head_lines + Seq::new(i as nat, |j: int| fill_row(kv[j].0, kv[j].1, now)),
        decreases rows@.len() - i,
    {
        assert(kv[i as int] == (rows@[i as int].0@, rows@[i as int].1));
        let t = fill_row_text(rows[i].0.as_str(), &rows[i].1, now);
        push_text(&mut lines, t);
        assert(Seq::new((i + 1) as nat, |j: int| fill_row(kv[j].0, kv[j].1, now)) =~= Seq::new(i as nat, |j: int| fill_row(kv[j].0, kv[j].1, now)).push(t@));
        i = i + 1;
    }
    proof {
        let want = fills_report(path@, Some(log@), now);
        assert(kv.len() == rows@.len());
        assert(want =~= head_lines + Seq::new(rows@.len(), |j: int| fill_row(kv[j].0, kv[j].1, now)));
    }
    lines
}

// ---------------------------------------------------------------------------
// Both logs
// ---------------------------------------------------------------------------

/// A log as read: absent (`Ok(None)`), its lines, or the error that stopped
/// the read.
pub type LogRead<T> = Result<Option<Vec<LogLine<T>>>, String>;

/// The lines of a log that was read.
pub open spec fn read_lines<T>(log: Option<Vec<LogLine<T>>>) -> Option<Seq<LogLine<T>>> {
    match log {
        Some(l) => Some(l@),
        None => None,
    }
}

/// What `stats` prints, and the error it ends with, if any.
#[derive(Debug)]
pub struct StatsOutput {
    pub lines: Vec<String>,
    pub error: Option<String>,
}

/// The funding report of a log that was read can be written: no
/// annualization or percentage in it overflows.
pub open spec fn stats_computable(funding_path: Seq<char>, funding: LogRead<FundingRate>, now: Timestamp) -> bool {
    funding matches Ok(f) ==> funding_report(funding_path, read_lines(f), now) is Some
}

/// What `stats` gives: an error reading the funding log stops it before any
/// output; otherwise the funding report is printed, then an error reading the
/// decisions log stops it, or the decisions report follows; then likewise for
/// the fills log.
pub open spec fn stats_result(
    funding_path: Seq<char>,
    funding: LogRead<FundingRate>,
    decisions_path: Seq<char>,
    decisions: LogRead<DecisionRecord>,
    fills_path: Seq<char>,
    fills: LogRead<Fill>,
    now: Timestamp,
    r: StatsOutput,
) -> bool {
    match funding {
        Err(e) => texts(r.lines@) == Seq::<Seq<char>>::empty() && r.error == Some(e),
        Ok(f) => {
            let head = funding_report(funding_path, read_lines(f), now).unwrap();
            match decisions {
                Err(e) => texts(r.lines@) == head && r.error == Some(e),
                Ok(d) => {
                    let mid = head + decisions_report(decisions_path, read_lines(d), now);
                    match fills {
                        Err(e) => texts(r.lines@) == mid && r.error == Some(e),
                        Ok(l) => texts(r.lines@) == mid + fills_report(fills_path, read_lines(l), now) && r.error is None,
                    }
                },
            }
        },
    }
}

/// Summaries of the funding log at `funding_path`, the decisions log at
/// `decisions_path` and the fills log at `fills_path`, as read, with ages
/// counted up to `now`.
pub fn run(
    funding_path: &str,
    funding: LogRead<FundingRate>,
    decisions_path: &str,
    decisions: LogRead<DecisionRecord>,
    fills_path: &str,
    fills: LogRead<Fill>,
    now: Timestamp,
) -> (r: StatsOutput)
    requires
        stats_computable(funding_path@, funding, now),
    ensures
        stats_result(funding_path@, funding, decisions_path@, decisions, fills_path@, fills, now, r),
{
    match try_run(funding_path, funding, decisions_path, decisions, fills_path, fills, now) {
        Some(out) => out,
        None => StatsOutput { lines: Vec::new(), error: None },
    }
}

fn append_lines(lines: &mut Vec<String>, more: &Vec<String>)
    ensures
        texts(final(lines)@) == texts(old(lines)@) + texts(more@),
{
    let ghost head = texts(lines@);
    let mut i: usize = 0;
    assert(texts(more@).take(0) =~= Seq::<Seq<char>>::empty());
    assert(head + Seq::<Seq<char>>::empty() =~= head);
    while i < more.len()
        invariant
            i <= more@.len(),
            texts(lines@) == head + texts(more@).take(i as int),
        decreases more@.len() - i,
    {
        push_text(lines, more[i].clone());
        assert(texts(more@).take(i + 1) =~= texts(more@).take(i as int).push(more@[i as int]@));
        i = i + 1;
    }
    assert(texts(more@).take(more@.len() as int) =~= texts(more@));
}

/// `run`, or `None` where it cannot be computed (see `stats_computable`).
pub fn try_run(
    funding_path: &str,
    funding: LogRead<FundingRate>,
    decisions_path: &str,
    decisions: LogRead<DecisionRecord>,
    fills_path: &str,
    fills: LogRead<Fill>,
    now: Timestamp,
) -> (r: Option<StatsOutput>)
    ensures
        match r {
            Some(out) => stats_computable(funding_path@, funding, now) && stats_result(
                funding_path@,
                funding,
                decisions_path@,
                decisions,
                fills_path@,
                fills,
                now,
                out,
            ),
            None => !stats_computable(funding_path@, funding, now),
        },
{
    let f = match funding {
        Err(e) => {
            let lines: Vec<String> = Vec::new();
            assert(texts(lines@) =~= Seq::<Seq<char>>::empty());
            return Some(StatsOutput { lines, error: Some(e) });
        },
        Ok(f) => f,
    };
    let mut lines = match report_funding(funding_path, f.as_ref(), now) {
        Some(l) => l,
        None => return None,
    };
    let d = match decisions {
        Err(e) => return Some(StatsOutput { lines, error: Some(e) }),
        Ok(d) => d,
    };
    let more = report_decisions(decisions_path, d.as_ref(), now);
    append_lines(&mut lines, &more);
    let l = match fills {
        Err(e) => return Some(StatsOutput { lines, error: Some(e) }),
        Ok(l) => l,
    };
    let rest = report_fills(fills_path, l.as_ref(), now);
    append_lines(&mut lines, &rest);
    Some(StatsOutput { lines, error: None })
}

} // verus!
