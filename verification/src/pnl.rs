//! PnL attribution for paper-trade runs: Open fills paired with the Close fills
//! that end them, still-open positions, funding integrated over a position's
//! lifetime as a step function, and the latest observed mid per asset.
use vstd::prelude::*;
use crate::decimal::Dec;
use crate::executor::{Fill, FillIntent};
use crate::jsonl::{log_records, records_of, LogLine};
use crate::prices::{AssetMap, PriceMap};
use crate::risk::spec_sum;
use crate::text::{eq_ignore_ascii_case, same_asset, str_equal, to_ascii_uppercase, upper_seq};
use crate::types::{Side, Timestamp};

verus! {

broadcast use crate::decimal::group_dec_parts;

/// File name (within the state directory) of the append-only funding log.
pub const FUNDING_LOG_FILE: &'static str = "funding.jsonl";

/// One parsed row of the funding log.
#[derive(Debug)]
pub struct LoggedFunding {
    pub asset: String,
    pub rate: Dec,
    pub interval_hours: u8,
    pub observed_at: Timestamp,
    pub mid_price: Option<Dec>,
}

impl LoggedFunding {
    /// A field-by-field copy.
    pub fn duplicate(&self) -> (r: LoggedFunding)
        ensures
            r == *self,
    {
        LoggedFunding {
            asset: self.asset.clone(),
            rate: self.rate,
            interval_hours: self.interval_hours,
            observed_at: self.observed_at,
            mid_price: self.mid_price,
        }
    }
}

#[derive(Debug)]
pub struct ClosedTrade {
    pub asset: String,
    /// Side of the opening fill (the position's side).
    pub side: Side,
    pub open: Fill,
    pub close: Fill,
}

/// Price PnL of a move from `entry` to `exit` on `size` units:
/// Long `(exit - entry) * size`, Short `(entry - exit) * size`.
pub open spec fn spec_price_pnl(side: Side, entry: Dec, exit: Dec, size: Dec) -> Option<Dec> {
    match side {
        Side::Long => match exit.spec_sub(entry) {
            Some(d) => d.spec_mul(size),
            None => None,
        },
        Side::Short => match entry.spec_sub(exit) {
            Some(d) => d.spec_mul(size),
            None => None,
        },
    }
}

fn price_pnl(side: Side, entry: Dec, exit: Dec, size: Dec) -> (r: Option<Dec>)
    ensures
        r == spec_price_pnl(side, entry, exit, size),
        exit.num_eq(entry) ==> (r matches Some(p) ==> p == Dec::spec_zero()),
{
    let d = match side {
        Side::Long => exit.checked_sub(entry),
        Side::Short => entry.checked_sub(exit),
    };
    match d {
        Some(d) => d.checked_mul(size),
        None => None,
    }
}

impl ClosedTrade {
    pub open spec fn spec_realized_pnl(&self) -> Option<Dec> {
        spec_price_pnl(self.side, self.open.price, self.close.price, self.open.size)
    }

    /// Realized price PnL in USD; positive = profit.
    pub fn realized_pnl(&self) -> (r: Dec)
        requires
            self.spec_realized_pnl() is Some,
        ensures
            Some(r) == self.spec_realized_pnl(),
    {
        price_pnl(self.side, self.open.price, self.close.price, self.open.size).unwrap()
    }

    /// `realized_pnl`, or `None` where it would overflow.
    pub fn try_realized_pnl(&self) -> (r: Option<Dec>)
        ensures
            r == self.spec_realized_pnl(),
    {
        match price_pnl(self.side, self.open.price, self.close.price, self.open.size) {
            Some(_) => Some(self.realized_pnl()),
            None => None,
        }
    }
}

#[derive(Debug)]
pub struct OpenTrade {
    pub asset: String,
    pub side: Side,
    pub open: Fill,
}

impl OpenTrade {
    pub open spec fn spec_unrealized_pnl(&self, current_mid: Dec) -> Option<Dec> {
        spec_price_pnl(self.side, self.open.price, current_mid, self.open.size)
    }

    /// Unrealized PnL in USD against the current mid; same sign convention as
    /// realized PnL, and zero when the mid equals the entry price.
    pub fn unrealized_pnl(&self, current_mid: Dec) -> (r: Dec)
        requires
            self.spec_unrealized_pnl(current_mid) is Some,
        ensures
            Some(r) == self.spec_unrealized_pnl(current_mid),
            current_mid.num_eq(self.open.price) ==> r == Dec::spec_zero(),
    {
        price_pnl(self.side, self.open.price, current_mid, self.open.size).unwrap()
    }

    /// `unrealized_pnl`, or `None` where it would overflow.
    pub fn try_unrealized_pnl(&self, current_mid: Dec) -> (r: Option<Dec>)
        ensures
            r == self.spec_unrealized_pnl(current_mid),
    {
        match price_pnl(self.side, self.open.price, current_mid, self.open.size) {
            Some(_) => Some(self.unrealized_pnl(current_mid)),
            None => None,
        }
    }
}

// ---------------------------------------------------------------------------
// Stable ordering by time
// ---------------------------------------------------------------------------

/// Inserts `x` into `s` after every element whose time is not after `x`'s,
/// scanning from the end (stable insertion).
pub open spec fn insert_by_time<T>(s: Seq<T>, x: T, time: spec_fn(T) -> Timestamp) -> Seq<T>
    decreases s.len(),
{
    if s.len() == 0 {
        seq![x]
    } else if time(x).spec_before(time(s.last())) {
        insert_by_time(s.drop_last(), x, time).push(s.last())
    } else {
        s.push(x)
    }
}

/// Stable sort by time: elements with equal times keep their order.
pub open spec fn sort_by_time<T>(s: Seq<T>, time: spec_fn(T) -> Timestamp) -> Seq<T>
    decreases s.len(),
{
    if s.len() == 0 {
        s
    } else {
        insert_by_time(sort_by_time(s.drop_last(), time), s.last(), time)
    }
}

/// Times never decrease along `s`.
pub open spec fn time_ordered<T>(s: Seq<T>, time: spec_fn(T) -> Timestamp) -> bool {
    forall|i: int, j: int| 0 <= i < j < s.len() ==> !time(#[trigger] s[j]).spec_before(time(#[trigger] s[i]))
}

proof fn lemma_insert_at<T>(s: Seq<T>, x: T, time: spec_fn(T) -> Timestamp, j: int)
    requires
        0 <= j <= s.len(),
        forall|k: int| j <= k < s.len() ==> time(x).spec_before(time(#[trigger] s[k])),
        j == 0 || !time(x).spec_before(time(s[j - 1])),
    ensures
        insert_by_time(s, x, time) == s.insert(j, x),
    decreases s.len() - j,
{
    if s.len() == 0 {
        assert(s.insert(j, x) =~= seq![x]);
    } else if j == s.len() {
        assert(!time(x).spec_before(time(s.last())));
        assert(s.insert(j, x) =~= s.push(x));
    } else {
        assert(time(x).spec_before(time(s.last())));
        let d = s.drop_last();
        assert forall|k: int| j <= k < d.len() implies time(x).spec_before(time(#[trigger] d[k])) by {
            assert(d[k] == s[k]);
        }
        if j > 0 {
            assert(d[j - 1] == s[j - 1]);
        }
        lemma_insert_at(d, x, time, j);
        assert(d.insert(j, x).push(s.last()) =~= s.insert(j, x));
    }
}

proof fn lemma_before_trans(a: Timestamp, b: Timestamp, c: Timestamp)
    requires
        a.spec_before(b),
        b.spec_before(c),
    ensures
        a.spec_before(c),
{
}

proof fn lemma_insert_keeps_order<T>(s: Seq<T>, x: T, time: spec_fn(T) -> Timestamp)
    requires
        time_ordered(s, time),
    ensures
        time_ordered(insert_by_time(s, x, time), time),
        insert_by_time(s, x, time).len() == s.len() + 1,
    decreases s.len(),
{
    if s.len() > 0 {
        let d = s.drop_last();
        assert(time_ordered(d, time)) by {
            assert forall|i: int, j: int| 0 <= i < j < d.len() implies !time(#[trigger] d[j]).spec_before(time(#[trigger] d[i])) by {
                assert(d[i] == s[i] && d[j] == s[j]);
            }
        }
        if time(x).spec_before(time(s.last())) {
            lemma_insert_keeps_order(d, x, time);
            let t = insert_by_time(d, x, time);
            let r = t.push(s.last());
            assert forall|i: int, j: int| 0 <= i < j < r.len() implies !time(#[trigger] r[j]).spec_before(time(#[trigger] r[i])) by {
                if j == r.len() - 1 {
                    // every element of t is x or an element of d, none after s.last()
                    lemma_insert_members(d, x, time, i);
                    if t[i] != x {
                        let k = choose|k: int| 0 <= k < d.len() && d[k] == t[i];
                        assert(d[k] == s[k]);
                        assert(!time(s[s.len() - 1]).spec_before(time(s[k])));
                    }
                } else {
                    assert(r[i] == t[i] && r[j] == t[j]);
                }
            }
        } else {
            let r = s.push(x);
            assert forall|i: int, j: int| 0 <= i < j < r.len() implies !time(#[trigger] r[j]).spec_before(time(#[trigger] r[i])) by {
                if j == r.len() - 1 {
                    if i < s.len() - 1 {
                        assert(!time(s[s.len() - 1]).spec_before(time(s[i])));
                        if time(x).spec_before(time(s[i])) {
                            // x before s[i] <= s.last() contradicts !(x before s.last())
                            if time(s[i]).spec_before(time(s[s.len() - 1])) {
                                lemma_before_trans(time(x), time(s[i]), time(s[s.len() - 1]));
                            }
                        }
                    }
                } else {
                    assert(r[i] == s[i] && r[j] == s[j]);
                }
            }
        }
    }
}

proof fn lemma_insert_members<T>(s: Seq<T>, x: T, time: spec_fn(T) -> Timestamp, i: int)
    requires
        0 <= i < insert_by_time(s, x, time).len(),
    ensures
        insert_by_time(s, x, time).len() == s.len() + 1,
        insert_by_time(s, x, time)[i] == x || exists|k: int| 0 <= k < s.len() && s[k] == insert_by_time(s, x, time)[i],
    decreases s.len(),
{
    if s.len() > 0 {
        let d = s.drop_last();
        if time(x).spec_before(time(s.last())) {
            let t = insert_by_time(d, x, time);
            lemma_insert_members(d, x, time, 0);
            if i < t.len() {
                lemma_insert_members(d, x, time, i);
                if t[i] != x {
                    let k = choose|k: int| 0 <= k < d.len() && d[k] == t[i];
                    assert(s[k] == d[k]);
                }
            } else {
                assert(s[s.len() - 1] == insert_by_time(s, x, time)[i]);
            }
        } else {
            if i < s.len() {
                assert(s[i] == insert_by_time(s, x, time)[i]);
            }
        }
    }
}

/// The stable sort puts elements in time order.
pub proof fn lemma_sort_by_time_ordered<T>(s: Seq<T>, time: spec_fn(T) -> Timestamp)
    ensures
        time_ordered(sort_by_time(s, time), time),
        sort_by_time(s, time).len() == s.len(),
    decreases s.len(),
{
    if s.len() > 0 {
        lemma_sort_by_time_ordered(s.drop_last(), time);
        lemma_insert_keeps_order(sort_by_time(s.drop_last(), time), s.last(), time);
    }
}

pub open spec fn fill_time(f: Fill) -> Timestamp {
    f.filled_at
}

pub open spec fn observation_time(o: LoggedFunding) -> Timestamp {
    o.observed_at
}

/// Fills in time order (stable: fills at the same time keep their order).
pub fn sort_fills_by_time(fills: Vec<Fill>) -> (r: Vec<Fill>)
    ensures
        r@ == sort_by_time(fills@, |f: Fill| fill_time(f)),
        time_ordered(r@, |f: Fill| fill_time(f)),
{
    let ghost time = |f: Fill| fill_time(f);
    let ghost input = fills@;
    let total = fills.len();
    let mut rest = fills;
    let mut out: Vec<Fill> = Vec::new();
    let mut n: usize = 0;
    assert(input.take(0) =~= Seq::<Fill>::empty());
    while rest.len() > 0
        invariant
            time == (|f: Fill| fill_time(f)),
            n + rest@.len() == input.len(),
            input.len() == total,
            rest@ == input.skip(n as int),
            out@ == sort_by_time(input.take(n as int), time),
        decreases rest@.len(),
    {
        let x = rest.remove(0);
        let mut j = out.len();
        while j > 0 && x.filled_at.before(&out[j - 1].filled_at)
            invariant
                j <= out@.len(),
                forall|k: int| j <= k < out@.len() ==> x.filled_at.spec_before(#[trigger] out@[k].filled_at),
            decreases j,
        {
            j = j - 1;
        }
        proof {
            assert(x == input[n as int]);
            assert(input.take(n as int + 1).drop_last() =~= input.take(n as int));
            lemma_insert_at(out@, x, time, j as int);
        }
        out.insert(j, x);
        n = n + 1;
        assert(rest@ =~= input.skip(n as int));
    }
    assert(input.take(n as int) =~= input);
    proof {
        lemma_sort_by_time_ordered(input, time);
    }
    out
}

/// Funding observations in time order (stable).
pub fn sort_observations_by_time(observations: Vec<LoggedFunding>) -> (r: Vec<LoggedFunding>)
    ensures
        r@ == sort_by_time(observations@, |o: LoggedFunding| observation_time(o)),
        time_ordered(r@, |o: LoggedFunding| observation_time(o)),
{
    let ghost time = |o: LoggedFunding| observation_time(o);
    let ghost input = observations@;
    let total = observations.len();
    let mut rest = observations;
    let mut out: Vec<LoggedFunding> = Vec::new();
    let mut n: usize = 0;
    assert(input.take(0) =~= Seq::<LoggedFunding>::empty());
    while rest.len() > 0
        invariant
            time == (|o: LoggedFunding| observation_time(o)),
            n + rest@.len() == input.len(),
            input.len() == total,
            rest@ == input.skip(n as int),
            out@ == sort_by_time(input.take(n as int), time),
        decreases rest@.len(),
    {
        let x = rest.remove(0);
        let mut j = out.len();
        while j > 0 && x.observed_at.before(&out[j - 1].observed_at)
            invariant
                j <= out@.len(),
                forall|k: int| j <= k < out@.len() ==> x.observed_at.spec_before(#[trigger] out@[k].observed_at),
            decreases j,
        {
            j = j - 1;
        }
        proof {
            assert(x == input[n as int]);
            assert(input.take(n as int + 1).drop_last() =~= input.take(n as int));
            lemma_insert_at(out@, x, time, j as int);
        }
        out.insert(j, x);
        n = n + 1;
        assert(rest@ =~= input.skip(n as int));
    }
    assert(input.take(n as int) =~= input);
    proof {
        lemma_sort_by_time_ordered(input, time);
    }
    out
}

/// The fills of the fills log, in time order (stable), from the log's lines:
/// blank and unparseable lines are skipped.
pub fn read_fills(lines: Vec<LogLine<Fill>>) -> (r: Vec<Fill>)
    ensures
        r@ == sort_by_time(records_of(lines@), |f: Fill| fill_time(f)),
        time_ordered(r@, |f: Fill| fill_time(f)),
{
    sort_fills_by_time(log_records(lines))
}

/// The observations of the funding log, in time order (stable), from the
/// log's lines: blank and unparseable lines are skipped.
pub fn read_funding(lines: Vec<LogLine<LoggedFunding>>) -> (r: Vec<LoggedFunding>)
    ensures
        r@ == sort_by_time(records_of(lines@), |o: LoggedFunding| observation_time(o)),
        time_ordered(r@, |o: LoggedFunding| observation_time(o)),
{
    sort_observations_by_time(log_records(lines))
}

// ---------------------------------------------------------------------------
// Pairing fills into trades
// ---------------------------------------------------------------------------

/// Index of the first entry with key `k`.
pub open spec fn key_index(list: Seq<(Seq<char>, Fill)>, k: Seq<char>) -> Option<int>
    decreases list.len(),
{
    if list.len() == 0 {
        None
    } else {
        match key_index(list.drop_last(), k) {
            Some(i) => Some(i),
            None => if list.last().0 == k {
                Some(list.len() - 1)
            } else {
                None
            },
        }
    }
}

proof fn lemma_key_index(list: Seq<(Seq<char>, Fill)>, k: Seq<char>)
    ensures
        match key_index(list, k) {
            Some(i) => 0 <= i < list.len() && list[i].0 == k && forall|j: int| 0 <= j < i ==> (#[trigger] list[j]).0 != k,
            None => forall|j: int| 0 <= j < list.len() ==> (#[trigger] list[j]).0 != k,
        },
    decreases list.len(),
{
    if list.len() > 0 {
        lemma_key_index(list.drop_last(), k);
        assert forall|j: int| 0 <= j < list.len() - 1 implies list[j] == list.drop_last()[j] by {}
    }
}

proof fn lemma_key_index_at(list: Seq<(Seq<char>, Fill)>, k: Seq<char>, i: int)
    requires
        0 <= i < list.len(),
        list[i].0 == k,
        forall|j: int| 0 <= j < i ==> (#[trigger] list[j]).0 != k,
    ensures
        key_index(list, k) == Some(i),
{
    lemma_key_index(list, k);
}

proof fn lemma_key_index_none(list: Seq<(Seq<char>, Fill)>, k: Seq<char>)
    requires
        forall|j: int| 0 <= j < list.len() ==> (#[trigger] list[j]).0 != k,
    ensures
        key_index(list, k) is None,
{
    lemma_key_index(list, k);
}

/// The trade that a Close fill ends, given the Open it pairs with.
pub open spec fn spec_closed_trade(open: Fill, close: Fill) -> ClosedTrade {
    ClosedTrade { asset: open.asset, side: open.side, open, close }
}

pub open spec fn spec_open_trade(open: Fill) -> OpenTrade {
    OpenTrade { asset: open.asset, side: open.side, open }
}

/// Pairing state after processing `fills` in order: the closed trades so far and
/// the current Open per uppercased asset name. An Open replaces any current Open
/// of its asset; a Close pairs with the current Open of its asset (and ends it),
/// or is dropped when there is none.
pub open spec fn pair_state(fills: Seq<Fill>) -> (Seq<ClosedTrade>, Seq<(Seq<char>, Fill)>)
    decreases fills.len(),
{
    if fills.len() == 0 {
        (Seq::empty(), Seq::empty())
    } else {
        let prev = pair_state(fills.drop_last());
        let closed = prev.0;
        let open = prev.1;
        let f = fills.last();
        let k = upper_seq(f.asset@);
        match f.intent {
            FillIntent::Open => match key_index(open, k) {
                Some(i) => (closed, open.update(i, (k, f))),
                None => (closed, open.push((k, f))),
            },
            FillIntent::Close => match key_index(open, k) {
                Some(i) => (closed.push(spec_closed_trade(open[i].1, f)), open.remove(i)),
                None => (closed, open),
            },
        }
    }
}

pub open spec fn open_entries(list: Seq<(String, Fill)>) -> Seq<(Seq<char>, Fill)> {
    list.map_values(|e: (String, Fill)| (e.0@, e.1))
}

/// Pairs Open fills with the Close fills that end them, per asset (keyed by
/// uppercased name), in the order given. Returns the closed trades in the order
/// of their Close fills, and the still-open trades. An Open followed by another
/// Open of the same asset is dropped (the later one wins); a Close with no
/// current Open is dropped.
pub fn pair_fills(fills: &[Fill]) -> (r: (Vec<ClosedTrade>, Vec<OpenTrade>))
    ensures
        r.0@ == pair_state(fills@).0,
        r.1@ == pair_state(fills@).1.map_values(|e: (Seq<char>, Fill)| spec_open_trade(e.1)),
{
    let mut current: Vec<(String, Fill)> = Vec::new();
    let mut closed: Vec<ClosedTrade> = Vec::new();
    let mut i: usize = 0;
    assert(fills@.take(0) =~= Seq::<Fill>::empty());
    assert(open_entries(current@) =~= Seq::<(Seq<char>, Fill)>::empty());
    while i < fills.len()
        invariant
            i <= fills@.len(),
            closed@ == pair_state(fills@.take(i as int)).0,
            open_entries(current@) == pair_state(fills@.take(i as int)).1,
        decreases fills@.len() - i,
    {
        let ghost prev = pair_state(fills@.take(i as int));
        assert(fills@.take(i as int + 1).drop_last() =~= fills@.take(i as int));
        assert(fills@.take(i as int + 1).last() == fills@[i as int]);
        let fill = &fills[i];
        let key = to_ascii_uppercase(fill.asset.as_str());
        let mut j: usize = 0;
        let mut found = false;
        while j < current.len() && !found
            invariant
                j <= current@.len(),
                found ==> j < current@.len() && open_entries(current@)[j as int].0 == key@,
                forall|q: int| 0 <= q < j ==> (#[trigger] open_entries(current@)[q]).0 != key@,
            decreases current@.len() - j + (if found { 0int } else { 1int }),
        {
            if str_equal(current[j].0.as_str(), key.as_str()) {
                found = true;
            } else {
                j = j + 1;
            }
        }
        proof {
            if found {
                assert(open_entries(current@)[j as int].0 == key@);
                lemma_key_index_at(open_entries(current@), key@, j as int);
            } else {
                lemma_key_index_none(open_entries(current@), key@);
            }
        }
        match fill.intent {
            FillIntent::Open => {
                if found {
                    let ghost before = current@;
                    let mut taken: Vec<(String, Fill)> = Vec::new();
                    core::mem::swap(&mut taken, &mut current);
                    taken.set(j, (key, fill.duplicate()));
                    current = taken;
                    assert(open_entries(current@) =~= prev.1.update(j as int, (upper_seq(fill.asset@), *fill)));
                } else {
                    current.push((key, fill.duplicate()));
                    assert(open_entries(current@) =~= prev.1.push((upper_seq(fill.asset@), *fill)));
                }
            },
            FillIntent::Close => {
                if found {
                    let ghost before = current@;
                    let entry = current.remove(j);
                    let open = entry.1;
                    closed.push(ClosedTrade { asset: open.asset.clone(), side: open.side, open, close: fill.duplicate() });
                    assert(open_entries(current@) =~= open_entries(before).remove(j as int));
                }
            },
        }
        i = i + 1;
    }
    assert(fills@.take(fills@.len() as int) =~= fills@);
    let mut still_open: Vec<OpenTrade> = Vec::new();
    let mut k: usize = 0;
    let total = current.len();
    let ghost entries = open_entries(current@);
    while current.len() > 0
        invariant
            entries == pair_state(fills@).1,
            k + current@.len() == entries.len(),
            entries.len() == total,
            open_entries(current@) == entries.skip(k as int),
            still_open@ == entries.take(k as int).map_values(|e: (Seq<char>, Fill)| spec_open_trade(e.1)),
        decreases current@.len(),
    {
        let ghost before = current@;
        let entry = current.remove(0);
        let open = entry.1;
        assert(open == entries[k as int].1) by {
            assert(open_entries(before)[0] == entries.skip(k as int)[0]);
        }
        still_open.push(OpenTrade { asset: open.asset.clone(), side: open.side, open });
        assert(open_entries(current@) =~= entries.skip(k as int + 1)) by {
            assert forall|q: int| 0 <= q < current@.len() implies #[trigger] open_entries(current@)[q] == entries.skip(k as int + 1)[q] by {
                assert(current@[q] == before[q + 1]);
                assert(open_entries(before)[q + 1] == entries.skip(k as int)[q + 1]);
            }
        }
        k = k + 1;
        assert(still_open@ =~= entries.take(k as int).map_values(|e: (Seq<char>, Fill)| spec_open_trade(e.1)));
    }
    assert(entries.take(k as int) =~= entries);
    (closed, still_open)
}

// ---------------------------------------------------------------------------
// Latest mid per asset
// ---------------------------------------------------------------------------

/// Latest `(time, mid)` per uppercased asset over observations carrying a mid,
/// processed in order; a later observation replaces the kept one only when it
/// is strictly more recent.
pub open spec fn latest_state(observations: Seq<LoggedFunding>) -> Map<Seq<char>, (Timestamp, Dec)>
    decreases observations.len(),
{
    if observations.len() == 0 {
        Map::empty()
    } else {
        let m = latest_state(observations.drop_last());
        let o = observations.last();
        let k = upper_seq(o.asset@);
        match o.mid_price {
            Some(mid) => if m.contains_key(k) && !m[k].0.spec_before(o.observed_at) {
                m
            } else {
                m.insert(k, (o.observed_at, mid))
            },
            None => m,
        }
    }
}

/// Latest observed mid price per asset (key: uppercased asset name).
pub fn latest_mids(observations: &[LoggedFunding]) -> (r: PriceMap)
    ensures
        r.view() == latest_state(observations@).map_values(|v: (Timestamp, Dec)| v.1),
{
    let mut latest: AssetMap<(Timestamp, Dec)> = AssetMap::new();
    let mut i: usize = 0;
    assert(observations@.take(0) =~= Seq::<LoggedFunding>::empty());
    while i < observations.len()
        invariant
            i <= observations@.len(),
            latest.view() == latest_state(observations@.take(i as int)),
        decreases observations@.len() - i,
    {
        assert(observations@.take(i as int + 1).drop_last() =~= observations@.take(i as int));
        assert(observations@.take(i as int + 1).last() == observations@[i as int]);
        let o = &observations[i];
        match o.mid_price {
            Some(mid) => {
                let key = to_ascii_uppercase(o.asset.as_str());
                match latest.get(key.as_str()) {
                    Some(kept) => {
                        if kept.0.before(&o.observed_at) {
                            latest.insert(key, (o.observed_at, mid));
                        }
                    },
                    None => {
                        latest.insert(key, (o.observed_at, mid));
                    },
                }
            },
            None => {},
        }
        i = i + 1;
    }
    assert(observations@.take(observations@.len() as int) =~= observations@);
    latest.seconds()
}

// ---------------------------------------------------------------------------
// Funding accrual
// ---------------------------------------------------------------------------

/// Sign of funding for a side: a positive rate means longs pay shorts, so a
/// Short earns the magnitude and a Long pays it.
pub open spec fn spec_funding_for(side: Side, magnitude: Dec) -> Dec {
    match side {
        Side::Short => magnitude,
        Side::Long => magnitude.spec_neg(),
    }
}

/// Funding accrued at `rate` per `interval_hours` (0 counts as 1) on `notional`
/// over `[start, end]`: `rate * notional * hours / interval`, signed for the side;
/// zero when the span has no positive whole milliseconds.
pub open spec fn spec_apply_rate(side: Side, notional: Dec, rate: Dec, interval_hours: u8, start: Timestamp, end: Timestamp) -> Option<Dec> {
    let ms = Timestamp::spec_millis_between(start, end);
    if ms <= 0 {
        Some(Dec::spec_zero())
    } else {
        let interval = if interval_hours >= 1 { interval_hours as int } else { 1 };
        match Dec::spec_from_int(ms).spec_div(Dec::spec_from_int(3_600_000)) {
            Some(hours) => match rate.spec_mul(notional) {
                Some(rn) => match rn.spec_mul(hours) {
                    Some(x) => match x.spec_div(Dec::spec_from_int(interval)) {
                        Some(magnitude) => Some(spec_funding_for(side, magnitude)),
                        None => None,
                    },
                    None => None,
                },
                None => None,
            },
            None => None,
        }
    }
}

/// `d` has the sign of funding earned by a Short (not below zero) or paid by
/// a Long (not above zero).
pub open spec fn signed_for(side: Side, d: Dec) -> bool {
    match side {
        Side::Short => d.mant() >= 0,
        Side::Long => d.mant() <= 0,
    }
}

fn apply_rate(side: Side, notional: Dec, rate: Dec, interval_hours: u8, start: Timestamp, end: Timestamp) -> (r: Option<Dec>)
    ensures
        r == spec_apply_rate(side, notional, rate, interval_hours, start, end),
        Dec::mirrors_opt(r, spec_apply_rate(side.spec_flip(), notional, rate, interval_hours, start, end)),
        spec_apply_rate(side.spec_flip(), notional, rate, interval_hours, start, end) matches Some(o) ==> o.valid(),
        r matches Some(d) ==> d.valid(),
        rate.mant() >= 0 && notional.mant() >= 0 ==> (r matches Some(d) ==> signed_for(side, d)),
{
    let ms = Timestamp::millis_between(&start, &end);
    if ms <= 0 {
        return Some(Dec::zero());
    }
    let hours = match Dec::new(ms, 0).checked_div(Dec::from_u32(3_600_000)) {
        Some(h) => h,
        None => return None,
    };
    let interval: u32 = if interval_hours >= 1 { interval_hours as u32 } else { 1 };
    let rn = match rate.checked_mul(notional) {
        Some(x) => x,
        None => return None,
    };
    let x = match rn.checked_mul(hours) {
        Some(x) => x,
        None => return None,
    };
    let magnitude = match x.checked_div(Dec::from_u32(interval)) {
        Some(m) => m,
        None => return None,
    };
    proof {
        if rate.mant() >= 0 && notional.mant() >= 0 {
            assert(hours.mant() >= 0) by (nonlinear_arith)
                requires
                    hours.mant() == 0 || ((hours.mant() > 0) == (ms * 3_600_000 > 0)),
                    ms > 0,
            ;
            assert(rn.mant() >= 0) by (nonlinear_arith)
                requires
                    rn.mant() == 0 || ((rn.mant() > 0) == (rate.mant() * notional.mant() > 0)),
                    rate.mant() >= 0,
                    notional.mant() >= 0,
                    (rate.mant() == 0 || notional.mant() == 0) ==> rn.mant() == 0,
            ;
            assert(x.mant() >= 0) by (nonlinear_arith)
                requires
                    x.mant() == 0 || ((x.mant() > 0) == (rn.mant() * hours.mant() > 0)),
                    rn.mant() >= 0,
                    hours.mant() >= 0,
                    (rn.mant() == 0 || hours.mant() == 0) ==> x.mant() == 0,
            ;
            assert(magnitude.mant() >= 0) by (nonlinear_arith)
                requires
                    magnitude.mant() == 0 || ((magnitude.mant() > 0) == (x.mant() * interval > 0)),
                    x.mant() >= 0,
                    interval >= 1,
                    x.mant() == 0 ==> magnitude.mant() == 0,
            ;
        }
    }
    match side {
        Side::Short => Some(magnitude),
        Side::Long => Some(magnitude.neg()),
    }
}

pub open spec fn some_terms(terms: Seq<Dec>) -> Seq<Option<Dec>> {
    terms.map_values(|t: Dec| Some(t))
}

/// `other` holds, term by term, valid decimals that mirror `terms` (opposite
/// mantissas, same scales).
pub open spec fn mirrored_terms(terms: Seq<Dec>, other: Seq<Option<Dec>>) -> bool {
    &&& other.len() == terms.len()
    &&& forall|k: int|
        0 <= k < terms.len() ==> (#[trigger] other[k] matches Some(o) && o.valid() && terms[k].mirrors(o))
}

proof fn lemma_mirrored_valid_negation(x: Dec, y: Dec)
    requires
        x.valid(),
        y.valid(),
        x.mirrors(y),
        x.mant() != 0,
    ensures
        y == x.spec_neg(),
{
    assert(y.sign_neg() == !x.sign_neg());
    assert(Dec::of_signed(y.mant() as i128, y.scl() as u32, y.sign_neg()) == y);
}

proof fn lemma_zero_is_either_sign(x: Dec, y: Dec)
    requires
        x.valid(),
        y.valid(),
        x.mirrors(y),
        x.mant() == 0,
    ensures
        y == x || y == x.spec_neg(),
{
    assert(Dec::of_signed(y.mant() as i128, y.scl() as u32, y.sign_neg()) == y);
    assert(Dec::of_signed(x.mant() as i128, x.scl() as u32, x.sign_neg()) == x);
}

/// Left-to-right sum of the terms from zero. Summing terms that mirror them
/// gives a sum that mirrors it (the addition is symmetric in sign, up to the
/// sign of a zero).
fn sum_decs(terms: &Vec<Dec>, Ghost(other): Ghost<Seq<Option<Dec>>>) -> (r: Option<Dec>)
    requires
        forall|k: int| 0 <= k < terms@.len() ==> (#[trigger] terms@[k]).valid(),
        mirrored_terms(terms@, other),
    ensures
        r == spec_sum(some_terms(terms@)),
        Dec::mirrors_opt(r, spec_sum(other)),
        spec_sum(other) matches Some(o) ==> o.valid(),
        r matches Some(d) ==> d.valid(),
        (forall|k: int| 0 <= k < terms@.len() ==> (#[trigger] terms@[k]).mant() >= 0) ==> (r matches Some(d) ==> d.mant() >= 0),
        (forall|k: int| 0 <= k < terms@.len() ==> (#[trigger] terms@[k]).mant() <= 0) ==> (r matches Some(d) ==> d.mant() <= 0),
{
    let ghost pos = some_terms(terms@);
    let ghost neg = other;
    let mut acc = Dec::zero();
    let mut i: usize = 0;
    assert(pos.take(0) =~= Seq::<Option<Dec>>::empty());
    assert(neg.take(0) =~= Seq::<Option<Dec>>::empty());
    while i < terms.len()
        invariant
            pos == some_terms(terms@),
            neg == other,
            mirrored_terms(terms@, other),
            forall|k: int| 0 <= k < terms@.len() ==> (#[trigger] terms@[k]).valid(),
            i <= terms@.len(),
            Some(acc) == spec_sum(pos.take(i as int)),
            spec_sum(neg.take(i as int)) matches Some(n) && n.valid() && acc.mirrors(n),
            acc.valid(),
            (forall|k: int| 0 <= k < terms@.len() ==> (#[trigger] terms@[k]).mant() >= 0) ==> acc.mant() >= 0,
            (forall|k: int| 0 <= k < terms@.len() ==> (#[trigger] terms@[k]).mant() <= 0) ==> acc.mant() <= 0,
        decreases terms@.len() - i,
    {
        proof {
            crate::risk::lemma_sum_step(pos, i as int);
            crate::risk::lemma_sum_step(neg, i as int);
        }
        let t = terms[i];
        let ghost n = spec_sum(neg.take(i as int))->0;
        let ghost u = neg[i as int]->0;
        proof {
            assert(terms@[i as int].mirrors(u) && u.valid());
        }
        let next = acc.checked_add(t);
        proof {
            assert(neg[i as int] == Some(u));
            if t.mant() != 0 {
                lemma_mirrored_valid_negation(t, u);
            } else {
                lemma_zero_is_either_sign(t, u);
            }
            if acc.mant() != 0 {
                lemma_mirrored_valid_negation(acc, n);
            } else {
                lemma_zero_is_either_sign(acc, n);
            }
            assert(spec_sum(neg.take(i as int + 1)) == n.spec_add(u));
            assert(Dec::mirrors_opt(next, n.spec_add(u)));
        }
        match next {
            Some(a) => {
                acc = a;
            },
            None => {
                proof {
                    crate::risk::lemma_sum_none_extends(pos, i + 1);
                    crate::risk::lemma_sum_none_extends(neg, i + 1);
                }
                return None;
            },
        }
        i = i + 1;
    }
    assert(pos.take(terms@.len() as int) =~= pos);
    assert(neg.take(terms@.len() as int) =~= neg);
    Some(acc)
}

/// An observation of `asset` made within `[from, to]`.
pub open spec fn is_relevant(o: LoggedFunding, asset: Seq<char>, from: Timestamp, to: Timestamp) -> bool {
    same_asset(o.asset@, asset) && !o.observed_at.spec_before(from) && !to.spec_before(o.observed_at)
}

/// The observations of `asset` within `[from, to]`, in the order given.
pub open spec fn relevant_observations(observations: Seq<LoggedFunding>, asset: Seq<char>, from: Timestamp, to: Timestamp) -> Seq<LoggedFunding>
    decreases observations.len(),
{
    if observations.len() == 0 {
        observations
    } else {
        let prev = relevant_observations(observations.drop_last(), asset, from, to);
        if is_relevant(observations.last(), asset, from, to) {
            prev.push(observations.last())
        } else {
            prev
        }
    }
}

/// The most recent observation of `asset` strictly before `from` (the last one
/// among equally recent ones).
pub open spec fn latest_before(observations: Seq<LoggedFunding>, asset: Seq<char>, from: Timestamp) -> Option<LoggedFunding>
    decreases observations.len(),
{
    if observations.len() == 0 {
        None
    } else {
        let p = latest_before(observations.drop_last(), asset, from);
        let o = observations.last();
        if same_asset(o.asset@, asset) && o.observed_at.spec_before(from) && (p is None
            || !o.observed_at.spec_before(p->0.observed_at)) {
            Some(o)
        } else {
            p
        }
    }
}

/// Funding of one step segment at observation `o`'s rate over `[start, end]`.
pub open spec fn segment(side: Side, notional: Dec, o: LoggedFunding, start: Timestamp, end: Timestamp) -> Option<Dec> {
    spec_apply_rate(side, notional, o.rate, o.interval_hours, start, end)
}

/// Segment from `from` to the first observation, if it comes after `from`.
pub open spec fn pre_terms(side: Side, notional: Dec, from: Timestamp, rel: Seq<LoggedFunding>) -> Seq<Option<Dec>> {
    if from.spec_before(rel[0].observed_at) {
        seq![segment(side, notional, rel[0], from, rel[0].observed_at)]
    } else {
        Seq::empty()
    }
}

/// Segments between consecutive observations, each at the earlier one's rate.
pub open spec fn window_terms(side: Side, notional: Dec, rel: Seq<LoggedFunding>) -> Seq<Option<Dec>> {
    Seq::new((rel.len() - 1) as nat, |k: int| segment(side, notional, rel[k], rel[k].observed_at, rel[k + 1].observed_at))
}

/// Segment from the last observation to `to`, if it comes before `to`.
pub open spec fn post_terms(side: Side, notional: Dec, to: Timestamp, rel: Seq<LoggedFunding>) -> Seq<Option<Dec>> {
    if rel.last().observed_at.spec_before(to) {
        seq![segment(side, notional, rel.last(), rel.last().observed_at, to)]
    } else {
        Seq::empty()
    }
}

pub open spec fn accrual_terms(side: Side, notional: Dec, from: Timestamp, to: Timestamp, rel: Seq<LoggedFunding>) -> Seq<Option<Dec>> {
    pre_terms(side, notional, from, rel) + window_terms(side, notional, rel) + post_terms(side, notional, to, rel)
}

/// Funding accrued over `[from, to]` by a position in `asset` with the given side
/// and notional: zero unless `from < to`; with observations of the asset inside
/// the span (in time order), a step function — the first rate before the first
/// observation, each rate until the next observation, the last rate after the
/// last one; without any, the rate of the latest earlier observation over the
/// whole span, or zero.
pub open spec fn spec_accrued_funding(asset: Seq<char>, side: Side, notional: Dec, from: Timestamp, to: Timestamp, observations: Seq<LoggedFunding>) -> Option<Dec> {
    if !from.spec_before(to) {
        Some(Dec::spec_zero())
    } else {
        let rel = sort_by_time(relevant_observations(observations, asset, from, to), |o: LoggedFunding| observation_time(o));
        if rel.len() == 0 {
            match latest_before(observations, asset, from) {
                Some(p) => segment(side, notional, p, from, to),
                None => Some(Dec::spec_zero()),
            }
        } else {
            spec_sum(accrual_terms(side, notional, from, to, rel))
        }
    }
}

fn relevant_of(asset: &str, from: &Timestamp, to: &Timestamp, observations: &[LoggedFunding]) -> (r: Vec<LoggedFunding>)
    ensures
        r@ == relevant_observations(observations@, asset@, *from, *to),
{
    let mut out: Vec<LoggedFunding> = Vec::new();
    let mut i: usize = 0;
    assert(observations@.take(0) =~= Seq::<LoggedFunding>::empty());
    while i < observations.len()
        invariant
            i <= observations@.len(),
            out@ == relevant_observations(observations@.take(i as int), asset@, *from, *to),
        decreases observations@.len() - i,
    {
        assert(observations@.take(i as int + 1).drop_last() =~= observations@.take(i as int));
        assert(observations@.take(i as int + 1).last() == observations@[i as int]);
        let o = &observations[i];
        if eq_ignore_ascii_case(o.asset.as_str(), asset) && !o.observed_at.before(from) && !to.before(&o.observed_at) {
            out.push(o.duplicate());
        }
        i = i + 1;
    }
    assert(observations@.take(observations@.len() as int) =~= observations@);
    out
}

fn latest_before_of(asset: &str, from: &Timestamp, observations: &[LoggedFunding]) -> (r: Option<usize>)
    ensures
        match latest_before(observations@, asset@, *from) {
            Some(o) => r matches Some(b) && b < observations@.len() && observations@[b as int] == o,
            None => r is None,
        },
{
    let mut best: Option<usize> = None;
    let mut i: usize = 0;
    assert(observations@.take(0) =~= Seq::<LoggedFunding>::empty());
    while i < observations.len()
        invariant
            i <= observations@.len(),
            match latest_before(observations@.take(i as int), asset@, *from) {
                Some(o) => best matches Some(b) && b < i && observations@[b as int] == o,
                None => best is None,
            },
        decreases observations@.len() - i,
    {
        assert(observations@.take(i as int + 1).drop_last() =~= observations@.take(i as int));
        assert(observations@.take(i as int + 1).last() == observations@[i as int]);
        let o = &observations[i];
        if eq_ignore_ascii_case(o.asset.as_str(), asset) && o.observed_at.before(from) {
            let replace = match best {
                None => true,
                Some(b) => !o.observed_at.before(&observations[b].observed_at),
            };
            if replace {
                best = Some(i);
            }
        }
        i = i + 1;
    }
    assert(observations@.take(observations@.len() as int) =~= observations@);
    best
}

/// Every observation of `asset` has a non-negative rate.
pub open spec fn rates_nonneg(observations: Seq<LoggedFunding>, asset: Seq<char>) -> bool {
    forall|i: int| 0 <= i < observations.len() && same_asset((#[trigger] observations[i]).asset@, asset) ==> observations[i].rate.mant() >= 0
}

proof fn lemma_relevant_rates(observations: Seq<LoggedFunding>, asset: Seq<char>, from: Timestamp, to: Timestamp)
    requires
        rates_nonneg(observations, asset),
    ensures
        forall|i: int| 0 <= i < relevant_observations(observations, asset, from, to).len()
            ==> (#[trigger] relevant_observations(observations, asset, from, to)[i]).rate.mant() >= 0,
    decreases observations.len(),
{
    if observations.len() > 0 {
        let d = observations.drop_last();
        assert(rates_nonneg(d, asset)) by {
            assert forall|i: int| 0 <= i < d.len() && same_asset((#[trigger] d[i]).asset@, asset) implies d[i].rate.mant() >= 0 by {
                assert(d[i] == observations[i]);
            }
        }
        lemma_relevant_rates(d, asset, from, to);
        assert(observations[observations.len() - 1] == observations.last());
    }
}

proof fn lemma_latest_before_rate(observations: Seq<LoggedFunding>, asset: Seq<char>, from: Timestamp)
    requires
        rates_nonneg(observations, asset),
    ensures
        latest_before(observations, asset, from) matches Some(o) ==> o.rate.mant() >= 0,
    decreases observations.len(),
{
    if observations.len() > 0 {
        let d = observations.drop_last();
        assert(rates_nonneg(d, asset)) by {
            assert forall|i: int| 0 <= i < d.len() && same_asset((#[trigger] d[i]).asset@, asset) implies d[i].rate.mant() >= 0 by {
                assert(d[i] == observations[i]);
            }
        }
        lemma_latest_before_rate(d, asset, from);
        assert(observations[observations.len() - 1] == observations.last());
    }
}

proof fn lemma_sort_members<T>(s: Seq<T>, time: spec_fn(T) -> Timestamp, i: int)
    requires
        0 <= i < sort_by_time(s, time).len(),
    ensures
        sort_by_time(s, time).len() == s.len(),
        exists|k: int| 0 <= k < s.len() && s[k] == sort_by_time(s, time)[i],
    decreases s.len(),
{
    lemma_sort_by_time_ordered(s, time);
    if s.len() > 0 {
        let d = s.drop_last();
        let t = sort_by_time(d, time);
        lemma_insert_members(t, s.last(), time, i);
        let x = sort_by_time(s, time)[i];
        if x == s.last() {
            assert(s[s.len() - 1] == x);
        } else {
            let j = choose|j: int| 0 <= j < t.len() && t[j] == x;
            lemma_sort_members(d, time, j);
            let k = choose|k: int| 0 <= k < d.len() && d[k] == t[j];
            assert(s[k] == d[k]);
        }
    }
}

proof fn lemma_sorted_rates(s: Seq<LoggedFunding>, t: Seq<LoggedFunding>)
    requires
        forall|i: int| 0 <= i < s.len() ==> (#[trigger] s[i]).rate.mant() >= 0,
        t == sort_by_time(s, |o: LoggedFunding| observation_time(o)),
    ensures
        forall|i: int| 0 <= i < t.len() ==> (#[trigger] t[i]).rate.mant() >= 0,
{
    let time = |o: LoggedFunding| observation_time(o);
    assert forall|i: int| 0 <= i < t.len() implies (#[trigger] t[i]).rate.mant() >= 0 by {
        lemma_sort_members(s, time, i);
    }
}

fn compute_accrued_funding(asset: &str, side: Side, notional: Dec, from: Timestamp, to: Timestamp, observations: &[LoggedFunding]) -> (r: Option<Dec>)
    ensures
        r == spec_accrued_funding(asset@, side, notional, from, to, observations@),
        Dec::mirrors_opt(r, spec_accrued_funding(asset@, side.spec_flip(), notional, from, to, observations@)),
        rates_nonneg(observations@, asset@) && notional.mant() >= 0 ==> (r matches Some(d) ==> signed_for(side, d)),
{
    if !from.before(&to) {
        return Some(Dec::zero());
    }
    let rel = sort_observations_by_time(relevant_of(asset, &from, &to, observations));
    let ghost good = rates_nonneg(observations@, asset@) && notional.mant() >= 0;
    proof {
        if good {
            lemma_relevant_rates(observations@, asset@, from, to);
            lemma_sorted_rates(relevant_observations(observations@, asset@, from, to), rel@);
            lemma_latest_before_rate(observations@, asset@, from);
        }
    }
    let n = rel.len();
    if n == 0 {
        return match latest_before_of(asset, &from, observations) {
            Some(b) => apply_rate(side, notional, observations[b].rate, observations[b].interval_hours, from, to),
            None => Some(Dec::zero()),
        };
    }
    let ghost fside = side.spec_flip();
    let ghost pre = pre_terms(side, notional, from, rel@);
    let ghost pre_f = pre_terms(fside, notional, from, rel@);
    let ghost win = window_terms(side, notional, rel@);
    let ghost win_f = window_terms(fside, notional, rel@);
    let ghost post = post_terms(side, notional, to, rel@);
    let ghost post_f = post_terms(fside, notional, to, rel@);
    let ghost all = accrual_terms(side, notional, from, to, rel@);
    let ghost all_f = accrual_terms(fside, notional, from, to, rel@);
    let mut terms: Vec<Dec> = Vec::new();
    if from.before(&rel[0].observed_at) {
        match apply_rate(side, notional, rel[0].rate, rel[0].interval_hours, from, rel[0].observed_at) {
            Some(t) => terms.push(t),
            None => {
                proof {
                    crate::risk::lemma_sum_none_at(all, 0);
                    crate::risk::lemma_sum_none_at(all_f, 0);
                }
                return None;
            },
        }
    }
    assert(some_terms(terms@) =~= pre);
    assert(mirrored_terms(terms@, pre_f));
    let p0 = terms.len();
    let mut k: usize = 0;
    while k + 1 < n
        invariant
            n == rel@.len(),
            n >= 1,
            p0 == pre.len(),
            pre.len() <= 1,
            k + 1 <= n,
            terms@.len() == p0 + k,
            forall|q: int| 0 <= q < terms@.len() ==> (#[trigger] terms@[q]).valid(),
            some_terms(terms@) == pre + win.take(k as int),
            mirrored_terms(terms@, pre_f + win_f.take(k as int)),
            all == pre + win + post,
            all_f == pre_f + win_f + post_f,
            win == window_terms(side, notional, rel@),
            win_f == window_terms(fside, notional, rel@),
            pre_f.len() == pre.len(),
            fside == side.spec_flip(),
            from.spec_before(to),
            rel@ == sort_by_time(relevant_observations(observations@, asset@, from, to), |o: LoggedFunding| observation_time(o)),
            all == accrual_terms(side, notional, from, to, rel@),
            all_f == accrual_terms(fside, notional, from, to, rel@),
            good == (rates_nonneg(observations@, asset@) && notional.mant() >= 0),
            good ==> forall|q: int| 0 <= q < n ==> (#[trigger] rel@[q]).rate.mant() >= 0,
            good ==> forall|q: int| 0 <= q < terms@.len() ==> signed_for(side, #[trigger] terms@[q]),
        decreases n - k,
    {
        let a = &rel[k];
        let b = &rel[k + 1];
        match apply_rate(side, notional, a.rate, a.interval_hours, a.observed_at, b.observed_at) {
            Some(t) => {
                let ghost old_terms = terms@;
                terms.push(t);
                assert(win[k as int] == Some(t));
                assert(win_f[k as int] matches Some(o) && o.valid() && t.mirrors(o));
                assert(terms@ == old_terms.push(t));
                assert(some_terms(terms@) =~= some_terms(old_terms).push(Some(t)));
                assert(win.take(k as int + 1) =~= win.take(k as int).push(win[k as int]));
                assert(win_f.take(k as int + 1) =~= win_f.take(k as int).push(win_f[k as int]));
                assert(some_terms(terms@) =~= pre + win.take(k as int + 1));
                let ghost mf = pre_f + win_f.take(k as int + 1);
                assert(mf =~= (pre_f + win_f.take(k as int)).push(win_f[k as int]));
                assert forall|q: int| 0 <= q < terms@.len() implies (#[trigger] mf[q] matches Some(o) && o.valid()
                    && terms@[q].mirrors(o)) by {
                    if q < old_terms.len() {
                        assert(mf[q] == (pre_f + win_f.take(k as int))[q]);
                        assert(terms@[q] == old_terms[q]);
                    }
                }
                assert(mirrored_terms(terms@, mf));
            },
            None => {
                proof {
                    assert(all[p0 + k] == win[k as int]);
                    assert(all_f[p0 + k] == win_f[k as int]);
                    crate::risk::lemma_sum_none_at(all, p0 + k);
                    crate::risk::lemma_sum_none_at(all_f, p0 + k);
                }
                return None;
            },
        }
        k = k + 1;
    }
    assert(win.take(k as int) =~= win);
    assert(win_f.take(k as int) =~= win_f);
    let last = &rel[n - 1];
    assert(rel@.last() == rel@[n as int - 1]);
    if last.observed_at.before(&to) {
        match apply_rate(side, notional, last.rate, last.interval_hours, last.observed_at, to) {
            Some(t) => terms.push(t),
            None => {
                proof {
                    let at = (pre.len() + win.len()) as int;
                    assert(all[at] == post[0]);
                    assert(all_f[at] == post_f[0]);
                    crate::risk::lemma_sum_none_at(all, at);
                    crate::risk::lemma_sum_none_at(all_f, at);
                }
                return None;
            },
        }
    }
    assert(some_terms(terms@) =~= all);
    assert(mirrored_terms(terms@, all_f));
    proof {
        if good {
            match side {
                Side::Short => assert(forall|q: int| 0 <= q < terms@.len() ==> (#[trigger] terms@[q]).mant() >= 0),
                Side::Long => assert(forall|q: int| 0 <= q < terms@.len() ==> (#[trigger] terms@[q]).mant() <= 0),
            }
        }
    }
    sum_decs(&terms, Ghost(all_f))
}

/// Step-integrated funding over `[from, to]` for a position in `asset` with the
/// given side and notional, in USD: positive = earned, negative = paid. A
/// positive rate means longs pay shorts; the two sides accrue negations of
/// each other (the same digits with the opposite sign; a zero may carry either
/// sign bit, as the arithmetic gives it).
pub fn accrued_funding(asset: &str, side: Side, notional: Dec, from: Timestamp, to: Timestamp, observations: &[LoggedFunding]) -> (r: Dec)
    requires
        spec_accrued_funding(asset@, side, notional, from, to, observations@) is Some,
    ensures
        Some(r) == spec_accrued_funding(asset@, side, notional, from, to, observations@),
        spec_accrued_funding(asset@, side.spec_flip(), notional, from, to, observations@) matches Some(o) && r.mirrors(o),
        rates_nonneg(observations@, asset@) && notional.mant() >= 0 ==> signed_for(side, r),
{
    compute_accrued_funding(asset, side, notional, from, to, observations).unwrap()
}

/// `accrued_funding`, or `None` where it would overflow.
pub fn try_accrued_funding(asset: &str, side: Side, notional: Dec, from: Timestamp, to: Timestamp, observations: &[LoggedFunding]) -> (r: Option<Dec>)
    ensures
        r == spec_accrued_funding(asset@, side, notional, from, to, observations@),
        Dec::mirrors_opt(r, spec_accrued_funding(asset@, side.spec_flip(), notional, from, to, observations@)),
        rates_nonneg(observations@, asset@) && notional.mant() >= 0 ==> (r matches Some(d) ==> signed_for(side, d)),
{
    match compute_accrued_funding(asset, side, notional, from, to, observations) {
        Some(_) => Some(accrued_funding(asset, side, notional, from, to, observations)),
        None => None,
    }
}

// ---------------------------------------------------------------------------
// Laws
// ---------------------------------------------------------------------------

/// The observations of `asset` (ignoring ASCII case), in order.
pub open spec fn observations_of(observations: Seq<LoggedFunding>, asset: Seq<char>) -> Seq<LoggedFunding>
    decreases observations.len(),
{
    if observations.len() == 0 {
        observations
    } else if same_asset(observations.last().asset@, asset) {
        observations_of(observations.drop_last(), asset).push(observations.last())
    } else {
        observations_of(observations.drop_last(), asset)
    }
}

proof fn lemma_relevant_of_asset(observations: Seq<LoggedFunding>, asset: Seq<char>, from: Timestamp, to: Timestamp)
    ensures
        relevant_observations(observations, asset, from, to) == relevant_observations(observations_of(observations, asset), asset, from, to),
        latest_before(observations, asset, from) == latest_before(observations_of(observations, asset), asset, from),
    decreases observations.len(),
{
    if observations.len() > 0 {
        let d = observations.drop_last();
        lemma_relevant_of_asset(d, asset, from, to);
        if same_asset(observations.last().asset@, asset) {
            let f = observations_of(d, asset).push(observations.last());
            assert(f.drop_last() =~= observations_of(d, asset));
        }
    }
}

/// `o` is an observation of `asset` made before `from`.
pub open spec fn is_prior(o: LoggedFunding, asset: Seq<char>, from: Timestamp) -> bool {
    same_asset(o.asset@, asset) && o.observed_at.spec_before(from)
}

/// `o` is one of the observations of `asset` made before `from`, none of them
/// is more recent than `o`, and every one listed after `o` is older (among
/// equally recent ones, the last listed).
pub open spec fn is_latest_prior(observations: Seq<LoggedFunding>, asset: Seq<char>, from: Timestamp, o: LoggedFunding) -> bool {
    &&& exists|w: int|
        0 <= w < observations.len() && #[trigger] observations[w] == o && forall|j: int|
            w < j < observations.len() && is_prior(#[trigger] observations[j], asset, from)
                ==> observations[j].observed_at.spec_before(o.observed_at)
    &&& is_prior(o, asset, from)
    &&& forall|j: int|
        0 <= j < observations.len() && is_prior(#[trigger] observations[j], asset, from) ==> !o.observed_at.spec_before(
            observations[j].observed_at,
        )
}

proof fn lemma_latest_before_is_latest(observations: Seq<LoggedFunding>, asset: Seq<char>, from: Timestamp)
    ensures
        match latest_before(observations, asset, from) {
            Some(o) => is_latest_prior(observations, asset, from, o),
            None => forall|j: int| 0 <= j < observations.len() ==> !is_prior(#[trigger] observations[j], asset, from),
        },
    decreases observations.len(),
{
    if observations.len() > 0 {
        let d = observations.drop_last();
        let o = observations.last();
        let last = d.len() as int;
        lemma_latest_before_is_latest(d, asset, from);
        assert(observations[last] == o);
        assert forall|j: int| 0 <= j < d.len() implies observations[j] == d[j] by {}
        match latest_before(observations, asset, from) {
            Some(r) => {
                if r == o && is_prior(o, asset, from) && (latest_before(d, asset, from) is None
                    || !o.observed_at.spec_before(latest_before(d, asset, from)->0.observed_at)) {
                    assert forall|j: int| 0 <= j < observations.len() && is_prior(#[trigger] observations[j], asset, from) implies !r.observed_at.spec_before(
                        observations[j].observed_at,
                    ) by {
                        if j != last {
                            assert(observations[j] == d[j]);
                        }
                    }
                    assert(observations[last] == r);
                } else {
                    assert(latest_before(d, asset, from) == Some(r));
                    let w = choose|w: int|
                        0 <= w < d.len() && #[trigger] d[w] == r && forall|j: int|
                            w < j < d.len() && is_prior(#[trigger] d[j], asset, from) ==> d[j].observed_at.spec_before(r.observed_at);
                    assert(observations[w] == r);
                    assert forall|j: int| w < j < observations.len() && is_prior(#[trigger] observations[j], asset, from) implies observations[j].observed_at.spec_before(
                        r.observed_at,
                    ) by {
                        if j != last {
                            assert(observations[j] == d[j]);
                        }
                    }
                    assert forall|j: int| 0 <= j < observations.len() && is_prior(#[trigger] observations[j], asset, from) implies !r.observed_at.spec_before(
                        observations[j].observed_at,
                    ) by {
                        if j != last {
                            assert(observations[j] == d[j]);
                        }
                    }
                }
            },
            None => {
                assert forall|j: int| 0 <= j < observations.len() implies !is_prior(#[trigger] observations[j], asset, from) by {
                    if j != last {
                        assert(observations[j] == d[j]);
                    }
                }
            },
        }
    }
}

proof fn lemma_no_relevant(observations: Seq<LoggedFunding>, asset: Seq<char>, from: Timestamp, to: Timestamp)
    requires
        forall|j: int| 0 <= j < observations.len() ==> !is_relevant(#[trigger] observations[j], asset, from, to),
    ensures
        relevant_observations(observations, asset, from, to).len() == 0,
    decreases observations.len(),
{
    if observations.len() > 0 {
        let d = observations.drop_last();
        assert forall|j: int| 0 <= j < d.len() implies !is_relevant(#[trigger] d[j], asset, from, to) by {
            assert(d[j] == observations[j]);
        }
        lemma_no_relevant(d, asset, from, to);
        assert(observations[observations.len() - 1] == observations.last());
    }
}

/// With no observation of the asset inside `[from, to]` (and `from < to`), the
/// accrual is the segment over `[from, to]` at the rate of the most recent
/// observation of the asset before `from` (no other one before `from` is more
/// recent), or zero when there is none before `from`.
pub proof fn lemma_accrual_uses_latest_prior(
    asset: Seq<char>,
    side: Side,
    notional: Dec,
    from: Timestamp,
    to: Timestamp,
    observations: Seq<LoggedFunding>,
)
    requires
        from.spec_before(to),
        forall|j: int| 0 <= j < observations.len() ==> !is_relevant(#[trigger] observations[j], asset, from, to),
    ensures
        (forall|j: int| 0 <= j < observations.len() ==> !is_prior(#[trigger] observations[j], asset, from))
            ==> spec_accrued_funding(asset, side, notional, from, to, observations) == Some(Dec::spec_zero()),
        (exists|j: int| 0 <= j < observations.len() && is_prior(#[trigger] observations[j], asset, from)) ==> exists|o: LoggedFunding|
            is_latest_prior(observations, asset, from, o) && spec_accrued_funding(asset, side, notional, from, to, observations)
                == #[trigger] segment(side, notional, o, from, to),
{
    lemma_no_relevant(observations, asset, from, to);
    let rel = relevant_observations(observations, asset, from, to);
    lemma_sort_by_time_ordered(rel, |o: LoggedFunding| observation_time(o));
    lemma_latest_before_is_latest(observations, asset, from);
    if let Some(o) = latest_before(observations, asset, from) {
        assert(is_latest_prior(observations, asset, from, o));
        assert(spec_accrued_funding(asset, side, notional, from, to, observations) == segment(side, notional, o, from, to));
    } else {
        if exists|j: int| 0 <= j < observations.len() && is_prior(#[trigger] observations[j], asset, from) {
            let j = choose|j: int| 0 <= j < observations.len() && is_prior(#[trigger] observations[j], asset, from);
            assert(!is_prior(observations[j], asset, from));
        }
    }
}

/// Funding accrual depends only on the observations of the position's asset:
/// two logs with the same observations of that asset, in the same order, give
/// the same accrual, whatever else they hold.
pub proof fn lemma_accrual_ignores_other_assets(
    asset: Seq<char>,
    side: Side,
    notional: Dec,
    from: Timestamp,
    to: Timestamp,
    a: Seq<LoggedFunding>,
    b: Seq<LoggedFunding>,
)
    requires
        observations_of(a, asset) == observations_of(b, asset),
    ensures
        spec_accrued_funding(asset, side, notional, from, to, a) == spec_accrued_funding(asset, side, notional, from, to, b),
{
    lemma_relevant_of_asset(a, asset, from, to);
    lemma_relevant_of_asset(b, asset, from, to);
}

/// A closed trade pairs an Open fill with a later Close fill of the same asset
/// (ignoring ASCII case), and takes its asset and side from the Open.
pub open spec fn well_paired(c: ClosedTrade) -> bool {
    &&& c.open.intent == FillIntent::Open
    &&& c.close.intent == FillIntent::Close
    &&& upper_seq(c.open.asset@) == upper_seq(c.close.asset@)
    &&& c.asset == c.open.asset
    &&& c.side == c.open.side
}

/// The current Opens: Open fills keyed by their uppercased asset, one per key.
pub open spec fn open_entries_ok(entries: Seq<(Seq<char>, Fill)>) -> bool {
    &&& forall|i: int| 0 <= i < entries.len() ==> (#[trigger] entries[i]).1.intent == FillIntent::Open
        && entries[i].0 == upper_seq(entries[i].1.asset@)
    &&& forall|i: int, j: int| 0 <= i < j < entries.len() ==> (#[trigger] entries[i]).0 != (#[trigger] entries[j]).0
}

/// Pairing only ever pairs an Open with a Close of the same asset, and leaves
/// at most one open trade per asset, each an Open fill; closed and open trades
/// together never outnumber the fills.
pub proof fn lemma_pairing_shape(fills: Seq<Fill>)
    ensures
        forall|i: int| 0 <= i < pair_state(fills).0.len() ==> well_paired(#[trigger] pair_state(fills).0[i]),
        open_entries_ok(pair_state(fills).1),
        pair_state(fills).0.len() + pair_state(fills).1.len() <= fills.len(),
    decreases fills.len(),
{
    if fills.len() > 0 {
        let d = fills.drop_last();
        lemma_pairing_shape(d);
        let prev = pair_state(d);
        let f = fills.last();
        let k = upper_seq(f.asset@);
        lemma_key_index(prev.1, k);
        let now = pair_state(fills);
        match f.intent {
            FillIntent::Open => match key_index(prev.1, k) {
                Some(i) => {
                    assert forall|a: int, b: int| 0 <= a < b < now.1.len() implies (#[trigger] now.1[a]).0 != (#[trigger] now.1[b]).0 by {
                        assert(now.1[a].0 == prev.1[a].0 && now.1[b].0 == prev.1[b].0);
                    }
                },
                None => {
                    assert forall|a: int, b: int| 0 <= a < b < now.1.len() implies (#[trigger] now.1[a]).0 != (#[trigger] now.1[b]).0 by {
                        if b < prev.1.len() {
                            assert(now.1[a] == prev.1[a] && now.1[b] == prev.1[b]);
                        } else {
                            assert(now.1[a] == prev.1[a]);
                        }
                    }
                },
            },
            FillIntent::Close => match key_index(prev.1, k) {
                Some(i) => {
                    assert(well_paired(now.0.last()));
                    assert forall|j: int| 0 <= j < now.0.len() implies well_paired(#[trigger] now.0[j]) by {
                        if j < prev.0.len() {
                            assert(now.0[j] == prev.0[j]);
                        }
                    }
                    assert forall|a: int| 0 <= a < now.1.len() implies (#[trigger] now.1[a]).1.intent == FillIntent::Open
                        && now.1[a].0 == upper_seq(now.1[a].1.asset@) by {
                        if a < i {
                            assert(now.1[a] == prev.1[a]);
                        } else {
                            assert(now.1[a] == prev.1[a + 1]);
                        }
                    }
                    assert forall|a: int, b: int| 0 <= a < b < now.1.len() implies (#[trigger] now.1[a]).0 != (#[trigger] now.1[b]).0 by {
                        let a2 = if a < i { a } else { a + 1 };
                        let b2 = if b < i { b } else { b + 1 };
                        assert(now.1[a] == prev.1[a2] && now.1[b] == prev.1[b2]);
                    }
                },
                None => {},
            },
        }
    }
}

/// Latest mids: every asset kept carries the mid of one of its observations,
/// and no observation of that asset carrying a mid is more recent.
pub proof fn lemma_latest_mids_most_recent(observations: Seq<LoggedFunding>)
    ensures
        forall|k: Seq<char>| #[trigger] latest_state(observations).contains_key(k) ==> exists|i: int|
            0 <= i < observations.len() && upper_seq(observations[i].asset@) == k
                && observations[i].mid_price == Some(latest_state(observations)[k].1)
                && observations[i].observed_at == latest_state(observations)[k].0,
        forall|i: int| 0 <= i < observations.len() && (#[trigger] observations[i]).mid_price is Some ==> {
            let k = upper_seq(observations[i].asset@);
            &&& latest_state(observations).contains_key(k)
            &&& !latest_state(observations)[k].0.spec_before(observations[i].observed_at)
        },
    decreases observations.len(),
{
    if observations.len() > 0 {
        let d = observations.drop_last();
        lemma_latest_mids_most_recent(d);
        let m = latest_state(d);
        let m2 = latest_state(observations);
        let o = observations.last();
        let n = observations.len() - 1;
        assert forall|k: Seq<char>| #[trigger] m2.contains_key(k) implies exists|i: int|
            0 <= i < observations.len() && upper_seq(observations[i].asset@) == k
                && observations[i].mid_price == Some(m2[k].1) && observations[i].observed_at == m2[k].0 by {
            if m2 == m || k != upper_seq(o.asset@) {
                if m.contains_key(k) && m2[k] == m[k] {
                    let i = choose|i: int|
                        0 <= i < d.len() && upper_seq(d[i].asset@) == k && d[i].mid_price == Some(m[k].1) && d[i].observed_at == m[k].0;
                    assert(observations[i] == d[i]);
                } else {
                    assert(observations[n] == o);
                }
            } else {
                assert(observations[n] == o);
            }
        }
        assert forall|i: int| 0 <= i < observations.len() && (#[trigger] observations[i]).mid_price is Some implies {
            let k = upper_seq(observations[i].asset@);
            &&& m2.contains_key(k)
            &&& !m2[k].0.spec_before(observations[i].observed_at)
        } by {
            if i < n {
                assert(observations[i] == d[i]);
            }
        }
    }
}

/// The Open of a closed trade is an earlier fill than its Close, and every
/// current Open is one of the fills.
pub open spec fn pairs_in_order(fills: Seq<Fill>, closed: Seq<ClosedTrade>, open: Seq<(Seq<char>, Fill)>) -> bool {
    &&& forall|j: int| 0 <= j < closed.len() ==> exists|a: int, b: int|
        0 <= a < b < fills.len() && fills[a] == (#[trigger] closed[j]).open && fills[b] == closed[j].close
    &&& forall|j: int| 0 <= j < open.len() ==> exists|a: int| 0 <= a < fills.len() && fills[a] == (#[trigger] open[j]).1
}

proof fn lemma_pairs_in_order(fills: Seq<Fill>)
    ensures
        pairs_in_order(fills, pair_state(fills).0, pair_state(fills).1),
    decreases fills.len(),
{
    if fills.len() > 0 {
        let d = fills.drop_last();
        lemma_pairs_in_order(d);
        let prev = pair_state(d);
        let now = pair_state(fills);
        let n = fills.len() - 1;
        let f = fills.last();
        let k = upper_seq(f.asset@);
        lemma_key_index(prev.1, k);
        assert(fills[n] == f);
        assert forall|j: int| 0 <= j < now.0.len() implies exists|a: int, b: int|
            0 <= a < b < fills.len() && fills[a] == (#[trigger] now.0[j]).open && fills[b] == now.0[j].close by {
            if j < prev.0.len() {
                assert(now.0[j] == prev.0[j]);
                let (a, b) = choose|a: int, b: int| 0 <= a < b < d.len() && d[a] == prev.0[j].open && d[b] == prev.0[j].close;
                assert(fills[a] == d[a] && fills[b] == d[b]);
            } else {
                let i = key_index(prev.1, k)->0;
                let a = choose|a: int| 0 <= a < d.len() && d[a] == prev.1[i].1;
                assert(fills[a] == d[a]);
                assert(fills[a] == now.0[j].open && fills[n] == now.0[j].close);
            }
        }
        assert forall|j: int| 0 <= j < now.1.len() implies exists|a: int| 0 <= a < fills.len() && fills[a] == (#[trigger] now.1[j]).1 by {
            match f.intent {
                FillIntent::Open => match key_index(prev.1, k) {
                    Some(i) => {
                        if j == i {
                            assert(now.1[j].1 == fills[n]);
                        } else {
                            let a = choose|a: int| 0 <= a < d.len() && d[a] == prev.1[j].1;
                            assert(fills[a] == d[a] && now.1[j] == prev.1[j]);
                        }
                    },
                    None => {
                        if j == prev.1.len() {
                            assert(now.1[j].1 == fills[n]);
                        } else {
                            let a = choose|a: int| 0 <= a < d.len() && d[a] == prev.1[j].1;
                            assert(fills[a] == d[a] && now.1[j] == prev.1[j]);
                        }
                    },
                },
                FillIntent::Close => match key_index(prev.1, k) {
                    Some(i) => {
                        let j2 = if j < i { j } else { j + 1 };
                        assert(now.1[j] == prev.1[j2]);
                        let a = choose|a: int| 0 <= a < d.len() && d[a] == prev.1[j2].1;
                        assert(fills[a] == d[a]);
                    },
                    None => {
                        let a = choose|a: int| 0 <= a < d.len() && d[a] == prev.1[j].1;
                        assert(fills[a] == d[a]);
                    },
                },
            }
        }
    }
}

/// With fills in time order, every closed trade was opened no later than it
/// was closed.
pub proof fn lemma_closed_trades_in_time_order(fills: Seq<Fill>)
    requires
        time_ordered(fills, |f: Fill| fill_time(f)),
    ensures
        forall|j: int| 0 <= j < pair_state(fills).0.len() ==>
            !(#[trigger] pair_state(fills).0[j]).close.filled_at.spec_before(pair_state(fills).0[j].open.filled_at),
{
    lemma_pairs_in_order(fills);
    let closed = pair_state(fills).0;
    assert forall|j: int| 0 <= j < closed.len() implies !(#[trigger] closed[j]).close.filled_at.spec_before(closed[j].open.filled_at) by {
        let (a, b) = choose|a: int, b: int| 0 <= a < b < fills.len() && fills[a] == closed[j].open && fills[b] == closed[j].close;
        assert(!fill_time(fills[b]).spec_before(fill_time(fills[a])));
    }
}

} // verus!
