//! Rows keyed by text, kept in ascending key order with no key twice: the
//! order in which the summary tables list their assets.
use vstd::prelude::*;

verus! {

/// Strict order of strings by their characters' codes, a proper prefix
/// first; it is the order of `String`'s `Ord` (UTF-8 bytes compare as the
/// code points they encode).
pub open spec fn key_lt(a: Seq<char>, b: Seq<char>) -> bool
    decreases a.len(),
{
    if a.len() == 0 {
        b.len() > 0
    } else if b.len() == 0 {
        false
    } else if a[0] != b[0] {
        (a[0] as int) < (b[0] as int)
    } else {
        key_lt(a.drop_first(), b.drop_first())
    }
}

pub proof fn lemma_key_lt_irreflexive(a: Seq<char>)
    ensures
        !key_lt(a, a),
    decreases a.len(),
{
    if a.len() > 0 {
        lemma_key_lt_irreflexive(a.drop_first());
    }
}

pub proof fn lemma_key_lt_transitive(a: Seq<char>, b: Seq<char>, c: Seq<char>)
    requires
        key_lt(a, b),
        key_lt(b, c),
    ensures
        key_lt(a, c),
    decreases a.len(),
{
    if a.len() > 0 && b.len() > 0 && c.len() > 0 && a[0] == b[0] && b[0] == c[0] {
        lemma_key_lt_transitive(a.drop_first(), b.drop_first(), c.drop_first());
    }
}

pub proof fn lemma_key_lt_total(a: Seq<char>, b: Seq<char>)
    requires
        a != b,
    ensures
        key_lt(a, b) || key_lt(b, a),
    decreases a.len(),
{
    if a.len() == 0 && b.len() == 0 {
        assert(a =~= b);
    } else if a.len() > 0 && b.len() > 0 {
        if a[0] != b[0] {
            assert((a[0] as int) != (b[0] as int));
        } else if a.drop_first() =~= b.drop_first() {
            assert forall|i: int| 0 <= i < a.len() implies a[i] == b[i] by {
                if i > 0 {
                    assert(a[i] == a.drop_first()[i - 1] && b[i] == b.drop_first()[i - 1]);
                }
            }
            assert(a =~= b);
        } else {
            lemma_key_lt_total(a.drop_first(), b.drop_first());
        }
    }
}

pub proof fn lemma_key_lt_asymmetric(a: Seq<char>, b: Seq<char>)
    requires
        key_lt(a, b),
    ensures
        !key_lt(b, a),
{
    if key_lt(b, a) {
        lemma_key_lt_transitive(a, b, a);
        lemma_key_lt_irreflexive(a);
    }
}

/// Whether `a` comes strictly before `b`.
pub fn key_less(a: &str, b: &str) -> (r: bool)
    ensures
        r == key_lt(a@, b@),
{
    let n = a.unicode_len();
    let m = b.unicode_len();
    let mut i: usize = 0;
    assert(a@.skip(0) =~= a@ && b@.skip(0) =~= b@);
    while i < n && i < m
        invariant
            n == a@.len(),
            m == b@.len(),
            i <= n,
            i <= m,
            key_lt(a@, b@) == key_lt(a@.skip(i as int), b@.skip(i as int)),
        decreases n - i,
    {
        let x = a.get_char(i);
        let y = b.get_char(i);
        assert(a@.skip(i as int)[0] == x && b@.skip(i as int)[0] == y);
        if x != y {
            return (x as u32) < (y as u32);
        }
        assert(a@.skip(i as int).drop_first() =~= a@.skip(i + 1));
        assert(b@.skip(i as int).drop_first() =~= b@.skip(i + 1));
        i = i + 1;
    }
    i < m
}

/// Ascending keys, none twice.
pub open spec fn sorted_keys<V>(rows: Seq<(Seq<char>, V)>) -> bool {
    forall|i: int, j: int| 0 <= i < j < rows.len() ==> key_lt(#[trigger] rows[i].0, #[trigger] rows[j].0)
}

/// The rows with their keys taken as text.
pub open spec fn keyed<V>(rows: Seq<(String, V)>) -> Seq<(Seq<char>, V)> {
    rows.map_values(|e: (String, V)| (e.0@, e.1))
}

/// Index of the row with key `k`.
pub open spec fn key_position<V>(rows: Seq<(Seq<char>, V)>, k: Seq<char>) -> Option<int>
    decreases rows.len(),
{
    if rows.len() == 0 {
        None
    } else if rows.last().0 == k {
        Some(rows.len() - 1)
    } else {
        key_position(rows.drop_last(), k)
    }
}

/// Where a row with key `k` goes to keep the keys ascending: after every
/// smaller key.
pub open spec fn insert_position<V>(rows: Seq<(Seq<char>, V)>, k: Seq<char>) -> int
    decreases rows.len(),
{
    if rows.len() == 0 {
        0
    } else if key_lt(rows.last().0, k) {
        rows.len() as int
    } else {
        insert_position(rows.drop_last(), k)
    }
}

pub proof fn lemma_key_position<V>(rows: Seq<(Seq<char>, V)>, k: Seq<char>)
    requires
        sorted_keys(rows),
    ensures
        match key_position(rows, k) {
            Some(i) => 0 <= i < rows.len() && rows[i].0 == k,
            None => forall|j: int| 0 <= j < rows.len() ==> rows[j].0 != k,
        },
        forall|j: int| 0 <= j < rows.len() && rows[j].0 == k ==> key_position(rows, k) == Some(j),
    decreases rows.len(),
{
    if rows.len() > 0 {
        let d = rows.drop_last();
        assert(sorted_keys(d)) by {
            assert forall|i: int, j: int| 0 <= i < j < d.len() implies key_lt(#[trigger] d[i].0, #[trigger] d[j].0) by {
                assert(d[i] == rows[i] && d[j] == rows[j]);
            }
        }
        lemma_key_position(d, k);
        assert forall|j: int| 0 <= j < rows.len() && rows[j].0 == k implies key_position(rows, k) == Some(j) by {
            if j < rows.len() - 1 {
                assert(d[j] == rows[j]);
                if rows.last().0 == k {
                    assert(key_lt(rows[j].0, rows[rows.len() - 1].0));
                    lemma_key_lt_irreflexive(k);
                }
            }
        }
        if rows.last().0 != k {
            assert forall|j: int| 0 <= j < rows.len() - 1 implies rows[j].0 == d[j].0 by {}
        }
    }
}

pub proof fn lemma_insert_position<V>(rows: Seq<(Seq<char>, V)>, k: Seq<char>)
    requires
        sorted_keys(rows),
        key_position(rows, k) is None,
    ensures
        0 <= insert_position(rows, k) <= rows.len(),
        forall|j: int| 0 <= j < insert_position(rows, k) ==> key_lt(#[trigger] rows[j].0, k),
        forall|j: int| insert_position(rows, k) <= j < rows.len() ==> key_lt(k, #[trigger] rows[j].0),
    decreases rows.len(),
{
    lemma_key_position(rows, k);
    if rows.len() > 0 {
        let d = rows.drop_last();
        assert(sorted_keys(d)) by {
            assert forall|i: int, j: int| 0 <= i < j < d.len() implies key_lt(#[trigger] d[i].0, #[trigger] d[j].0) by {
                assert(d[i] == rows[i] && d[j] == rows[j]);
            }
        }
        lemma_key_position(d, k);
        if key_lt(rows.last().0, k) {
            assert forall|j: int| 0 <= j < rows.len() implies key_lt(#[trigger] rows[j].0, k) by {
                if j < rows.len() - 1 {
                    lemma_key_lt_transitive(rows[j].0, rows[rows.len() - 1].0, k);
                }
            }
        } else {
            lemma_insert_position(d, k);
            lemma_key_lt_total(rows.last().0, k);
            let p = insert_position(d, k);
            assert forall|j: int| 0 <= j < p implies key_lt(#[trigger] rows[j].0, k) by {
                assert(d[j] == rows[j]);
            }
            assert forall|j: int| p <= j < rows.len() implies key_lt(k, #[trigger] rows[j].0) by {
                if j < rows.len() - 1 {
                    assert(d[j] == rows[j]);
                }
            }
        }
    }
}

/// Inserting a new key at its insert position keeps the keys ascending.
pub proof fn lemma_insert_sorted<V>(rows: Seq<(Seq<char>, V)>, k: Seq<char>, v: V)
    requires
        sorted_keys(rows),
        key_position(rows, k) is None,
    ensures
        sorted_keys(rows.insert(insert_position(rows, k), (k, v))),
{
    lemma_insert_position(rows, k);
    let p = insert_position(rows, k);
    let r = rows.insert(p, (k, v));
    assert forall|i: int, j: int| 0 <= i < j < r.len() implies key_lt(#[trigger] r[i].0, #[trigger] r[j].0) by {
        if j < p {
            assert(r[i] == rows[i] && r[j] == rows[j]);
        } else if j == p {
            assert(r[i] == rows[i]);
        } else if i < p {
            assert(r[i] == rows[i] && r[j] == rows[j - 1]);
            lemma_key_lt_transitive(rows[i].0, k, rows[j - 1].0);
        } else if i == p {
            assert(r[j] == rows[j - 1]);
        } else {
            assert(r[i] == rows[i - 1] && r[j] == rows[j - 1]);
        }
    }
}

/// Where `key` stands among the rows: `Ok` with its index, or `Err` with the
/// index at which it would be inserted.
pub fn find_key<V>(rows: &Vec<(String, V)>, key: &str) -> (r: Result<usize, usize>)
    requires
        sorted_keys(keyed(rows@)),
    ensures
        match r {
            Ok(i) => key_position(keyed(rows@), key@) == Some(i as int),
            Err(i) => key_position(keyed(rows@), key@) is None && i == insert_position(keyed(rows@), key@),
        },
{
    let ghost kv = keyed(rows@);
    proof {
        lemma_key_position(kv, key@);
    }
    let mut i: usize = 0;
    while i < rows.len()
        invariant
            kv == keyed(rows@),
            sorted_keys(kv),
            i <= rows@.len(),
            forall|j: int| 0 <= j < i ==> key_lt(#[trigger] kv[j].0, key@),
            forall|j: int| 0 <= j < kv.len() && kv[j].0 == key@ ==> key_position(kv, key@) == Some(j),
            match key_position(kv, key@) {
                Some(p) => 0 <= p < kv.len() && kv[p].0 == key@,
                None => forall|j: int| 0 <= j < kv.len() ==> kv[j].0 != key@,
            },
        decreases rows@.len() - i,
    {
        assert(kv[i as int].0 == rows@[i as int].0@);
        if crate::text::str_equal(rows[i].0.as_str(), key) {
            return Ok(i);
        }
        if key_less(key, rows[i].0.as_str()) {
            proof {
                assert forall|j: int| 0 <= j < kv.len() implies kv[j].0 != key@ by {
                    if j < i {
                        lemma_key_lt_irreflexive(key@);
                    } else if j > i {
                        lemma_key_lt_transitive(key@, kv[i as int].0, kv[j].0);
                        lemma_key_lt_irreflexive(key@);
                    }
                }
                lemma_insert_position(kv, key@);
                let p = insert_position(kv, key@);
                if p < i {
                    assert(key_lt(kv[p].0, key@));
                    assert(key_lt(key@, kv[p].0));
                    lemma_key_lt_asymmetric(key@, kv[p].0);
                } else if p > i {
                    assert(key_lt(kv[i as int].0, key@));
                    lemma_key_lt_asymmetric(key@, kv[i as int].0);
                }
            }
            return Err(i);
        }
        proof {
            lemma_key_lt_total(kv[i as int].0, key@);
        }
        i = i + 1;
    }
    proof {
        if let Some(q) = key_position(kv, key@) {
            assert(key_lt(kv[q].0, key@));
            lemma_key_lt_irreflexive(key@);
        }
        lemma_insert_position(kv, key@);
        let p = insert_position(kv, key@);
        if p < kv.len() {
            assert(key_lt(kv[p].0, key@));
            lemma_key_lt_asymmetric(key@, kv[p].0);
        }
    }
    Err(i)
}

/// The rows with `k` set to `v`: the row of `k` replaced when there is one,
/// else a new row at its insert position.
pub open spec fn put_key<V>(rows: Seq<(Seq<char>, V)>, k: Seq<char>, v: V) -> Seq<(Seq<char>, V)> {
    match key_position(rows, k) {
        Some(i) => rows.update(i, (k, v)),
        None => rows.insert(insert_position(rows, k), (k, v)),
    }
}

/// The value of `k` in the rows, or `default` when it has no row.
pub open spec fn value_or<V>(rows: Seq<(Seq<char>, V)>, k: Seq<char>, default: V) -> V {
    match key_position(rows, k) {
        Some(i) => rows[i].1,
        None => default,
    }
}

/// Reading a key after setting one: the new value for the key that was set,
/// the old value (or the default) for every other key.
pub proof fn lemma_value_or_put<V>(rows: Seq<(Seq<char>, V)>, k: Seq<char>, v: V, k2: Seq<char>, default: V)
    requires
        sorted_keys(rows),
    ensures
        value_or(put_key(rows, k, v), k2, default) == (if k2 == k {
            v
        } else {
            value_or(rows, k2, default)
        }),
{
    lemma_put_key(rows, k, v);
    let r = put_key(rows, k, v);
    lemma_key_position(rows, k);
    lemma_key_position(rows, k2);
    lemma_key_position(r, k2);
    match key_position(rows, k) {
        Some(i) => {
            assert(r[i] == (k, v));
            if k2 != k {
                if let Some(q) = key_position(rows, k2) {
                    assert(r[q] == rows[q]);
                } else {
                    assert forall|j: int| 0 <= j < r.len() implies r[j].0 != k2 by {
                        if j != i {
                            assert(r[j] == rows[j]);
                        }
                    }
                }
            }
        },
        None => {
            let p = insert_position(rows, k);
            lemma_insert_position(rows, k);
            assert(r[p] == (k, v));
            if k2 != k {
                if let Some(q) = key_position(rows, k2) {
                    let q2 = if q < p { q } else { q + 1 };
                    assert(r[q2] == rows[q]);
                } else {
                    assert forall|j: int| 0 <= j < r.len() implies r[j].0 != k2 by {
                        if j < p {
                            assert(r[j] == rows[j]);
                        } else if j > p {
                            assert(r[j] == rows[j - 1]);
                        }
                    }
                }
            }
        },
    }
}

/// Setting a key keeps the keys ascending; every row after it is the new row
/// or one that was there before.
pub proof fn lemma_put_key<V>(rows: Seq<(Seq<char>, V)>, k: Seq<char>, v: V)
    requires
        sorted_keys(rows),
    ensures
        sorted_keys(put_key(rows, k, v)),
        forall|j: int| 0 <= j < put_key(rows, k, v).len() ==> #[trigger] put_key(rows, k, v)[j] == (k, v) || rows.contains(put_key(rows, k, v)[j]),
        put_key(rows, k, v).len() <= rows.len() + 1,
{
    lemma_key_position(rows, k);
    let r = put_key(rows, k, v);
    match key_position(rows, k) {
        Some(i) => {
            assert forall|a: int, b: int| 0 <= a < b < r.len() implies key_lt(#[trigger] r[a].0, #[trigger] r[b].0) by {
                assert(r[a].0 == rows[a].0 && r[b].0 == rows[b].0);
            }
            assert forall|j: int| 0 <= j < r.len() implies #[trigger] r[j] == (k, v) || rows.contains(r[j]) by {
                if j != i {
                    assert(r[j] == rows[j]);
                }
            }
        },
        None => {
            lemma_insert_sorted(rows, k, v);
            lemma_insert_position(rows, k);
            let p = insert_position(rows, k);
            assert forall|j: int| 0 <= j < r.len() implies #[trigger] r[j] == (k, v) || rows.contains(r[j]) by {
                if j < p {
                    assert(r[j] == rows[j]);
                } else if j > p {
                    assert(r[j] == rows[j - 1]);
                }
            }
        },
    }
}

/// Sets `key` to `v` (see `put_key`).
pub fn put<V>(rows: &mut Vec<(String, V)>, key: String, v: V)
    requires
        sorted_keys(keyed(old(rows)@)),
    ensures
        keyed(final(rows)@) == put_key(keyed(old(rows)@), key@, v),
{
    let ghost before = keyed(rows@);
    match find_key(rows, key.as_str()) {
        Ok(i) => {
            proof {
                lemma_key_position(before, key@);
            }
            rows.set(i, (key, v));
            assert(keyed(rows@) =~= before.update(i as int, (key@, v)));
        },
        Err(i) => {
            proof {
                lemma_insert_position(before, key@);
            }
            let ghost kv = key@;
            rows.insert(i, (key, v));
            assert(keyed(rows@) =~= before.insert(i as int, (kv, v)));
        },
    }
}

/// The value of `key`, or `default` when it has no row.
pub fn get_or<V: Copy>(rows: &Vec<(String, V)>, key: &str, default: V) -> (r: V)
    requires
        sorted_keys(keyed(rows@)),
    ensures
        r == value_or(keyed(rows@), key@, default),
{
    match find_key(rows, key) {
        Ok(i) => {
            proof {
                lemma_key_position(keyed(rows@), key@);
            }
            assert(keyed(rows@)[i as int] == (rows@[i as int].0@, rows@[i as int].1));
            rows[i].1
        },
        Err(_) => default,
    }
}

} // verus!
