//! Sums over finite maps.

use crate::table::{ascending, entries_map, lemma_entries_insert, lemma_entries_len, TableKey};
use vstd::prelude::*;

verus! {

/// The sum of `f` over the values of a finite map (0 for an infinite one).
pub open spec fn map_sum<K, V>(m: Map<K, V>, f: spec_fn(V) -> nat) -> nat
    decreases m.dom().len(),
{
    if !m.dom().finite() || m.dom().len() == 0 {
        0
    } else {
        let k = m.dom().choose();
        f(m[k]) + map_sum(m.remove(k), f)
    }
}

/// Any entry may be split off a sum.
pub proof fn lemma_map_sum_remove<K, V>(m: Map<K, V>, f: spec_fn(V) -> nat, k: K)
    requires
        m.dom().finite(),
        m.contains_key(k),
    ensures
        map_sum(m, f) == f(m[k]) + map_sum(m.remove(k), f),
    decreases m.dom().len(),
{
    let c = m.dom().choose();
    assert(m.dom().len() > 0) by {
        if m.dom().len() == 0 {
            assert(m.dom() =~= Set::empty());
        }
    }
    assert(m.dom().contains(c));
    if c != k {
        lemma_map_sum_remove(m.remove(c), f, k);
        lemma_map_sum_remove(m.remove(k), f, c);
        assert(m.remove(c).remove(k) =~= m.remove(k).remove(c));
    }
}

/// Storing a value replaces its part of the sum.
pub proof fn lemma_map_sum_insert<K, V>(m: Map<K, V>, f: spec_fn(V) -> nat, k: K, v: V)
    requires
        m.dom().finite(),
    ensures
        m.insert(k, v).dom().finite(),
        m.contains_key(k) ==> map_sum(m.insert(k, v), f) + f(m[k]) == map_sum(m, f) + f(v),
        !m.contains_key(k) ==> map_sum(m.insert(k, v), f) == map_sum(m, f) + f(v),
{
    let after = m.insert(k, v);
    lemma_map_sum_remove(after, f, k);
    if m.contains_key(k) {
        lemma_map_sum_remove(m, f, k);
        assert(after.remove(k) =~= m.remove(k));
    } else {
        assert(after.remove(k) =~= m);
    }
}

/// One value is no larger than the sum.
pub proof fn lemma_map_sum_bounds<K, V>(m: Map<K, V>, f: spec_fn(V) -> nat, k: K)
    requires
        m.dom().finite(),
        m.contains_key(k),
    ensures
        f(m[k]) <= map_sum(m, f),
{
    lemma_map_sum_remove(m, f, k);
}

/// Sums add up value by value.
pub proof fn lemma_map_sum_add<K, V>(
    m: Map<K, V>,
    f: spec_fn(V) -> nat,
    g: spec_fn(V) -> nat,
    h: spec_fn(V) -> nat,
)
    requires
        forall|v: V| #[trigger] h(v) == f(v) + g(v),
    ensures
        map_sum(m, h) == map_sum(m, f) + map_sum(m, g),
    decreases m.dom().len(),
{
    if m.dom().finite() && m.dom().len() > 0 {
        let k = m.dom().choose();
        lemma_map_sum_add(m.remove(k), f, g, h);
    }
}

/// The empty map sums to nothing.
pub proof fn lemma_map_sum_empty<K, V>(f: spec_fn(V) -> nat)
    ensures
        map_sum(Map::<K, V>::empty(), f) == 0,
{
}

/// The sum over a table's entries, one entry at a time.
pub proof fn lemma_map_sum_take<T: TableKey, V>(rows: Seq<(T, V)>, f: spec_fn(V) -> nat, i: int)
    requires
        ascending(rows),
        0 <= i < rows.len(),
    ensures
        ascending(rows.take(i)),
        map_sum(entries_map(rows.take(i + 1)), f) == map_sum(entries_map(rows.take(i)), f) + f(
            rows[i].1,
        ),
{
    let part = rows.take(i);
    let more = rows.take(i + 1);
    assert(ascending(part));
    assert(part.insert(i, rows[i]) =~= more);
    lemma_entries_insert(part, i, rows[i]);
    lemma_entries_len(part);
    let m = entries_map(part);
    if m.contains_key(rows[i].0.key()) {
        let j = choose|j: int| 0 <= j < part.len() && (#[trigger] part[j]).0.key() == rows[i].0.key();
        assert(rows[j].0.key() != rows[i].0.key());
    }
    lemma_map_sum_insert(m, f, rows[i].0.key(), rows[i].1);
}

/// The sum over the first entries is no larger than the whole sum.
pub proof fn lemma_map_sum_prefix<T: TableKey, V>(rows: Seq<(T, V)>, f: spec_fn(V) -> nat, i: int)
    requires
        ascending(rows),
        0 <= i <= rows.len(),
    ensures
        map_sum(entries_map(rows.take(i)), f) <= map_sum(entries_map(rows), f),
    decreases rows.len() - i,
{
    if i < rows.len() {
        lemma_map_sum_take(rows, f, i);
        lemma_map_sum_prefix(rows, f, i + 1);
    } else {
        assert(rows.take(i) =~= rows);
    }
}

/// The keys of a table that satisfy `p`, one entry at a time.
pub proof fn lemma_keys_take<T: TableKey, V>(rows: Seq<(T, V)>, p: spec_fn(T::Key) -> bool, i: int)
    requires
        ascending(rows),
        0 <= i < rows.len(),
    ensures
        entries_map(rows.take(i + 1)).dom().filter(p).len() == entries_map(rows.take(i)).dom().filter(
            p,
        ).len() + if p(rows[i].0.key()) {
            1nat
        } else {
            0nat
        },
{
    let part = rows.take(i);
    let more = rows.take(i + 1);
    let k = rows[i].0.key();
    assert(ascending(part));
    assert(part.insert(i, rows[i]) =~= more);
    lemma_entries_insert(part, i, rows[i]);
    lemma_entries_len(part);
    let dom = entries_map(part).dom();
    if dom.contains(k) {
        let j = choose|j: int| 0 <= j < part.len() && (#[trigger] part[j]).0.key() == k;
        assert(rows[j].0.key() != rows[i].0.key());
    }
    assert(entries_map(more).dom() =~= dom.insert(k));
    if p(k) {
        assert(dom.insert(k).filter(p) =~= dom.filter(p).insert(k));
    } else {
        assert(dom.insert(k).filter(p) =~= dom.filter(p));
    }
    dom.lemma_len_filter(p);
}

} // verus!
