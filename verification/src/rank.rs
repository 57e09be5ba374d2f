//! Ranking: heaviest first, ties broken by text, and what is equal in both as it stood.

use crate::text::{in_text_order, same_text};
use vstd::prelude::*;

verus! {

broadcast use vstd::seq_lib::group_seq_properties;

/// What one item is ranked by.
pub struct RankKey<'a> {
    pub weight: u64,
    pub first: &'a str,
    pub second: &'a str,
}

/// The mathematical value of a rank key.
pub struct Rank {
    pub weight: nat,
    pub first: Seq<char>,
    pub second: Seq<char>,
}

impl<'a> View for RankKey<'a> {
    type V = Rank;

    open spec fn view(&self) -> Rank {
        Rank { weight: self.weight as nat, first: self.first@, second: self.second@ }
    }
}

/// `a` may stand before `b`: the heavier first, then by `first`, then by `second`.
pub open spec fn ranks_before(a: Rank, b: Rank) -> bool {
    if a.weight != b.weight {
        a.weight > b.weight
    } else if a.first != b.first {
        crate::text::text_le(a.first, b.first)
    } else {
        crate::text::text_le(a.second, b.second)
    }
}

/// Any two ranks stand in order, and only equal ones in both.
pub proof fn lemma_ranks_before_total(a: Rank, b: Rank)
    ensures
        ranks_before(a, b) || ranks_before(b, a),
        ranks_before(a, b) && ranks_before(b, a) ==> a == b,
{
    crate::text::lemma_text_le_total(a.first, b.first);
    crate::text::lemma_text_le_total(a.second, b.second);
}

proof fn lemma_ranks_before_transitive(a: Rank, b: Rank, c: Rank)
    requires
        ranks_before(a, b),
        ranks_before(b, c),
    ensures
        ranks_before(a, c),
{
    crate::text::lemma_text_le_total(a.first, b.first);
    crate::text::lemma_text_le_total(b.first, c.first);
    if a.weight == b.weight && b.weight == c.weight {
        if a.first != b.first && b.first != c.first {
            crate::text::lemma_text_le_transitive(a.first, b.first, c.first);
        }
        if a.first == b.first && b.first == c.first {
            crate::text::lemma_text_le_transitive(a.second, b.second, c.second);
        }
    }
}

fn goes_first(a: &RankKey, b: &RankKey) -> (r: bool)
    ensures
        r == ranks_before(a@, b@),
{
    if a.weight != b.weight {
        a.weight > b.weight
    } else if !same_text(a.first, b.first) {
        in_text_order(a.first, b.first)
    } else {
        in_text_order(a.second, b.second)
    }
}

/// Position `x` stands before position `y`: by rank, and of equal ranks the earlier.
pub open spec fn stands_before(keys: Seq<RankKey>, x: int, y: int) -> bool {
    &&& ranks_before(keys[x]@, keys[y]@)
    &&& keys[x]@ == keys[y]@ ==> x < y
}

/// `order` lists each of the positions `lo..hi` once, in rank order, positions of
/// equal rank in ascending order.
pub open spec fn ranked(keys: Seq<RankKey>, order: Seq<usize>, lo: int, hi: int) -> bool {
    &&& order.len() == hi - lo
    &&& order.no_duplicates()
    &&& forall|i: int| 0 <= i < order.len() ==> lo <= #[trigger] order[i] < hi
    &&& forall|i: int, j: int|
        0 <= i < j < order.len() ==> stands_before(
            keys,
            #[trigger] order[i] as int,
            #[trigger] order[j] as int,
        )
}

/// An order leaves no position out.
pub proof fn lemma_ranked_covers(keys: Seq<RankKey>, order: Seq<usize>, lo: int, hi: int, x: int)
    requires
        ranked(keys, order, lo, hi),
        0 <= lo <= x < hi,
    ensures
        exists|i: int| 0 <= i < order.len() && #[trigger] order[i] == x,
{
    let seen = order.map_values(|v: usize| v as int);
    assert(seen.no_duplicates());
    seen.unique_seq_to_set();
    vstd::set_lib::lemma_int_range(lo, hi);
    let all = vstd::set_lib::set_int_range(lo, hi);
    assert(seen.to_set().subset_of(all)) by {
        assert forall|v: int| #[trigger] seen.to_set().contains(v) implies all.contains(v) by {
            let i = choose|i: int| 0 <= i < seen.len() && seen[i] == v;
            assert(lo <= order[i] < hi);
        }
    }
    vstd::set_lib::lemma_subset_equality(seen.to_set(), all);
    assert(seen.to_set().contains(x));
    let i = choose|i: int| 0 <= i < seen.len() && seen[i] == x;
    assert(order[i] == x);
}

/// Two sequences of the same items, both in one strict order, are the same.
pub proof fn lemma_same_order<T>(a: Seq<T>, b: Seq<T>, before: spec_fn(T, T) -> bool)
    requires
        forall|x: T, y: T| before(x, y) ==> !#[trigger] before(y, x),
        forall|i: int, j: int|
            #![trigger a[i], a[j]]
            0 <= i < j < a.len() ==> before(a[i], a[j]),
        forall|i: int, j: int|
            #![trigger b[i], b[j]]
            0 <= i < j < b.len() ==> before(b[i], b[j]),
        forall|i: int| 0 <= i < a.len() ==> b.contains(#[trigger] a[i]),
        forall|i: int| 0 <= i < b.len() ==> a.contains(#[trigger] b[i]),
    ensures
        a == b,
{
    let n = if a.len() <= b.len() {
        a.len()
    } else {
        b.len()
    };
    lemma_same_front(a, b, before, n);
    if a.len() > n {
        let p = choose|p: int| 0 <= p < b.len() && b[p] == a[n as int];
        assert(b.contains(a[n as int]));
        assert(a[p] == b[p]);
        assert(before(a[p], a[n as int]));
        assert(before(a[n as int], a[p]));
    }
    if b.len() > n {
        let p = choose|p: int| 0 <= p < a.len() && a[p] == b[n as int];
        assert(a.contains(b[n as int]));
        assert(a[p] == b[p]);
        assert(before(b[p], b[n as int]));
        assert(before(b[n as int], b[p]));
    }
    assert(a =~= b);
}

proof fn lemma_same_front<T>(a: Seq<T>, b: Seq<T>, before: spec_fn(T, T) -> bool, n: nat)
    requires
        forall|x: T, y: T| before(x, y) ==> !#[trigger] before(y, x),
        forall|i: int, j: int|
            #![trigger a[i], a[j]]
            0 <= i < j < a.len() ==> before(a[i], a[j]),
        forall|i: int, j: int|
            #![trigger b[i], b[j]]
            0 <= i < j < b.len() ==> before(b[i], b[j]),
        forall|i: int| 0 <= i < a.len() ==> b.contains(#[trigger] a[i]),
        forall|i: int| 0 <= i < b.len() ==> a.contains(#[trigger] b[i]),
        n <= a.len(),
        n <= b.len(),
    ensures
        forall|i: int| 0 <= i < n ==> #[trigger] a[i] == b[i],
    decreases n,
{
    if n > 0 {
        let k = n - 1;
        lemma_same_front(a, b, before, k as nat);
        assert(b.contains(a[k]) && a.contains(b[k]));
        let p = choose|p: int| 0 <= p < b.len() && b[p] == a[k];
        let q = choose|q: int| 0 <= q < a.len() && a[q] == b[k];
        if p < k {
            assert(a[p] == b[p]);
            assert(before(a[p], a[k]));
            assert(before(a[k], a[p]));
        }
        if q < k {
            assert(a[q] == b[q]);
            assert(before(b[q], b[k]));
            assert(before(b[k], b[q]));
        }
        if p > k && q > k {
            assert(before(b[k], b[p]));
            assert(before(a[k], a[q]));
        }
    }
}

fn merge(
    keys: &Vec<RankKey>,
    a: &Vec<usize>,
    b: &Vec<usize>,
    lo: Ghost<int>,
    mid: Ghost<int>,
    hi: Ghost<int>,
) -> (r: Vec<usize>)
    requires
        0 <= lo@ <= mid@ <= hi@ <= keys@.len(),
        ranked(keys@, a@, lo@, mid@),
        ranked(keys@, b@, mid@, hi@),
    ensures
        ranked(keys@, r@, lo@, hi@),
{
    let mut out: Vec<usize> = Vec::new();
    let mut i: usize = 0;
    let mut j: usize = 0;
    while i < a.len() || j < b.len()
        invariant
            0 <= lo@ <= mid@ <= hi@ <= keys@.len(),
            ranked(keys@, a@, lo@, mid@),
            ranked(keys@, b@, mid@, hi@),
            i <= a@.len(),
            j <= b@.len(),
            out@.len() == i + j,
            out@.no_duplicates(),
            forall|x: int| 0 <= x < out@.len() ==> lo@ <= #[trigger] out@[x] < hi@,
            forall|x: int, y: int|
                0 <= x < y < out@.len() ==> stands_before(
                    keys@,
                    #[trigger] out@[x] as int,
                    #[trigger] out@[y] as int,
                ),
            forall|x: int, y: int|
                0 <= x < out@.len() && i <= y < a@.len() ==> {
                    &&& #[trigger] out@[x] != #[trigger] a@[y]
                    &&& stands_before(keys@, out@[x] as int, a@[y] as int)
                },
            forall|x: int, y: int|
                0 <= x < out@.len() && j <= y < b@.len() ==> {
                    &&& #[trigger] out@[x] != #[trigger] b@[y]
                    &&& stands_before(keys@, out@[x] as int, b@[y] as int)
                },
        decreases a@.len() - i + b@.len() - j,
    {
        let left: bool = if i < a.len() && j < b.len() {
            goes_first(&keys[a[i]], &keys[b[j]])
        } else {
            i < a.len()
        };
        let ghost before = out@;
        if left {
            proof {
                assert forall|y: int| j <= y < b@.len() implies stands_before(
                    keys@,
                    a@[i as int] as int,
                    #[trigger] b@[y] as int,
                ) by {
                    if y > j {
                        lemma_ranks_before_transitive(
                            keys@[a@[i as int] as int]@,
                            keys@[b@[j as int] as int]@,
                            keys@[b@[y] as int]@,
                        );
                    }
                }
            }
            out.push(a[i]);
            i = i + 1;
        } else {
            proof {
                if i < a@.len() {
                    lemma_ranks_before_total(
                        keys@[a@[i as int] as int]@,
                        keys@[b@[j as int] as int]@,
                    );
                }
                assert forall|y: int| i <= y < a@.len() implies stands_before(
                    keys@,
                    b@[j as int] as int,
                    #[trigger] a@[y] as int,
                ) by {
                    lemma_ranks_before_total(
                        keys@[b@[j as int] as int]@,
                        keys@[b@[j as int] as int]@,
                    );
                    if y > i {
                        lemma_ranks_before_transitive(
                            keys@[b@[j as int] as int]@,
                            keys@[a@[i as int] as int]@,
                            keys@[a@[y] as int]@,
                        );
                    }
                }
            }
            out.push(b[j]);
            j = j + 1;
        }
    }
    out
}

fn order_range(keys: &Vec<RankKey>, lo: usize, hi: usize) -> (r: Vec<usize>)
    requires
        lo <= hi <= keys@.len(),
    ensures
        ranked(keys@, r@, lo as int, hi as int),
    decreases hi - lo,
{
    let mut out: Vec<usize> = Vec::new();
    if hi == lo {
        return out;
    }
    if hi - lo == 1 {
        out.push(lo);
        return out;
    }
    let mid = lo + (hi - lo) / 2;
    let a = order_range(keys, lo, mid);
    let b = order_range(keys, mid, hi);
    merge(keys, &a, &b, Ghost(lo as int), Ghost(mid as int), Ghost(hi as int))
}

/// The positions of `keys` in rank order, each once.
pub fn rank_order(keys: &Vec<RankKey>) -> (r: Vec<usize>)
    ensures
        ranked(keys@, r@, 0, keys@.len() as int),
{
    order_range(keys, 0, keys.len())
}

} // verus!
