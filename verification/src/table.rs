//! An ordered table: a map whose entries stand in strictly ascending key order.
//! Lookups are binary searches; the order of the entries is a function of what the
//! table holds, so everything derived from it is deterministic.

use crate::text::{in_text_order, lemma_text_le_total, lemma_text_le_transitive, same_text, text_le};
use vstd::prelude::*;

verus! {

/// A key type with a total order on its mathematical value.
pub trait TableKey: Sized {
    /// The mathematical value of a key.
    type Key;

    spec fn key(&self) -> Self::Key;

    spec fn key_le(a: Self::Key, b: Self::Key) -> bool;

    proof fn lemma_total(a: Self::Key, b: Self::Key)
        ensures
            Self::key_le(a, b) || Self::key_le(b, a),
            Self::key_le(a, b) && Self::key_le(b, a) ==> a == b,
    ;

    proof fn lemma_transitive(a: Self::Key, b: Self::Key, c: Self::Key)
        requires
            Self::key_le(a, b),
            Self::key_le(b, c),
        ensures
            Self::key_le(a, c),
    ;

    fn same(&self, other: &Self) -> (r: bool)
        ensures
            r == (self.key() == other.key()),
    ;

    fn in_order(&self, other: &Self) -> (r: bool)
        ensures
            r == Self::key_le(self.key(), other.key()),
    ;
}

impl TableKey for String {
    type Key = Seq<char>;

    open spec fn key(&self) -> Seq<char> {
        self@
    }

    open spec fn key_le(a: Seq<char>, b: Seq<char>) -> bool {
        text_le(a, b)
    }

    proof fn lemma_total(a: Seq<char>, b: Seq<char>) {
        lemma_text_le_total(a, b);
    }

    proof fn lemma_transitive(a: Seq<char>, b: Seq<char>, c: Seq<char>) {
        lemma_text_le_transitive(a, b, c);
    }

    fn same(&self, other: &Self) -> (r: bool) {
        same_text(self.as_str(), other.as_str())
    }

    fn in_order(&self, other: &Self) -> (r: bool) {
        in_text_order(self.as_str(), other.as_str())
    }
}

impl TableKey for (String, String) {
    type Key = (Seq<char>, Seq<char>);

    open spec fn key(&self) -> (Seq<char>, Seq<char>) {
        (self.0@, self.1@)
    }

    open spec fn key_le(a: (Seq<char>, Seq<char>), b: (Seq<char>, Seq<char>)) -> bool {
        if a.0 != b.0 {
            text_le(a.0, b.0)
        } else {
            text_le(a.1, b.1)
        }
    }

    proof fn lemma_total(a: (Seq<char>, Seq<char>), b: (Seq<char>, Seq<char>)) {
        lemma_text_le_total(a.0, b.0);
        lemma_text_le_total(a.1, b.1);
    }

    proof fn lemma_transitive(
        a: (Seq<char>, Seq<char>),
        b: (Seq<char>, Seq<char>),
        c: (Seq<char>, Seq<char>),
    ) {
        lemma_text_le_total(a.0, b.0);
        lemma_text_le_total(b.0, c.0);
        if a.0 != b.0 && b.0 != c.0 {
            lemma_text_le_transitive(a.0, b.0, c.0);
        }
        if a.0 == b.0 && b.0 == c.0 {
            lemma_text_le_transitive(a.1, b.1, c.1);
        }
    }

    fn same(&self, other: &Self) -> (r: bool) {
        same_text(self.0.as_str(), other.0.as_str()) && same_text(self.1.as_str(), other.1.as_str())
    }

    fn in_order(&self, other: &Self) -> (r: bool) {
        if !same_text(self.0.as_str(), other.0.as_str()) {
            in_text_order(self.0.as_str(), other.0.as_str())
        } else {
            in_text_order(self.1.as_str(), other.1.as_str())
        }
    }
}

impl TableKey for i32 {
    type Key = i32;

    open spec fn key(&self) -> i32 {
        *self
    }

    open spec fn key_le(a: i32, b: i32) -> bool {
        a <= b
    }

    proof fn lemma_total(a: i32, b: i32) {
    }

    proof fn lemma_transitive(a: i32, b: i32, c: i32) {
    }

    fn same(&self, other: &Self) -> (r: bool) {
        *self == *other
    }

    fn in_order(&self, other: &Self) -> (r: bool) {
        *self <= *other
    }
}

/// Order on optional identifiers: none first.
pub open spec fn id_le(a: Option<u128>, b: Option<u128>) -> bool {
    match (a, b) {
        (None, _) => true,
        (Some(_), None) => false,
        (Some(x), Some(y)) => x <= y,
    }
}

fn same_id(a: Option<u128>, b: Option<u128>) -> (r: bool)
    ensures
        r == (a == b),
{
    match (a, b) {
        (None, None) => true,
        (Some(x), Some(y)) => x == y,
        _ => false,
    }
}

impl TableKey for (Option<u128>, String) {
    type Key = (Option<u128>, Seq<char>);

    open spec fn key(&self) -> (Option<u128>, Seq<char>) {
        (self.0, self.1@)
    }

    open spec fn key_le(a: (Option<u128>, Seq<char>), b: (Option<u128>, Seq<char>)) -> bool {
        if a.0 != b.0 {
            id_le(a.0, b.0)
        } else {
            text_le(a.1, b.1)
        }
    }

    proof fn lemma_total(a: (Option<u128>, Seq<char>), b: (Option<u128>, Seq<char>)) {
        lemma_text_le_total(a.1, b.1);
    }

    proof fn lemma_transitive(
        a: (Option<u128>, Seq<char>),
        b: (Option<u128>, Seq<char>),
        c: (Option<u128>, Seq<char>),
    ) {
        if a.0 == b.0 && b.0 == c.0 {
            lemma_text_le_transitive(a.1, b.1, c.1);
        }
    }

    fn same(&self, other: &Self) -> (r: bool) {
        same_id(self.0, other.0) && same_text(self.1.as_str(), other.1.as_str())
    }

    fn in_order(&self, other: &Self) -> (r: bool) {
        if !same_id(self.0, other.0) {
            match (self.0, other.0) {
                (None, _) => true,
                (Some(_), None) => false,
                (Some(x), Some(y)) => x <= y,
            }
        } else {
            in_text_order(self.1.as_str(), other.1.as_str())
        }
    }
}

/// The value of a sequence of entries as a map.
pub open spec fn entries_map<T: TableKey, V>(rows: Seq<(T, V)>) -> Map<T::Key, V> {
    Map::new(
        |k: T::Key| exists|i: int| 0 <= i < rows.len() && (#[trigger] rows[i]).0.key() == k,
        |k: T::Key| rows[choose|i: int| 0 <= i < rows.len() && (#[trigger] rows[i]).0.key() == k].1,
    )
}

/// The entries stand in strictly ascending key order.
pub open spec fn ascending<T: TableKey, V>(rows: Seq<(T, V)>) -> bool {
    forall|i: int, j: int|
        0 <= i < j < rows.len() ==> {
            &&& T::key_le((#[trigger] rows[i]).0.key(), (#[trigger] rows[j]).0.key())
            &&& rows[i].0.key() != rows[j].0.key()
        }
}

/// In an ascending sequence every entry is found under its key.
pub proof fn lemma_entry_found<T: TableKey, V>(rows: Seq<(T, V)>, i: int)
    requires
        ascending(rows),
        0 <= i < rows.len(),
    ensures
        entries_map(rows).contains_key(rows[i].0.key()),
        entries_map(rows)[rows[i].0.key()] == rows[i].1,
{
    let k = rows[i].0.key();
    let j = choose|j: int| 0 <= j < rows.len() && (#[trigger] rows[j]).0.key() == k;
    assert(rows[i].0.key() == k);
    if i < j {
        assert(rows[i].0.key() != rows[j].0.key());
    } else if j < i {
        assert(rows[j].0.key() != rows[i].0.key());
    }
}

/// A map from `T` to `V`.
pub struct Table<T: TableKey, V> {
    rows: Vec<(T, V)>,
}

impl<T: TableKey, V> View for Table<T, V> {
    type V = Map<T::Key, V>;

    closed spec fn view(&self) -> Map<T::Key, V> {
        entries_map(self.rows@)
    }
}

impl<T: TableKey, V> Table<T, V> {
    /// The entries, in ascending key order.
    pub closed spec fn entries(&self) -> Seq<(T, V)> {
        self.rows@
    }

    /// The table's invariant: the keys ascend strictly.
    pub closed spec fn wf(&self) -> bool {
        ascending(self.rows@)
    }

    /// What the invariant says about the entries.
    pub proof fn lemma_entries(&self)
        ensures
            self@ == entries_map(self.entries()),
            self.wf() == ascending(self.entries()),
            self.wf() ==> self@.dom().finite() && self@.dom().len() == self.entries().len(),
    {
        if self.wf() {
            lemma_entries_len(self.rows@);
        }
    }

    /// An empty table.
    pub fn new() -> (r: Self)
        ensures
            r.wf(),
            r@ == Map::<T::Key, V>::empty(),
            r.entries() == Seq::<(T, V)>::empty(),
    {
        let r = Table { rows: Vec::new() };
        assert(r@ =~= Map::<T::Key, V>::empty());
        r
    }

    /// The number of entries.
    pub fn len(&self) -> (r: usize)
        requires
            self.wf(),
        ensures
            r == self.entries().len(),
            self@.dom().finite(),
            r == self@.dom().len(),
    {
        proof {
            lemma_entries_len(self.rows@);
        }
        self.rows.len()
    }

    /// The entry at a position, in ascending key order.
    pub fn at(&self, i: usize) -> (r: (&T, &V))
        requires
            self.wf(),
            i < self.entries().len(),
        ensures
            *r.0 == self.entries()[i as int].0,
            *r.1 == self.entries()[i as int].1,
            self@.contains_key(r.0.key()),
            self@[r.0.key()] == *r.1,
    {
        proof {
            lemma_entry_found(self.rows@, i as int);
        }
        (&self.rows[i].0, &self.rows[i].1)
    }

    /// Where `k` stands, or where it would go.
    fn seek(&self, k: &T) -> (r: (bool, usize))
        requires
            self.wf(),
        ensures
            r.1 <= self.rows@.len(),
            r.0 ==> r.1 < self.rows@.len() && self.rows@[r.1 as int].0.key() == k.key(),
            r.0 ==> self@.contains_key(k.key()) && self@[k.key()] == self.rows@[r.1 as int].1,
            !r.0 ==> !self@.contains_key(k.key()),
            !r.0 ==> forall|i: int|
                0 <= i < r.1 ==> {
                    &&& T::key_le((#[trigger] self.rows@[i]).0.key(), k.key())
                    &&& self.rows@[i].0.key() != k.key()
                },
            !r.0 ==> forall|i: int|
                r.1 <= i < self.rows@.len() ==> {
                    &&& T::key_le(k.key(), (#[trigger] self.rows@[i]).0.key())
                    &&& self.rows@[i].0.key() != k.key()
                },
    {
        let mut lo: usize = 0;
        let mut hi: usize = self.rows.len();
        while lo < hi
            invariant
                lo <= hi <= self.rows@.len(),
                ascending(self.rows@),
                forall|i: int|
                    0 <= i < lo ==> {
                        &&& T::key_le((#[trigger] self.rows@[i]).0.key(), k.key())
                        &&& self.rows@[i].0.key() != k.key()
                    },
                forall|i: int|
                    hi <= i < self.rows@.len() ==> {
                        &&& T::key_le(k.key(), (#[trigger] self.rows@[i]).0.key())
                        &&& self.rows@[i].0.key() != k.key()
                    },
            decreases hi - lo,
        {
            let mid = lo + (hi - lo) / 2;
            let row = &self.rows[mid];
            if row.0.same(k) {
                proof {
                    lemma_entry_found(self.rows@, mid as int);
                }
                return (true, mid);
            }
            if row.0.in_order(k) {
                proof {
                    let pivot = self.rows@[mid as int].0.key();
                    assert forall|i: int| 0 <= i <= mid implies {
                        &&& T::key_le((#[trigger] self.rows@[i]).0.key(), k.key())
                        &&& self.rows@[i].0.key() != k.key()
                    } by {
                        if i < mid {
                            let key = self.rows@[i].0.key();
                            T::lemma_transitive(key, pivot, k.key());
                            if key == k.key() {
                                T::lemma_total(pivot, k.key());
                            }
                        }
                    }
                }
                lo = mid + 1;
            } else {
                proof {
                    let pivot = self.rows@[mid as int].0.key();
                    T::lemma_total(pivot, k.key());
                    assert forall|i: int| mid <= i < self.rows@.len() implies {
                        &&& T::key_le(k.key(), (#[trigger] self.rows@[i]).0.key())
                        &&& self.rows@[i].0.key() != k.key()
                    } by {
                        if mid < i {
                            let key = self.rows@[i].0.key();
                            T::lemma_transitive(k.key(), pivot, key);
                            if key == k.key() {
                                T::lemma_total(pivot, k.key());
                            }
                        }
                    }
                }
                hi = mid;
            }
        }
        (false, lo)
    }

    /// The value stored under `k`.
    pub fn get(&self, k: &T) -> (r: Option<&V>)
        requires
            self.wf(),
        ensures
            match r {
                Some(v) => self@.contains_key(k.key()) && self@[k.key()] == *v,
                None => !self@.contains_key(k.key()),
            },
    {
        let (found, i) = self.seek(k);
        if found {
            Some(&self.rows[i].1)
        } else {
            None
        }
    }

    /// Whether something is stored under `k`.
    pub fn contains(&self, k: &T) -> (r: bool)
        requires
            self.wf(),
        ensures
            r == self@.contains_key(k.key()),
    {
        self.seek(k).0
    }

    /// The position of `k`, if it is there.
    pub fn position(&self, k: &T) -> (r: Option<usize>)
        requires
            self.wf(),
        ensures
            match r {
                Some(i) => {
                    &&& i < self.entries().len()
                    &&& self.entries()[i as int].0.key() == k.key()
                    &&& self@.contains_key(k.key())
                    &&& self@[k.key()] == self.entries()[i as int].1
                },
                None => !self@.contains_key(k.key()),
            },
    {
        let (found, i) = self.seek(k);
        if found {
            Some(i)
        } else {
            None
        }
    }

    /// Access to the value at a position.
    pub fn value_mut(&mut self, i: usize) -> (v: &mut V)
        requires
            old(self).wf(),
            i < old(self).entries().len(),
        ensures
            *v == old(self).entries()[i as int].1,
            final(self).wf(),
            final(self)@ == old(self)@.insert(old(self).entries()[i as int].0.key(), *final(v)),
    {
        let ghost before = self.rows@;
        let v = &mut self.rows[i].1;
        proof {
            lemma_entries_update(before, i as int, (before[i as int].0, *final(v)));
        }
        v
    }

    /// Store `v` under `k`, in place of what was there.
    pub fn insert(&mut self, k: T, v: V)
        requires
            old(self).wf(),
        ensures
            final(self).wf(),
            final(self)@ == old(self)@.insert(k.key(), v),
    {
        let (found, i) = self.seek(&k);
        let ghost before = self.rows@;
        let ghost key = k.key();
        if found {
            self.rows.set(i, (k, v));
            proof {
                lemma_entries_update(before, i as int, (k, v));
            }
        } else {
            self.rows.insert(i, (k, v));
            proof {
                lemma_entries_insert(before, i as int, (k, v));
            }
        }
    }
}

/// Replacing the value of an entry replaces it in the map.
proof fn lemma_entries_update<T: TableKey, V>(rows: Seq<(T, V)>, i: int, e: (T, V))
    requires
        ascending(rows),
        0 <= i < rows.len(),
        e.0.key() == rows[i].0.key(),
    ensures
        ascending(rows.update(i, e)),
        entries_map(rows.update(i, e)) == entries_map(rows).insert(e.0.key(), e.1),
{
    let after = rows.update(i, e);
    assert forall|x: int, y: int| 0 <= x < y < after.len() implies {
        &&& T::key_le((#[trigger] after[x]).0.key(), (#[trigger] after[y]).0.key())
        &&& after[x].0.key() != after[y].0.key()
    } by {
        assert(rows[x].0.key() != rows[y].0.key());
    }
    let m = entries_map(rows).insert(e.0.key(), e.1);
    assert forall|k: T::Key| entries_map(after).contains_key(k) == #[trigger] m.contains_key(k) by {
        if m.contains_key(k) {
            if k == e.0.key() {
                assert(after[i].0.key() == k);
            } else {
                let j = choose|j: int| 0 <= j < rows.len() && (#[trigger] rows[j]).0.key() == k;
                assert(after[j].0.key() == k);
            }
        }
        if entries_map(after).contains_key(k) {
            let j = choose|j: int| 0 <= j < after.len() && (#[trigger] after[j]).0.key() == k;
            assert(rows[j].0.key() == k);
        }
    }
    assert forall|k: T::Key| m.contains_key(k) implies entries_map(after)[k] == #[trigger] m[k] by {
        let j = choose|j: int| 0 <= j < after.len() && (#[trigger] after[j]).0.key() == k;
        assert(entries_map(after).contains_key(k));
        lemma_entry_found(after, j);
        lemma_entry_found(rows, j);
        if j != i {
            lemma_entry_found(after, i);
        }
    }
    assert(entries_map(after) =~= m);
}

/// Adding an entry at its place adds it to the map.
pub proof fn lemma_entries_insert<T: TableKey, V>(rows: Seq<(T, V)>, i: int, e: (T, V))
    requires
        ascending(rows),
        0 <= i <= rows.len(),
        forall|j: int|
            0 <= j < i ==> {
                &&& T::key_le((#[trigger] rows[j]).0.key(), e.0.key())
                &&& rows[j].0.key() != e.0.key()
            },
        forall|j: int|
            i <= j < rows.len() ==> {
                &&& T::key_le(e.0.key(), (#[trigger] rows[j]).0.key())
                &&& rows[j].0.key() != e.0.key()
            },
    ensures
        ascending(rows.insert(i, e)),
        entries_map(rows.insert(i, e)) == entries_map(rows).insert(e.0.key(), e.1),
{
    let after = rows.insert(i, e);
    assert forall|x: int, y: int| 0 <= x < y < after.len() implies {
        &&& T::key_le((#[trigger] after[x]).0.key(), (#[trigger] after[y]).0.key())
        &&& after[x].0.key() != after[y].0.key()
    } by {
        let ox = if x < i { x } else { x - 1 };
        let oy = if y < i { y } else { y - 1 };
        if x != i && y != i {
            assert(rows[ox].0.key() != rows[oy].0.key());
        } else if x == i {
            assert(rows[oy].0.key() != e.0.key());
        } else {
            assert(rows[ox].0.key() != e.0.key());
        }
    }
    let m = entries_map(rows).insert(e.0.key(), e.1);
    assert forall|k: T::Key| entries_map(after).contains_key(k) == #[trigger] m.contains_key(k) by {
        if m.contains_key(k) {
            if k == e.0.key() {
                assert(after[i].0.key() == k);
            } else {
                let j = choose|j: int| 0 <= j < rows.len() && (#[trigger] rows[j]).0.key() == k;
                let nj = if j < i { j } else { j + 1 };
                assert(after[nj].0.key() == k);
            }
        }
        if entries_map(after).contains_key(k) {
            let j = choose|j: int| 0 <= j < after.len() && (#[trigger] after[j]).0.key() == k;
            if j != i {
                let oj = if j < i { j } else { j - 1 };
                assert(rows[oj].0.key() == k);
            }
        }
    }
    assert forall|k: T::Key| m.contains_key(k) implies entries_map(after)[k] == #[trigger] m[k] by {
        assert(entries_map(after).contains_key(k));
        let j = choose|j: int| 0 <= j < after.len() && (#[trigger] after[j]).0.key() == k;
        lemma_entry_found(after, j);
        if j == i {
        } else {
            let oj = if j < i { j } else { j - 1 };
            assert(rows[oj] == after[j]);
            lemma_entry_found(rows, oj);
            lemma_entry_found(after, i);
        }
    }
    assert(entries_map(after) =~= m);
}

/// An ascending sequence has as many keys as entries.
pub proof fn lemma_entries_len<T: TableKey, V>(rows: Seq<(T, V)>)
    requires
        ascending(rows),
    ensures
        entries_map(rows).dom().finite(),
        entries_map(rows).dom().len() == rows.len(),
{
    let keys = Seq::new(rows.len(), |i: int| rows[i].0.key());
    assert(keys.no_duplicates()) by {
        assert forall|i: int, j: int|
            0 <= i < keys.len() && 0 <= j < keys.len() && i != j implies keys[i] != keys[j] by {
            if i < j {
                assert(rows[i].0.key() != rows[j].0.key());
            } else {
                assert(rows[j].0.key() != rows[i].0.key());
            }
        }
    }
    keys.unique_seq_to_set();
    assert(keys.to_set() =~= entries_map(rows).dom()) by {
        assert forall|k: T::Key| keys.to_set().contains(k) == #[trigger] entries_map(
            rows,
        ).dom().contains(k) by {
            if keys.to_set().contains(k) {
                let i = choose|i: int| 0 <= i < keys.len() && keys[i] == k;
                assert(rows[i].0.key() == k);
            }
            if entries_map(rows).dom().contains(k) {
                let i = choose|i: int| 0 <= i < rows.len() && (#[trigger] rows[i]).0.key() == k;
                assert(keys[i] == k);
            }
        }
    }
}

} // verus!
