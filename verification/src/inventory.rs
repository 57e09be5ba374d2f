//! Baseline file-size inventory.
//!
//! Bytes on disk per file, so that heat can be set against size. The on-disk size
//! is the logical length rounded up to the volume's cluster size; for the rare
//! sparse and compressed files that is approximate, and they are flagged. The
//! normalized paths match the heat keys, so an entry joins to a heat record.

use crate::paths::{relative, relative_path};
use crate::rank::{
    lemma_ranked_covers, lemma_ranks_before_total, lemma_same_order, rank_order, ranked,
    ranks_before, Rank, RankKey,
};
use crate::table::{ascending, entries_map, lemma_entry_found, Table, TableKey};
use crate::tally::{
    lemma_map_sum_empty, lemma_map_sum_prefix, lemma_map_sum_remove, lemma_map_sum_take, map_sum,
};
use crate::text::{dec, fmt_dec_wide, fold_case, lowercase, pad_left, push_dec};
use vstd::prelude::*;

verus! {

/// Per file/dir size record.
#[derive(Debug, Clone, Copy)]
pub struct Entry {
    /// Logical size.
    pub logical: u64,
    /// `logical` rounded up to the volume cluster size. Approximate when `sparse` or
    /// `compressed` is set.
    pub alloc: u64,
    pub is_dir: bool,
    pub sparse: bool,
    pub compressed: bool,
}

/// Entries by (share name, normalized path), the key shape of a heat record.
pub type Inventory = Table<(String, String), Entry>;

/// A set of share names.
pub type ShareSet = Table<String, ()>;

// ---- attributes and sizes -------------------------------------------------

// File-attribute bits.
pub const FILE_ATTRIBUTE_DIRECTORY: u32 = 0x010;

pub const FILE_ATTRIBUTE_SPARSE_FILE: u32 = 0x200;

pub const FILE_ATTRIBUTE_REPARSE_POINT: u32 = 0x400;

pub const FILE_ATTRIBUTE_COMPRESSED: u32 = 0x800;

/// The classified file attributes of one entry.
#[derive(Debug, Clone, Copy, PartialEq, Eq, Structural)]
pub struct Attrs {
    pub is_dir: bool,
    pub sparse: bool,
    pub compressed: bool,
    pub reparse: bool,
}

/// The attributes that a mask stands for.
pub open spec fn attrs_of(a: u32) -> Attrs {
    Attrs {
        is_dir: a & FILE_ATTRIBUTE_DIRECTORY != 0,
        sparse: a & FILE_ATTRIBUTE_SPARSE_FILE != 0,
        compressed: a & FILE_ATTRIBUTE_COMPRESSED != 0,
        reparse: a & FILE_ATTRIBUTE_REPARSE_POINT != 0,
    }
}

/// Decode a file-attribute mask.
pub fn classify_attrs(a: u32) -> (r: Attrs)
    ensures
        r == attrs_of(a),
{
    Attrs {
        is_dir: a & FILE_ATTRIBUTE_DIRECTORY != 0,
        sparse: a & FILE_ATTRIBUTE_SPARSE_FILE != 0,
        compressed: a & FILE_ATTRIBUTE_COMPRESSED != 0,
        reparse: a & FILE_ATTRIBUTE_REPARSE_POINT != 0,
    }
}

/// The least multiple of `cluster` that is not below `n`; `n` itself where either is
/// zero.
pub open spec fn rounded_up(n: int, cluster: int) -> int {
    if n == 0 || cluster == 0 {
        n
    } else {
        ((n + cluster - 1) / cluster) * cluster
    }
}

/// Rounding up gives the one multiple of the cluster size from `n` to less than a
/// cluster above it: an exact multiple is unchanged.
pub proof fn law_rounded_up(n: int, cluster: int)
    requires
        0 <= n,
        0 < cluster,
    ensures
        rounded_up(n, cluster) % cluster == 0,
        n <= rounded_up(n, cluster) < n + cluster,
        n % cluster == 0 ==> rounded_up(n, cluster) == n,
{
    if n > 0 {
        let q = (n + cluster - 1) / cluster;
        vstd::arithmetic::div_mod::lemma_fundamental_div_mod(n + cluster - 1, cluster);
        vstd::arithmetic::mul::lemma_mul_is_commutative(cluster, q);
        vstd::arithmetic::div_mod::lemma_mod_multiples_basic(q, cluster);
        if n % cluster == 0 {
            vstd::arithmetic::div_mod::lemma_fundamental_div_mod(n, cluster);
            let m = n / cluster;
            assert(n + cluster - 1 == m * cluster + (cluster - 1)) by {
                vstd::arithmetic::mul::lemma_mul_is_commutative(cluster, m);
            }
            vstd::arithmetic::div_mod::lemma_fundamental_div_mod_converse(
                n + cluster - 1,
                cluster,
                m,
                cluster - 1,
            );
        }
    } else {
        vstd::arithmetic::div_mod::lemma_small_mod(0, cluster as nat);
    }
}

/// Round `n` up to a whole number of clusters.
pub fn round_up(n: u64, cluster: u64) -> (r: u64)
    requires
        n + cluster <= u64::MAX + 1 || n == 0 || cluster == 0,
    ensures
        r == rounded_up(n as int, cluster as int),
{
    if n == 0 || cluster == 0 {
        n
    } else {
        proof {
            law_rounded_up(n as int, cluster as int);
        }
        let m: u64 = n + (cluster - 1);
        (m / cluster) * cluster
    }
}

/// The cluster size of a volume.
pub fn cluster_bytes(sectors_per_cluster: u32, bytes_per_sector: u32) -> (r: u64)
    ensures
        r == sectors_per_cluster * bytes_per_sector,
{
    assert(sectors_per_cluster * bytes_per_sector <= 0xffff_ffff * 0xffff_ffff)
        by (nonlinear_arith)
        requires
            0 <= sectors_per_cluster <= 0xffff_ffff,
            0 <= bytes_per_sector <= 0xffff_ffff,
    ;
    sectors_per_cluster as u64 * bytes_per_sector as u64
}

// ---- paths ----------------------------------------------------------------

/// The share-relative key of a file, as heat records have it: the path below the
/// root, backslashes for separators, none at either end, in lower case.
pub fn normalize_path(full: &str, local_root: &str) -> (r: String)
    ensures
        r@ == lowercase(relative_path(full@, local_root@)),
        vstd::utf8::is_ascii_chars(relative_path(full@, local_root@)) ==> r@
            == crate::text::ascii_folded(relative_path(full@, local_root@)),
{
    fold_case(relative(full, local_root).as_str())
}

// ---- the walk -------------------------------------------------------------

/// What one walk found: the inventory, and what is needed to check it.
pub struct Walk {
    pub entries: Inventory,
    pub reparse_skipped: u64,
    pub cluster_size: u64,
}

/// The mathematical value of a walk.
#[verifier::ext_equal]
pub struct WalkView {
    pub entries: Map<(Seq<char>, Seq<char>), Entry>,
    pub reparse_skipped: nat,
    pub cluster_size: nat,
}

impl View for Walk {
    type V = WalkView;

    open spec fn view(&self) -> WalkView {
        WalkView {
            entries: self.entries@,
            reparse_skipped: self.reparse_skipped as nat,
            cluster_size: self.cluster_size as nat,
        }
    }
}

/// One thing met on a walk.
#[derive(Debug, Clone)]
pub enum Visit {
    /// A directory or file that could not be read, or its metadata.
    Unreadable,
    /// An entry at a depth below the root, with its attributes and its length.
    Entry { depth: usize, path: String, attributes: u32, len: u64 },
}

/// The record of an entry.
pub open spec fn entry_of(attributes: u32, len: u64, cluster: nat) -> Entry {
    let a = attrs_of(attributes);
    Entry {
        logical: len,
        alloc: rounded_up(len as int, cluster as int) as u64,
        is_dir: a.is_dir,
        sparse: a.sparse,
        compressed: a.compressed,
    }
}

/// What a visit adds to a walk can be counted: one more reparse point, or the size of
/// a recorded entry in whole clusters.
pub open spec fn fits(v: Visit, w: WalkView) -> bool {
    match v {
        Visit::Unreadable => true,
        Visit::Entry { depth, attributes, len, .. } => if depth == 0 {
            true
        } else if attrs_of(attributes).reparse {
            w.reparse_skipped < u64::MAX
        } else {
            len == 0 || w.cluster_size == 0 || len + w.cluster_size <= u64::MAX + 1
        },
    }
}

impl WalkView {
    /// The walk after one more visit: what cannot be read is passed over, and the
    /// root; a reparse point is counted and never sized; anything else is recorded
    /// under its share and its normalized path.
    pub open spec fn visited(self, share: Seq<char>, local_root: Seq<char>, v: Visit) -> WalkView {
        match v {
            Visit::Unreadable => self,
            Visit::Entry { depth, path, attributes, len } => if depth == 0 {
                self
            } else if attrs_of(attributes).reparse {
                WalkView { reparse_skipped: self.reparse_skipped + 1, ..self }
            } else {
                WalkView {
                    entries: self.entries.insert(
                        (share, lowercase(relative_path(path@, local_root))),
                        entry_of(attributes, len, self.cluster_size),
                    ),
                    ..self
                }
            },
        }
    }
}

impl Walk {
    /// A walk that has met nothing.
    pub fn start(cluster_size: u64) -> (r: Walk)
        ensures
            r.entries.wf(),
            r@ == (WalkView {
                entries: Map::empty(),
                reparse_skipped: 0,
                cluster_size: cluster_size as nat,
            }),
    {
        Walk { entries: Table::new(), reparse_skipped: 0, cluster_size }
    }

    /// Whether a visit can be taken.
    pub fn takes(&self, v: &Visit) -> (r: bool)
        ensures
            r == fits(*v, self@),
    {
        match v {
            Visit::Unreadable => true,
            Visit::Entry { depth, attributes, len, .. } => if *depth == 0 {
                true
            } else if classify_attrs(*attributes).reparse {
                self.reparse_skipped < u64::MAX
            } else {
                *len == 0 || self.cluster_size == 0 || *len <= u64::MAX - (self.cluster_size - 1)
            },
        }
    }

    /// Take one visit.
    pub fn visit(&mut self, share: &str, local_root: &str, v: &Visit)
        requires
            old(self).entries.wf(),
            fits(*v, old(self)@),
        ensures
            final(self).entries.wf(),
            final(self)@ == old(self)@.visited(share@, local_root@, *v),
    {
        if let Visit::Entry { depth, path, attributes, len } = v {
            if *depth == 0 {
                return;
            }
            let attrs = classify_attrs(*attributes);
            if attrs.reparse {
                self.reparse_skipped = self.reparse_skipped + 1;
                return;
            }
            let rec = Entry {
                logical: *len,
                alloc: round_up(*len, self.cluster_size),
                is_dir: attrs.is_dir,
                sparse: attrs.sparse,
                compressed: attrs.compressed,
            };
            let key = (share.to_owned(), normalize_path(path.as_str(), local_root));
            self.entries.insert(key, rec);
        }
    }
}

// ---- the summary ----------------------------------------------------------

/// What the entries of a walk add up to.
#[derive(Debug, Clone, Copy)]
pub struct Totals {
    pub files: u64,
    pub dirs: u64,
    /// Logical bytes of the files.
    pub logical: u64,
    /// Allocated bytes of the files.
    pub alloc: u64,
    pub sparse: u64,
    pub compressed: u64,
}

/// 1 where a condition holds, else 0.
pub open spec fn one_if(b: bool) -> nat {
    if b {
        1
    } else {
        0
    }
}

pub open spec fn file_count(m: Map<(Seq<char>, Seq<char>), Entry>) -> nat {
    map_sum(m, |e: Entry| one_if(!e.is_dir))
}

pub open spec fn dir_count(m: Map<(Seq<char>, Seq<char>), Entry>) -> nat {
    map_sum(m, |e: Entry| one_if(e.is_dir))
}

pub open spec fn sparse_count(m: Map<(Seq<char>, Seq<char>), Entry>) -> nat {
    map_sum(m, |e: Entry| one_if(e.sparse))
}

pub open spec fn compressed_count(m: Map<(Seq<char>, Seq<char>), Entry>) -> nat {
    map_sum(m, |e: Entry| one_if(e.compressed))
}

/// Every entry is either a file or a directory.
pub proof fn law_files_and_dirs(m: Map<(Seq<char>, Seq<char>), Entry>)
    requires
        m.dom().finite(),
    ensures
        file_count(m) + dir_count(m) == m.dom().len(),
    decreases m.dom().len(),
{
    if m.dom().len() > 0 {
        let k = m.dom().choose();
        lemma_map_sum_remove(m, |e: Entry| one_if(!e.is_dir), k);
        lemma_map_sum_remove(m, |e: Entry| one_if(e.is_dir), k);
        law_files_and_dirs(m.remove(k));
    }
}

/// The logical bytes of the files.
pub open spec fn logical_bytes(m: Map<(Seq<char>, Seq<char>), Entry>) -> nat {
    map_sum(
        m,
        |e: Entry|
            if e.is_dir {
                0nat
            } else {
                e.logical as nat
            },
    )
}

/// The allocated bytes of the files.
pub open spec fn alloc_bytes(m: Map<(Seq<char>, Seq<char>), Entry>) -> nat {
    map_sum(
        m,
        |e: Entry|
            if e.is_dir {
                0nat
            } else {
                e.alloc as nat
            },
    )
}

/// What a file is ranked by: its allocated bytes, then its path, then its share.
pub open spec fn size_rank(k: (Seq<char>, Seq<char>), e: Entry) -> Rank {
    Rank { weight: e.alloc as nat, first: k.1, second: k.0 }
}

/// A file of the inventory.
pub open spec fn is_file(m: Map<(Seq<char>, Seq<char>), Entry>, k: (Seq<char>, Seq<char>)) -> bool {
    m.contains_key(k) && !m[k].is_dir
}

/// `top` lists the largest files by allocated bytes, up to ten, files of one size by
/// path and then by share.
pub open spec fn is_top(
    m: Map<(Seq<char>, Seq<char>), Entry>,
    top: Seq<(Seq<char>, Seq<char>)>,
) -> bool {
    &&& top.no_duplicates()
    &&& top.len() == if file_count(m) < 10 {
        file_count(m)
    } else {
        10
    }
    &&& forall|i: int| 0 <= i < top.len() ==> is_file(m, #[trigger] top[i])
    &&& forall|i: int, j: int|
        #![trigger top[i], top[j]]
        0 <= i < j < top.len() ==> ranks_before(
            size_rank(top[i], m[top[i]]),
            size_rank(top[j], m[top[j]]),
        )
    &&& forall|k: (Seq<char>, Seq<char>), i: int|
        #![trigger is_file(m, k), top[i]]
        is_file(m, k) && !top.contains(k) && 0 <= i < top.len() ==> ranks_before(
            size_rank(top[i], m[top[i]]),
            size_rank(k, m[k]),
        )
}

/// The list of the largest files is deterministic: an inventory has one.
pub proof fn law_top_is_unique(
    m: Map<(Seq<char>, Seq<char>), Entry>,
    a: Seq<(Seq<char>, Seq<char>)>,
    b: Seq<(Seq<char>, Seq<char>)>,
)
    requires
        is_top(m, a),
        is_top(m, b),
    ensures
        a == b,
{
    let before = |x: (Seq<char>, Seq<char>), y: (Seq<char>, Seq<char>)|
        x != y && ranks_before(size_rank(x, m[x]), size_rank(y, m[y]));
    assert forall|x: (Seq<char>, Seq<char>), y: (Seq<char>, Seq<char>)| before(x, y) implies !(
    #[trigger] before(y, x)) by {
        lemma_ranks_before_total(size_rank(x, m[x]), size_rank(y, m[y]));
    }
    lemma_top_holds(m, a, b);
    lemma_top_holds(m, b, a);
    lemma_same_order(a, b, before);
}

proof fn lemma_top_holds(
    m: Map<(Seq<char>, Seq<char>), Entry>,
    a: Seq<(Seq<char>, Seq<char>)>,
    b: Seq<(Seq<char>, Seq<char>)>,
)
    requires
        is_top(m, a),
        is_top(m, b),
    ensures
        forall|i: int| 0 <= i < a.len() ==> b.contains(#[trigger] a[i]),
{
    assert forall|i: int| 0 <= i < a.len() implies b.contains(#[trigger] a[i]) by {
        if !b.contains(a[i]) {
            a.unique_seq_to_set();
            b.unique_seq_to_set();
            if b.to_set().subset_of(a.to_set()) {
                vstd::set_lib::lemma_subset_equality(b.to_set(), a.to_set());
                assert(a.to_set().contains(a[i]));
                assert(b.to_set().contains(a[i]));
            }
            let k = choose|k: (Seq<char>, Seq<char>)| #[trigger]
                b.to_set().contains(k) && !a.to_set().contains(k);
            let j = choose|j: int| 0 <= j < b.len() && b[j] == k;
            assert(!a.contains(b[j]));
            assert(is_file(m, a[i]) && is_file(m, b[j]));
            lemma_ranks_before_total(size_rank(a[i], m[a[i]]), size_rank(b[j], m[b[j]]));
        }
    }
}

/// The line of one of the largest files.
pub open spec fn top_line(path: Seq<char>, e: Entry) -> Seq<char> {
    "  "@ + pad_left(dec(e.alloc as nat), ' ', 14) + " alloc  ("@ + pad_left(
        dec(e.logical as nat),
        ' ',
        14,
    ) + " logical)  "@ + path + "\n"@
}

/// The lines of the largest files.
pub open spec fn top_lines(
    m: Map<(Seq<char>, Seq<char>), Entry>,
    top: Seq<(Seq<char>, Seq<char>)>,
) -> Seq<char>
    decreases top.len(),
{
    if top.len() == 0 {
        Seq::empty()
    } else {
        top_lines(m, top.drop_last()) + top_line(top.last().1, m[top.last()])
    }
}

/// The summary of a walk. `logical_tb` and `alloc_tb` are the totals in terabytes.
pub open spec fn summary_text(
    w: WalkView,
    top: Seq<(Seq<char>, Seq<char>)>,
    logical_tb: Seq<char>,
    alloc_tb: Seq<char>,
) -> Seq<char> {
    "cluster_size: "@ + dec(w.cluster_size) + " bytes\n"@ + "files: "@ + dec(
        file_count(w.entries),
    ) + "   dirs: "@ + dec(dir_count(w.entries)) + "\n"@ + "logical: "@ + dec(
        logical_bytes(w.entries),
    ) + " bytes ("@ + logical_tb + " TB)\n"@ + "alloc:   "@ + dec(alloc_bytes(w.entries))
        + " bytes ("@ + alloc_tb + " TB)\n"@ + "sparse: "@ + dec(sparse_count(w.entries))
        + "   compressed: "@ + dec(compressed_count(w.entries)) + "   reparse-skipped: "@ + dec(
        w.reparse_skipped,
    ) + "\n"@ + "top 10 files by alloc:\n"@ + top_lines(w.entries, top)
}

impl Walk {
    /// Whether the bytes of the entries can be added up.
    pub fn adds_up(&self) -> (r: bool)
        requires
            self.entries.wf(),
        ensures
            r == (logical_bytes(self@.entries) <= u64::MAX && alloc_bytes(self@.entries)
                <= u64::MAX),
    {
        let ghost rows = self.entries.entries();
        let ghost fl = |e: Entry|
            if e.is_dir {
                0nat
            } else {
                e.logical as nat
            };
        let ghost fa = |e: Entry|
            if e.is_dir {
                0nat
            } else {
                e.alloc as nat
            };
        let n = self.entries.len();
        proof {
            self.entries.lemma_entries();
            assert(entries_map(rows.take(0)) =~= Map::empty());
            lemma_map_sum_empty::<(Seq<char>, Seq<char>), Entry>(fl);
            lemma_map_sum_empty::<(Seq<char>, Seq<char>), Entry>(fa);
        }
        let mut logical: u64 = 0;
        let mut alloc: u64 = 0;
        let mut i: usize = 0;
        while i < n
            invariant
                i <= n,
                n == rows.len(),
                self.entries.wf(),
                rows == self.entries.entries(),
                ascending(rows),
                self.entries@ == entries_map(rows),
                logical_bytes(self@.entries) == map_sum(self.entries@, fl),
                alloc_bytes(self@.entries) == map_sum(self.entries@, fa),
                fl == (|e: Entry|
                    if e.is_dir {
                        0nat
                    } else {
                        e.logical as nat
                    }),
                fa == (|e: Entry|
                    if e.is_dir {
                        0nat
                    } else {
                        e.alloc as nat
                    }),
                logical == map_sum(entries_map(rows.take(i as int)), fl),
                alloc == map_sum(entries_map(rows.take(i as int)), fa),
            decreases n - i,
        {
            let (_, e) = self.entries.at(i);
            proof {
                lemma_map_sum_take(rows, fl, i as int);
                lemma_map_sum_take(rows, fa, i as int);
                lemma_map_sum_prefix(rows, fl, i + 1);
                lemma_map_sum_prefix(rows, fa, i + 1);
            }
            if !e.is_dir {
                if e.logical > u64::MAX - logical || e.alloc > u64::MAX - alloc {
                    return false;
                }
                logical = logical + e.logical;
                alloc = alloc + e.alloc;
            }
            i = i + 1;
        }
        assert(rows.take(n as int) =~= rows);
        true
    }

    /// Add up the entries.
    pub fn totals(&self) -> (r: Totals)
        requires
            self.entries.wf(),
            logical_bytes(self@.entries) <= u64::MAX,
            alloc_bytes(self@.entries) <= u64::MAX,
        ensures
            r.files == file_count(self@.entries),
            r.dirs == dir_count(self@.entries),
            r.logical == logical_bytes(self@.entries),
            r.alloc == alloc_bytes(self@.entries),
            r.sparse == sparse_count(self@.entries),
            r.compressed == compressed_count(self@.entries),
    {
        let ghost rows = self.entries.entries();
        let ghost ff = |e: Entry| one_if(!e.is_dir);
        let ghost fd = |e: Entry| one_if(e.is_dir);
        let ghost fs = |e: Entry| one_if(e.sparse);
        let ghost fc = |e: Entry| one_if(e.compressed);
        let ghost fl = |e: Entry|
            if e.is_dir {
                0nat
            } else {
                e.logical as nat
            };
        let ghost fa = |e: Entry|
            if e.is_dir {
                0nat
            } else {
                e.alloc as nat
            };
        let n = self.entries.len();
        proof {
            self.entries.lemma_entries();
            assert(entries_map(rows.take(0)) =~= Map::empty());
            lemma_map_sum_empty::<(Seq<char>, Seq<char>), Entry>(ff);
            lemma_map_sum_empty::<(Seq<char>, Seq<char>), Entry>(fd);
            lemma_map_sum_empty::<(Seq<char>, Seq<char>), Entry>(fs);
            lemma_map_sum_empty::<(Seq<char>, Seq<char>), Entry>(fc);
            lemma_map_sum_empty::<(Seq<char>, Seq<char>), Entry>(fl);
            lemma_map_sum_empty::<(Seq<char>, Seq<char>), Entry>(fa);
        }
        let mut t = Totals { files: 0, dirs: 0, logical: 0, alloc: 0, sparse: 0, compressed: 0 };
        let mut i: usize = 0;
        while i < n
            invariant
                i <= n,
                n == rows.len(),
                self.entries.wf(),
                rows == self.entries.entries(),
                ascending(rows),
                self.entries@ == entries_map(rows),
                map_sum(self.entries@, fl) <= u64::MAX,
                map_sum(self.entries@, fa) <= u64::MAX,
                ff == (|e: Entry| one_if(!e.is_dir)),
                fd == (|e: Entry| one_if(e.is_dir)),
                fs == (|e: Entry| one_if(e.sparse)),
                fc == (|e: Entry| one_if(e.compressed)),
                fl == (|e: Entry|
                    if e.is_dir {
                        0nat
                    } else {
                        e.logical as nat
                    }),
                fa == (|e: Entry|
                    if e.is_dir {
                        0nat
                    } else {
                        e.alloc as nat
                    }),
                t.files == map_sum(entries_map(rows.take(i as int)), ff),
                t.dirs == map_sum(entries_map(rows.take(i as int)), fd),
                t.sparse == map_sum(entries_map(rows.take(i as int)), fs),
                t.compressed == map_sum(entries_map(rows.take(i as int)), fc),
                t.logical == map_sum(entries_map(rows.take(i as int)), fl),
                t.alloc == map_sum(entries_map(rows.take(i as int)), fa),
                t.files <= i,
                t.dirs <= i,
                t.sparse <= i,
                t.compressed <= i,
            decreases n - i,
        {
            let (_, e) = self.entries.at(i);
            proof {
                lemma_map_sum_take(rows, ff, i as int);
                lemma_map_sum_take(rows, fd, i as int);
                lemma_map_sum_take(rows, fs, i as int);
                lemma_map_sum_take(rows, fc, i as int);
                lemma_map_sum_take(rows, fl, i as int);
                lemma_map_sum_take(rows, fa, i as int);
                lemma_map_sum_prefix(rows, fl, i + 1);
                lemma_map_sum_prefix(rows, fa, i + 1);
            }
            if e.is_dir {
                t.dirs = t.dirs + 1;
            } else {
                t.files = t.files + 1;
                t.logical = t.logical + e.logical;
                t.alloc = t.alloc + e.alloc;
            }
            if e.sparse {
                t.sparse = t.sparse + 1;
            }
            if e.compressed {
                t.compressed = t.compressed + 1;
            }
            i = i + 1;
        }
        assert(rows.take(n as int) =~= rows);
        t
    }

    /// The positions of the files among the entries.
    fn file_positions(&self) -> (r: Vec<usize>)
        requires
            self.entries.wf(),
        ensures
            r@.len() == file_count(self@.entries),
            forall|i: int|
                0 <= i < r@.len() ==> #[trigger] r@[i] < self.entries.entries().len()
                    && !self.entries.entries()[r@[i] as int].1.is_dir,
            forall|i: int, j: int|
                #![trigger r@[i], r@[j]]
                0 <= i < j < r@.len() ==> r@[i] < r@[j],
            forall|p: int|
                0 <= p < self.entries.entries().len() && !(
                #[trigger] self.entries.entries()[p]).1.is_dir ==> exists|i: int|
                    0 <= i < r@.len() && #[trigger] r@[i] == p,
    {
        let ghost rows = self.entries.entries();
        let ghost ff = |e: Entry| one_if(!e.is_dir);
        let n = self.entries.len();
        proof {
            self.entries.lemma_entries();
            assert(entries_map(rows.take(0)) =~= Map::empty());
            lemma_map_sum_empty::<(Seq<char>, Seq<char>), Entry>(ff);
        }
        let mut out: Vec<usize> = Vec::new();
        let mut i: usize = 0;
        while i < n
            invariant
                i <= n,
                n == rows.len(),
                self.entries.wf(),
                rows == self.entries.entries(),
                ascending(rows),
                ff == (|e: Entry| one_if(!e.is_dir)),
                out@.len() == map_sum(entries_map(rows.take(i as int)), ff),
                forall|x: int|
                    0 <= x < out@.len() ==> #[trigger] out@[x] < i && !rows[out@[x] as int].1.is_dir,
                forall|x: int, y: int|
                    #![trigger out@[x], out@[y]]
                    0 <= x < y < out@.len() ==> out@[x] < out@[y],
                forall|p: int|
                    0 <= p < i && !(#[trigger] rows[p]).1.is_dir ==> exists|x: int|
                        0 <= x < out@.len() && #[trigger] out@[x] == p,
            decreases n - i,
        {
            let (_, e) = self.entries.at(i);
            proof {
                lemma_map_sum_take(rows, ff, i as int);
            }
            let ghost before = out@;
            if !e.is_dir {
                out.push(i);
                assert(out@[before.len() as int] == i);
            }
            proof {
                assert forall|p: int| 0 <= p < i + 1 && !(#[trigger] rows[p]).1.is_dir implies exists|
                    x: int,
                |
                    0 <= x < out@.len() && #[trigger] out@[x] == p by {
                    if p < i {
                        let x = choose|x: int| 0 <= x < before.len() && #[trigger] before[x] == p;
                        assert(out@[x] == p);
                    } else {
                        assert(out@[before.len() as int] == p);
                    }
                }
            }
            i = i + 1;
        }
        assert(rows.take(n as int) =~= rows);
        out
    }

    /// The positions of the largest files, up to ten.
    fn top_positions(&self) -> (r: Vec<usize>)
        requires
            self.entries.wf(),
        ensures
            forall|i: int| 0 <= i < r@.len() ==> #[trigger] r@[i] < self.entries.entries().len(),
            is_top(
                self@.entries,
                r@.map_values(
                    |p: usize| self.entries.entries()[p as int].0.key(),
                ),
            ),
    {
        let ghost rows = self.entries.entries();
        let ghost m = self@.entries;
        let files = self.file_positions();
        proof {
            self.entries.lemma_entries();
        }
        let mut keys: Vec<RankKey> = Vec::new();
        let mut i: usize = 0;
        while i < files.len()
            invariant
                i <= files@.len(),
                self.entries.wf(),
                rows == self.entries.entries(),
                keys@.len() == i,
                forall|x: int|
                    0 <= x < files@.len() ==> #[trigger] files@[x] < rows.len(),
                forall|x: int|
                    #![trigger keys@[x]]
                    0 <= x < i ==> keys@[x]@ == size_rank(
                        rows[files@[x] as int].0.key(),
                        rows[files@[x] as int].1,
                    ),
            decreases files@.len() - i,
        {
            let (k, e) = self.entries.at(files[i]);
            keys.push(RankKey { weight: e.alloc, first: k.1.as_str(), second: k.0.as_str() });
            i = i + 1;
        }
        let order = rank_order(&keys);
        let take: usize = if order.len() < 10 {
            order.len()
        } else {
            10
        };
        let mut out: Vec<usize> = Vec::new();
        let mut j: usize = 0;
        while j < take
            invariant
                j <= take <= order@.len(),
                order@.len() == files@.len(),
                ranked(keys@, order@, 0, files@.len() as int),
                out@.len() == j,
                forall|x: int| #![trigger out@[x]] 0 <= x < j ==> out@[x] == files@[order@[x] as int],
            decreases take - j,
        {
            out.push(files[order[j]]);
            j = j + 1;
        }
        proof {
            lemma_top(m, rows, files@, keys@, order@, out@);
        }
        out
    }

    /// A summary to check a walk by. `logical_tb` and `alloc_tb` are the totals in
    /// terabytes.
    pub fn summary(&self, logical_tb: &str, alloc_tb: &str) -> (r: String)
        requires
            self.entries.wf(),
            logical_bytes(self@.entries) <= u64::MAX,
            alloc_bytes(self@.entries) <= u64::MAX,
        ensures
            exists|top: Seq<(Seq<char>, Seq<char>)>| #[trigger]
                is_top(self@.entries, top) && r@ == summary_text(
                    self@,
                    top,
                    logical_tb@,
                    alloc_tb@,
                ),
    {
        let t = self.totals();
        let top = self.top_positions();
        let ghost rows = self.entries.entries();
        let ghost keys = top@.map_values(|p: usize| rows[p as int].0.key());
        let ghost m = self@.entries;
        let mut out = "cluster_size: ".to_owned();
        push_dec(&mut out, self.cluster_size);
        out.append(" bytes\n");
        out.append("files: ");
        push_dec(&mut out, t.files);
        out.append("   dirs: ");
        push_dec(&mut out, t.dirs);
        out.append("\n");
        out.append("logical: ");
        push_dec(&mut out, t.logical);
        out.append(" bytes (");
        out.append(logical_tb);
        out.append(" TB)\n");
        out.append("alloc:   ");
        push_dec(&mut out, t.alloc);
        out.append(" bytes (");
        out.append(alloc_tb);
        out.append(" TB)\n");
        out.append("sparse: ");
        push_dec(&mut out, t.sparse);
        out.append("   compressed: ");
        push_dec(&mut out, t.compressed);
        out.append("   reparse-skipped: ");
        push_dec(&mut out, self.reparse_skipped);
        out.append("\n");
        out.append("top 10 files by alloc:\n");
        let ghost head = out@;
        assert(out@ =~= head + top_lines(m, keys.take(0)));
        let mut i: usize = 0;
        while i < top.len()
            invariant
                i <= top@.len(),
                self.entries.wf(),
                rows == self.entries.entries(),
                m == self.entries@,
                keys == top@.map_values(|p: usize| rows[p as int].0.key()),
                forall|x: int| 0 <= x < top@.len() ==> #[trigger] top@[x] < rows.len(),
                out@ == head + top_lines(m, keys.take(i as int)),
            decreases top@.len() - i,
        {
            let (k, e) = self.entries.at(top[i]);
            assert(keys.take(i + 1).drop_last() =~= keys.take(i as int));
            assert(keys.take(i + 1).last() == k.key());
            let mut line = "  ".to_owned();
            line.append(fmt_dec_wide(e.alloc, 14).as_str());
            line.append(" alloc  (");
            line.append(fmt_dec_wide(e.logical, 14).as_str());
            line.append(" logical)  ");
            line.append(k.1.as_str());
            line.append("\n");
            assert(line@ == top_line(k.1@, *e));
            out.append(line.as_str());
            assert(out@ =~= head + top_lines(m, keys.take(i + 1)));
            i = i + 1;
        }
        assert(keys.take(keys.len() as int) =~= keys);
        out
    }
}

proof fn lemma_top(
    m: Map<(Seq<char>, Seq<char>), Entry>,
    rows: Seq<((String, String), Entry)>,
    files: Seq<usize>,
    keys: Seq<RankKey>,
    order: Seq<usize>,
    out: Seq<usize>,
)
    requires
        ascending(rows),
        m == entries_map(rows),
        files.len() == file_count(m),
        forall|i: int|
            0 <= i < files.len() ==> #[trigger] files[i] < rows.len() && !rows[files[i] as int].1.is_dir,
        forall|i: int, j: int|
            #![trigger files[i], files[j]]
            0 <= i < j < files.len() ==> files[i] < files[j],
        forall|p: int|
            0 <= p < rows.len() && !(#[trigger] rows[p]).1.is_dir ==> exists|i: int|
                0 <= i < files.len() && #[trigger] files[i] == p,
        keys.len() == files.len(),
        forall|x: int|
            #![trigger keys[x]]
            0 <= x < keys.len() ==> keys[x]@ == size_rank(
                rows[files[x] as int].0.key(),
                rows[files[x] as int].1,
            ),
        ranked(keys, order, 0, files.len() as int),
        out.len() == if order.len() < 10 {
            order.len()
        } else {
            10
        },
        forall|x: int| #![trigger out[x]] 0 <= x < out.len() ==> out[x] == files[order[x] as int],
    ensures
        is_top(m, out.map_values(|p: usize| rows[p as int].0.key())),
{
    let top = out.map_values(|p: usize| rows[p as int].0.key());
    assert forall|i: int| 0 <= i < top.len() implies is_file(m, #[trigger] top[i]) && m[top[i]]
        == rows[out[i] as int].1 by {
        let o = order[i] as int;
        assert(out[i] == files[o]);
        lemma_entry_found(rows, out[i] as int);
        assert(!rows[files[o] as int].1.is_dir);
    }
    assert(top.no_duplicates()) by {
        assert forall|i: int, j: int|
            0 <= i < top.len() && 0 <= j < top.len() && i != j implies top[i] != top[j] by {
            let (a, b) = (order[i] as int, order[j] as int);
            assert(a != b);
            assert(out[i] == files[a] && out[j] == files[b]);
            if a < b {
                assert(files[a] < files[b]);
            } else {
                assert(files[b] < files[a]);
            }
            let (x, y) = (out[i] as int, out[j] as int);
            if x < y {
                assert(rows[x].0.key() != rows[y].0.key());
            } else {
                assert(rows[y].0.key() != rows[x].0.key());
            }
        }
    }
    assert forall|i: int, j: int|
        #![trigger top[i], top[j]]
        0 <= i < j < top.len() implies ranks_before(
        size_rank(top[i], m[top[i]]),
        size_rank(top[j], m[top[j]]),
    ) by {
        let (a, b) = (order[i] as int, order[j] as int);
        assert(keys[a]@ == size_rank(rows[files[a] as int].0.key(), rows[files[a] as int].1));
        assert(keys[b]@ == size_rank(rows[files[b] as int].0.key(), rows[files[b] as int].1));
        assert(out[i] == files[a] && out[j] == files[b]);
        assert(is_file(m, top[i]) && is_file(m, top[j]));
    }
    assert forall|k: (Seq<char>, Seq<char>), i: int|
        #![trigger is_file(m, k), top[i]]
        is_file(m, k) && !top.contains(k) && 0 <= i < top.len() implies ranks_before(
        size_rank(top[i], m[top[i]]),
        size_rank(k, m[k]),
    ) by {
        let p = choose|p: int| 0 <= p < rows.len() && (#[trigger] rows[p]).0.key() == k;
        lemma_entry_found(rows, p);
        assert(!rows[p].1.is_dir);
        let f = choose|f: int| 0 <= f < files.len() && #[trigger] files[f] == p;
        lemma_ranked_covers(keys, order, 0, files.len() as int, f);
        let q = choose|q: int| 0 <= q < order.len() && #[trigger] order[q] == f;
        if q < out.len() {
            assert(out[q] == files[f]);
            assert(top[q] == k);
        }
        let a = order[i] as int;
        assert(ranks_before(keys[a]@, keys[f]@));
        assert(keys[a]@ == size_rank(rows[files[a] as int].0.key(), rows[files[a] as int].1));
        assert(keys[f]@ == size_rank(rows[files[f] as int].0.key(), rows[files[f] as int].1));
        assert(out[i] == files[a]);
        assert(is_file(m, top[i]));
    }
}

} // verus!
