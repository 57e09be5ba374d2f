//! What a walk records, and what it adds up to.

use crate::inventory::{
    alloc_bytes, attrs_of, compressed_count, dir_count, file_count, fits, is_top, law_rounded_up,
    logical_bytes, one_if, rounded_up, size_rank, sparse_count, summary_text, top_lines, Entry,
    Visit, WalkView,
};
use crate::paths::{backslashed, relative_path};
use crate::rank::ranks_before;
use crate::tally::{lemma_map_sum_empty, lemma_map_sum_insert};
use crate::text::{dec, lemma_text_le_total, lowercase, pad_left, text_le};
use vstd::prelude::*;

verus! {

// ---- attributes and sizes -------------------------------------------------

/// The attributes are bits of the mask: a directory's is the fifth, a sparse file's the
/// tenth, a reparse point's the eleventh and a compressed file's the twelfth.
pub proof fn law_attribute_bits(a: u32)
    ensures
        attrs_of(a).is_dir == ((a / 16) % 2 == 1),
        attrs_of(a).sparse == ((a / 512) % 2 == 1),
        attrs_of(a).reparse == ((a / 1024) % 2 == 1),
        attrs_of(a).compressed == ((a / 2048) % 2 == 1),
{
    assert(a & 0x010u32 != 0 <==> (a / 16) % 2 == 1) by (bit_vector);
    assert(a & 0x200u32 != 0 <==> (a / 512) % 2 == 1) by (bit_vector);
    assert(a & 0x400u32 != 0 <==> (a / 1024) % 2 == 1) by (bit_vector);
    assert(a & 0x800u32 != 0 <==> (a / 2048) % 2 == 1) by (bit_vector);
}

/// A size takes whole clusters, as few as hold it; without a cluster size, and for
/// nothing, it is itself. One more cluster of content takes one more cluster.
pub proof fn law_sizes_take_clusters(n: int, cluster: int)
    requires
        n >= 0,
        cluster > 0,
    ensures
        n <= rounded_up(n, cluster) < n + cluster,
        rounded_up(n, cluster) % cluster == 0,
        rounded_up(n, 0) == n,
        rounded_up(0, cluster) == 0,
        rounded_up(n + cluster, cluster) == rounded_up(n, cluster) + cluster,
{
    law_rounded_up(n, cluster);
    law_rounded_up(n + cluster, cluster);
    let (a, b) = (rounded_up(n, cluster), rounded_up(n + cluster, cluster));
    vstd::arithmetic::div_mod::lemma_fundamental_div_mod(a, cluster);
    vstd::arithmetic::div_mod::lemma_fundamental_div_mod(b, cluster);
    let (x, y) = (a / cluster, b / cluster);
    assert(a == cluster * x && b == cluster * y);
    assert(y == x + 1) by (nonlinear_arith)
        requires
            a == cluster * x,
            b == cluster * y,
            n <= a < n + cluster,
            n + cluster <= b < n + cluster + cluster,
            cluster > 0,
    ;
    assert(cluster * (x + 1) == cluster * x + cluster) by (nonlinear_arith);
}

// ---- visits ---------------------------------------------------------------

/// What is met at a depth below the root and is no reparse point is recorded under the
/// share's name and the path's key, with its length, the clusters that it takes and its
/// attributes; nothing else of the walk changes.
pub proof fn law_entry_is_recorded(
    w: WalkView,
    share: Seq<char>,
    root: Seq<char>,
    depth: usize,
    path: String,
    attributes: u32,
    len: u64,
)
    requires
        depth > 0,
        (attributes / 1024) % 2 == 0,
        w.cluster_size <= 0xffff_ffff_ffff_ffff,
    ensures
        ({
            let v = Visit::Entry { depth, path, attributes, len };
            let after = w.visited(share, root, v);
            let k = (share, lowercase(relative_path(path@, root)));
            let e = after.entries[k];
            &&& fits(v, w) <==> len == 0 || w.cluster_size == 0 || len + w.cluster_size - 1
                <= 0xffff_ffff_ffff_ffff
            &&& after.entries.dom() == w.entries.dom().insert(k)
            &&& forall|q: (Seq<char>, Seq<char>)|
                q != k && #[trigger] w.entries.contains_key(q) ==> after.entries[q] == w.entries[q]
            &&& e.logical == len
            &&& e.is_dir == ((attributes / 16) % 2 == 1)
            &&& e.sparse == ((attributes / 512) % 2 == 1)
            &&& e.compressed == ((attributes / 2048) % 2 == 1)
            &&& w.cluster_size == 0 || len == 0 ==> e.alloc == len
            &&& fits(v, w) && w.cluster_size > 0 ==> {
                &&& len <= e.alloc < len + w.cluster_size
                &&& e.alloc as int % w.cluster_size as int == 0
            }
            &&& after.reparse_skipped == w.reparse_skipped
            &&& after.cluster_size == w.cluster_size
        }),
{
    law_attribute_bits(attributes);
    let v = Visit::Entry { depth, path, attributes, len };
    let after = w.visited(share, root, v);
    let k = (share, lowercase(relative_path(path@, root)));
    assert(after.entries.dom() =~= w.entries.dom().insert(k));
    if w.cluster_size > 0 {
        law_rounded_up(len as int, w.cluster_size as int);
    }
}

/// A reparse point below the root is counted and not recorded.
pub proof fn law_reparse_point_is_skipped(
    w: WalkView,
    share: Seq<char>,
    root: Seq<char>,
    depth: usize,
    path: String,
    attributes: u32,
    len: u64,
)
    requires
        depth > 0,
        (attributes / 1024) % 2 == 1,
    ensures
        ({
            let v = Visit::Entry { depth, path, attributes, len };
            let after = w.visited(share, root, v);
            &&& fits(v, w) <==> w.reparse_skipped < 0xffff_ffff_ffff_ffff
            &&& after.entries == w.entries
            &&& after.reparse_skipped == w.reparse_skipped + 1
            &&& after.cluster_size == w.cluster_size
        }),
{
    law_attribute_bits(attributes);
}

/// The root itself, and what cannot be read, leave the walk as it is.
pub proof fn law_root_and_unreadable_are_passed(
    w: WalkView,
    share: Seq<char>,
    root: Seq<char>,
    path: String,
    attributes: u32,
    len: u64,
)
    ensures
        ({
            let v = Visit::Entry { depth: 0, path, attributes, len };
            w.visited(share, root, v) == w && fits(v, w)
        }),
        w.visited(share, root, Visit::Unreadable) == w,
        fits(Visit::Unreadable, w),
{
}

// ---- paths ----------------------------------------------------------------

/// Slashes and backslashes are one separator, in the path and in the root.
pub proof fn law_separators_are_one(full: Seq<char>, root: Seq<char>)
    ensures
        relative_path(full, root) == relative_path(backslashed(full), backslashed(root)),
        backslashed(full).len() == full.len(),
        forall|i: int|
            0 <= i < full.len() ==> #[trigger] backslashed(full)[i] == if full[i] == '/' {
                '\\'
            } else {
                full[i]
            },
{
    assert(backslashed(backslashed(full)) =~= backslashed(full));
    assert(backslashed(backslashed(root)) =~= backslashed(root));
}

// ---- totals ---------------------------------------------------------------

/// A new entry adds to the totals what it is: one file with its bytes or one directory
/// without any, and one to the sparse and to the compressed entries where it is one.
pub proof fn law_totals_add_up(
    m: Map<(Seq<char>, Seq<char>), Entry>,
    k: (Seq<char>, Seq<char>),
    e: Entry,
)
    requires
        m.dom().finite(),
        !m.contains_key(k),
    ensures
        ({
            let n = m.insert(k, e);
            &&& file_count(n) == file_count(m) + if e.is_dir { 0int } else { 1 }
            &&& dir_count(n) == dir_count(m) + if e.is_dir { 1int } else { 0 }
            &&& logical_bytes(n) == logical_bytes(m) + if e.is_dir { 0int } else { e.logical as int }
            &&& alloc_bytes(n) == alloc_bytes(m) + if e.is_dir { 0int } else { e.alloc as int }
            &&& sparse_count(n) == sparse_count(m) + if e.sparse { 1int } else { 0 }
            &&& compressed_count(n) == compressed_count(m) + if e.compressed { 1int } else { 0 }
        }),
{
    lemma_map_sum_insert(m, |e: Entry| one_if(!e.is_dir), k, e);
    lemma_map_sum_insert(m, |e: Entry| one_if(e.is_dir), k, e);
    lemma_map_sum_insert(m, |e: Entry| one_if(e.sparse), k, e);
    lemma_map_sum_insert(m, |e: Entry| one_if(e.compressed), k, e);
    lemma_map_sum_insert(
        m,
        |e: Entry|
            if e.is_dir {
                0nat
            } else {
                e.logical as nat
            },
        k,
        e,
    );
    lemma_map_sum_insert(
        m,
        |e: Entry|
            if e.is_dir {
                0nat
            } else {
                e.alloc as nat
            },
        k,
        e,
    );
}

/// Nothing adds up to nothing.
pub proof fn law_totals_of_nothing()
    ensures
        ({
            let none = Map::<(Seq<char>, Seq<char>), Entry>::empty();
            &&& file_count(none) == 0 && dir_count(none) == 0
            &&& logical_bytes(none) == 0 && alloc_bytes(none) == 0
            &&& sparse_count(none) == 0 && compressed_count(none) == 0
        }),
{
    lemma_map_sum_empty::<(Seq<char>, Seq<char>), Entry>(|e: Entry| one_if(!e.is_dir));
}

/// The list of the largest files has up to ten, all of them files of the inventory, and
/// none twice; the sizes descend, files of one size ascend by path and those of one path
/// by share; and a file that is left out would stand behind every one that is listed.
pub proof fn law_largest_files(
    m: Map<(Seq<char>, Seq<char>), Entry>,
    top: Seq<(Seq<char>, Seq<char>)>,
    i: int,
    j: int,
    k: (Seq<char>, Seq<char>),
)
    requires
        is_top(m, top),
        0 <= i < top.len(),
    ensures
        top.len() <= 10,
        top.len() < 10 ==> top.len() == file_count(m),
        m.contains_key(top[i]) && !m[top[i]].is_dir,
        i < j < top.len() ==> {
            let (a, b) = (m[top[i]], m[top[j]]);
            &&& top[i] != top[j]
            &&& a.alloc >= b.alloc
            &&& a.alloc == b.alloc ==> text_le(top[i].1, top[j].1)
            &&& a.alloc == b.alloc && top[i].1 == top[j].1 ==> text_le(top[i].0, top[j].0)
        },
        m.contains_key(k) && !m[k].is_dir && !top.contains(k) ==> {
            &&& m[top[i]].alloc >= m[k].alloc
            &&& m[top[i]].alloc == m[k].alloc ==> text_le(top[i].1, k.1)
            &&& m[top[i]].alloc == m[k].alloc && top[i].1 == k.1 ==> text_le(top[i].0, k.0)
        },
{
    assert(crate::inventory::is_file(m, top[i]));
    if i < j < top.len() {
        assert(ranks_before(size_rank(top[i], m[top[i]]), size_rank(top[j], m[top[j]])));
        lemma_text_le_total(top[i].1, top[j].1);
    }
    if m.contains_key(k) && !m[k].is_dir && !top.contains(k) {
        assert(crate::inventory::is_file(m, k));
        assert(ranks_before(size_rank(top[i], m[top[i]]), size_rank(k, m[k])));
        lemma_text_le_total(top[i].1, k.1);
    }
}

/// The summary of a walk, its totals and a line for each of the largest files.
pub proof fn law_walk_summary(
    w: WalkView,
    top: Seq<(Seq<char>, Seq<char>)>,
    k: (Seq<char>, Seq<char>),
    logical_tb: Seq<char>,
    alloc_tb: Seq<char>,
)
    ensures
        summary_text(w, top, logical_tb, alloc_tb) == "cluster_size: "@ + dec(w.cluster_size)
            + " bytes\n"@ + "files: "@ + dec(file_count(w.entries)) + "   dirs: "@ + dec(
            dir_count(w.entries),
        ) + "\n"@ + "logical: "@ + dec(logical_bytes(w.entries)) + " bytes ("@ + logical_tb
            + " TB)\n"@ + "alloc:   "@ + dec(alloc_bytes(w.entries)) + " bytes ("@ + alloc_tb
            + " TB)\n"@ + "sparse: "@ + dec(sparse_count(w.entries)) + "   compressed: "@ + dec(
            compressed_count(w.entries),
        ) + "   reparse-skipped: "@ + dec(w.reparse_skipped) + "\n"@ + "top 10 files by alloc:\n"@
            + top_lines(w.entries, top),
        top_lines(w.entries, Seq::empty()).len() == 0,
        top_lines(w.entries, top.push(k)) == top_lines(w.entries, top) + ("  "@ + pad_left(
            dec(w.entries[k].alloc as nat),
            ' ',
            14,
        ) + " alloc  ("@ + pad_left(dec(w.entries[k].logical as nat), ' ', 14) + " logical)  "@
            + k.1 + "\n"@),
{
    assert(top.push(k).drop_last() =~= top);
}

} // verus!
