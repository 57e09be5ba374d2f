//! What is kept of the counts, and what the tables and lines show of it.

use crate::correlation::{
    access_text, key_outcome, Access, AccessView, EngineView, KeyDay, KeyOutcome, RowView,
};
use crate::events::guid_text;
use crate::flush::progress_text;
use crate::inventory::Entry;
use crate::text::{dec, dec_int, hex, lemma_text_le_total, lowercase, pad_left, text_le};
use vstd::prelude::*;

verus! {

// ---- the join -------------------------------------------------------------

/// Exactly one thing becomes of a key: an open of a share's root is dropped; of other
/// paths those of an unnamed share are kept without a size; of named shares those not
/// walked are dropped; in a walked share a directory is dropped, a file is kept with
/// the size it has in the inventory, and a path that is not there is kept without one.
pub proof fn law_outcomes(
    share: Seq<char>,
    lower: Seq<char>,
    path: Seq<char>,
    inventory: Map<(Seq<char>, Seq<char>), Entry>,
    walked: Set<Seq<char>>,
)
    ensures
        ({
            let o = key_outcome(share, lower, path, inventory, walked);
            let in_walk = path.len() > 0 && share != "UNKNOWN"@ && walked.contains(lower);
            let found = inventory.contains_key((lower, path));
            &&& o == KeyOutcome::DropRoot <==> path.len() == 0
            &&& o == KeyOutcome::UnresolvedShare <==> path.len() > 0 && share == "UNKNOWN"@
            &&& o == KeyOutcome::DropNonWalkedShare <==> path.len() > 0 && share != "UNKNOWN"@
                && !walked.contains(lower)
            &&& o == KeyOutcome::Restat <==> in_walk && !found
            &&& o == KeyOutcome::DropDir <==> in_walk && found && inventory[(lower, path)].is_dir
            &&& o is Leaf <==> in_walk && found && !inventory[(lower, path)].is_dir
            &&& o is Leaf ==> o->alloc_bytes == inventory[(lower, path)].alloc
        }),
{
}

/// A file's day is emitted just where the file was opened on it, the file is not a
/// share's root, and its share is either unnamed or walked without the inventory
/// calling the file a directory. Nothing else decides it: not how hot the file is, and
/// not whether the inventory has it.
pub proof fn law_what_is_emitted(v: EngineView, e: KeyDay)
    ensures
        ({
            let k = (e.share_guid, e.path);
            let named = e.share_guid is Some && v.shares.contains_key(e.share_guid->0);
            let lower = lowercase(v.shares[e.share_guid->0]);
            v.is_emitted(e) <==> {
                &&& v.heat.contains_key(k)
                &&& v.heat[k].contains_key(e.day)
                &&& e.path.len() > 0
                &&& named && v.shares[e.share_guid->0] != "UNKNOWN"@ ==> {
                    &&& v.walked.contains(lower)
                    &&& v.inventory.contains_key((lower, e.path)) ==> !v.inventory[(
                        lower,
                        e.path,
                    )].is_dir
                }
            }
        }),
{
}

/// An emitted row carries its share's name in lower case, its path, its day, that
/// day's reads and writes and, where the inventory has the file, its allocated size;
/// where it does not, no size and the word `restat`, and where the share has no name,
/// no size and the word `unresolved_share`.
pub proof fn law_emitted_row(v: EngineView, e: KeyDay)
    requires
        v.is_emitted(e),
    ensures
        ({
            let k = (e.share_guid, e.path);
            let r = v.emit_row(e);
            let named = e.share_guid is Some && v.shares.contains_key(e.share_guid->0);
            let share = if named { v.shares[e.share_guid->0] } else { "UNKNOWN"@ };
            let at = (lowercase(share), e.path);
            &&& r.share == lowercase(share)
            &&& r.path == e.path
            &&& r.day == e.day
            &&& r.reads == v.heat[k][e.day].reads
            &&& r.writes == v.heat[k][e.day].writes
            &&& if share == "UNKNOWN"@ {
                r.alloc_bytes is None && r.flags == seq!["unresolved_share"@]
            } else if v.inventory.contains_key(at) {
                r.alloc_bytes == Some(v.inventory[at].alloc) && r.flags.len() == 0
            } else {
                r.alloc_bytes is None && r.flags == seq!["restat"@]
            }
        }),
{
}

/// An emission holds every file and day that is to be emitted, once: the files from
/// the hottest down, ties by share and then by path, the days of one file ascending.
pub proof fn law_emission_order(v: EngineView, keys: Seq<KeyDay>, i: int, j: int)
    requires
        v.is_emission(keys),
        0 <= i < j < keys.len(),
    ensures
        ({
            let (x, y) = (keys[i], keys[j]);
            let (a, b) = (v.row((x.share_guid, x.path)), v.row((y.share_guid, y.path)));
            &&& x != y
            &&& x.share_guid == y.share_guid && x.path == y.path ==> x.day < y.day
            &&& a.reads + a.writes >= b.reads + b.writes
            &&& a.reads + a.writes == b.reads + b.writes ==> text_le(a.share, b.share)
            &&& a.reads + a.writes == b.reads + b.writes && a.share == b.share ==> text_le(
                x.path,
                y.path,
            )
            &&& a.reads + a.writes == b.reads + b.writes && a.share == b.share && x.path == y.path
                && x.share_guid != y.share_guid ==> {
                &&& y.share_guid is Some
                &&& x.share_guid is Some ==> x.share_guid->0 < y.share_guid->0
            }
        }),
{
    let (x, y) = (keys[i], keys[j]);
    let (a, b) = (v.row((x.share_guid, x.path)), v.row((y.share_guid, y.path)));
    assert(v.emits_before(x, y));
    lemma_text_le_total(a.share, b.share);
    lemma_text_le_total(a.path, b.path);
}

/// An emission leaves nothing out and adds nothing: it lists just the files and days
/// that are to be emitted, none of them twice.
pub proof fn law_emission_is_complete(v: EngineView, keys: Seq<KeyDay>, e: KeyDay)
    requires
        v.is_emission(keys),
    ensures
        keys.contains(e) <==> v.is_emitted(e),
        keys.no_duplicates(),
{
    if keys.contains(e) {
        let i = choose|i: int| 0 <= i < keys.len() && keys[i] == e;
        assert(v.is_emitted(keys[i]));
    }
    assert forall|i: int, j: int| 0 <= i < keys.len() && 0 <= j < keys.len() && i
        != j implies keys[i] != keys[j] by {
        if i < j {
            law_emission_order(v, keys, i, j);
        } else {
            law_emission_order(v, keys, j, i);
        }
    }
}

// ---- the table ------------------------------------------------------------

/// Without a walked share the table has a line for every row, in their order, between a
/// header with the number of files and of opens and a last line with the opens that
/// were skipped.
pub proof fn law_table_without_a_walk(v: EngineView, rows: Seq<RowView>, r: RowView)
    requires
        v.walked.len() == 0,
    ensures
        v.table_text(rows) == "=== resolved heat: "@ + dec(rows.len()) + " keys, "@ + dec(
            v.opens_total,
        ) + " r/w opens ===\n"@ + v.plain_body(rows) + "metadata-skipped: "@ + dec(
            v.metadata_skipped,
        ) + "\n"@,
        v.plain_body(Seq::empty()) == Seq::<char>::empty(),
        v.plain_body(rows.push(r)) == v.plain_body(rows) + ("reads="@ + pad_left(
            dec(r.reads),
            ' ',
            7,
        ) + " writes="@ + pad_left(dec(r.writes), ' ', 7) + " active_days="@ + pad_left(
            dec(r.active_days),
            ' ',
            4,
        ) + "  "@ + r.share + "\\"@ + r.path + "  [share_guid="@ + (if r.share_guid is Some {
            guid_text(r.share_guid->0 as nat, true)
        } else {
            "<none>"@
        }) + "]"@) + "\n"@,
{
    assert(rows.push(r).drop_last() =~= rows);
}

proof fn lemma_outcomes_counted(
    v: EngineView,
    rows: Seq<RowView>,
    p: spec_fn(KeyOutcome) -> bool,
    q: spec_fn(RowView) -> bool,
)
    requires
        forall|r: RowView| #[trigger] q(r) == p(v.outcome(r)),
    ensures
        v.outcomes(rows, p) == rows.filter(q).len(),
    decreases rows.len(),
{
    reveal(Seq::filter);
    if rows.len() > 0 {
        lemma_outcomes_counted(v, rows.drop_last(), p, q);
    }
}

/// With a walked share the header counts the rows by what became of them: the files
/// with a size, those to be looked up again and those of unnamed shares, and of the
/// dropped ones the directories, the roots and the rows of shares not walked.
pub proof fn law_table_with_a_walk(v: EngineView, rows: Seq<RowView>)
    requires
        v.walked.len() > 0,
    ensures
        ({
            let leaves = rows.filter(
                |r: RowView|
                    r.path.len() > 0 && r.share != "UNKNOWN"@ && v.walked.contains(
                        lowercase(r.share),
                    ) && v.inventory.contains_key((lowercase(r.share), r.path)) && !v.inventory[(
                        lowercase(r.share),
                        r.path,
                    )].is_dir,
            ).len();
            let restat = rows.filter(
                |r: RowView|
                    r.path.len() > 0 && r.share != "UNKNOWN"@ && v.walked.contains(
                        lowercase(r.share),
                    ) && !v.inventory.contains_key((lowercase(r.share), r.path)),
            ).len();
            let unresolved = rows.filter(
                |r: RowView| r.path.len() > 0 && r.share == "UNKNOWN"@,
            ).len();
            let dirs = rows.filter(
                |r: RowView|
                    r.path.len() > 0 && r.share != "UNKNOWN"@ && v.walked.contains(
                        lowercase(r.share),
                    ) && v.inventory.contains_key((lowercase(r.share), r.path)) && v.inventory[(
                        lowercase(r.share),
                        r.path,
                    )].is_dir,
            ).len();
            let roots = rows.filter(|r: RowView| r.path.len() == 0).len();
            let elsewhere = rows.filter(
                |r: RowView|
                    r.path.len() > 0 && r.share != "UNKNOWN"@ && !v.walked.contains(
                        lowercase(r.share),
                    ),
            ).len();
            &&& v.table_text(rows) == "=== resolved heat: "@ + dec(leaves + restat + unresolved)
                + " rows ("@ + dec(leaves) + " leaves, "@ + dec(restat) + " restat, "@ + dec(
                unresolved,
            ) + " unresolved-share), "@ + dec(v.opens_total) + " r/w opens ===\n"@ + "dropped: "@
                + dec(dirs) + " dir, "@ + dec(roots) + " share-root, "@ + dec(elsewhere)
                + " non-walked-share\n"@ + v.joined_body(rows) + "metadata-skipped: "@ + dec(
                v.metadata_skipped,
            ) + "\n"@
        }),
{
    lemma_outcomes_counted(
        v,
        rows,
        |o: KeyOutcome| o is Leaf,
        |r: RowView|
            r.path.len() > 0 && r.share != "UNKNOWN"@ && v.walked.contains(lowercase(r.share))
                && v.inventory.contains_key((lowercase(r.share), r.path)) && !v.inventory[(
                lowercase(r.share),
                r.path,
            )].is_dir,
    );
    lemma_outcomes_counted(
        v,
        rows,
        |o: KeyOutcome| o is Restat,
        |r: RowView|
            r.path.len() > 0 && r.share != "UNKNOWN"@ && v.walked.contains(lowercase(r.share))
                && !v.inventory.contains_key((lowercase(r.share), r.path)),
    );
    lemma_outcomes_counted(
        v,
        rows,
        |o: KeyOutcome| o is UnresolvedShare,
        |r: RowView| r.path.len() > 0 && r.share == "UNKNOWN"@,
    );
    lemma_outcomes_counted(
        v,
        rows,
        |o: KeyOutcome| o is DropDir,
        |r: RowView|
            r.path.len() > 0 && r.share != "UNKNOWN"@ && v.walked.contains(lowercase(r.share))
                && v.inventory.contains_key((lowercase(r.share), r.path)) && v.inventory[(
                lowercase(r.share),
                r.path,
            )].is_dir,
    );
    lemma_outcomes_counted(
        v,
        rows,
        |o: KeyOutcome| o is DropRoot,
        |r: RowView| r.path.len() == 0,
    );
    lemma_outcomes_counted(
        v,
        rows,
        |o: KeyOutcome| o is DropNonWalkedShare,
        |r: RowView|
            r.path.len() > 0 && r.share != "UNKNOWN"@ && !v.walked.contains(lowercase(r.share)),
    );
}

/// The body of a joined table has a line for every kept row, in their order: its
/// counts, its size or a question mark, and in brackets why the size is missing.
pub proof fn law_joined_lines(v: EngineView, rows: Seq<RowView>, r: RowView)
    ensures
        ({
            let unnamed = r.share == "UNKNOWN"@;
            let at = (lowercase(r.share), r.path);
            let kept = r.path.len() > 0 && (unnamed || (v.walked.contains(at.0)
                && !(v.inventory.contains_key(at) && v.inventory[at].is_dir)));
            let size = !unnamed && v.inventory.contains_key(at);
            &&& v.joined_body(Seq::empty()) == Seq::<char>::empty()
            &&& !kept ==> v.joined_body(rows.push(r)) == v.joined_body(rows)
            &&& kept ==> v.joined_body(rows.push(r)) == v.joined_body(rows) + ("reads="@ + pad_left(
                dec(r.reads),
                ' ',
                4,
            ) + " writes="@ + pad_left(dec(r.writes), ' ', 4) + " active_days="@ + pad_left(
                dec(r.active_days),
                ' ',
                3,
            ) + " alloc_bytes="@ + (if size {
                pad_left(dec(v.inventory[at].alloc as nat), ' ', 9)
            } else {
                pad_left("?"@, ' ', 9)
            }) + "  "@ + r.share + "\\"@ + r.path + "  "@ + (if unnamed {
                "[unresolved-share] "@
            } else if size {
                ""@
            } else {
                "[restat] "@
            }) + "[share_guid="@ + (if r.share_guid is Some {
                guid_text(r.share_guid->0 as nat, true)
            } else {
                "<none>"@
            }) + "]\n"@)
        }),
{
    assert(rows.push(r).drop_last() =~= rows);
    reveal_strlit("");
    reveal_strlit("[");
    reveal_strlit("] ");
    reveal_strlit("restat");
    reveal_strlit("[restat] ");
    reveal_strlit("unresolved-share");
    reveal_strlit("[unresolved-share] ");
    assert(""@ =~= Seq::<char>::empty());
    assert(v.joined_body(rows) + Seq::<char>::empty() =~= v.joined_body(rows));
    reveal_with_fuel(crate::correlation::flags_text, 2);
    assert(Seq::<char>::empty() + "["@ + "restat"@ + "] "@ =~= "[restat] "@);
    assert(Seq::<char>::empty() + "["@ + "unresolved-share"@ + "] "@ =~= "[unresolved-share] "@);
}

// ---- lines ----------------------------------------------------------------

/// The line of an access shows its file, its identifiers, its mask, whether it reads or
/// writes, and its day.
pub proof fn law_access_line(a: AccessView)
    ensures
        access_text(a) == a.share + "\\"@ + a.path + "  share_guid="@ + (if a.share_guid is Some {
            guid_text(a.share_guid->0 as nat, true)
        } else {
            "<none>"@
        }) + " open="@ + guid_text(a.open as nat, true) + " tree="@ + guid_text(a.tree as nat, true)
            + " access=0x"@ + hex(a.access as nat, 8, true) + " "@ + (match a.kind {
            Access::Read => "Read"@,
            Access::Write => "Write"@,
            Access::Metadata => "Metadata"@,
        }) + " day="@ + dec_int(a.day as int),
{
}

/// The account of an engine: the opens counted and skipped, the files, those of them
/// whose share has a name and those whose share has none, and the shares with a name.
pub proof fn law_stats_line(v: EngineView)
    ensures
        ({
            let named = v.heat.dom().filter(
                |k: (Option<u128>, Seq<char>)| k.0 is Some && v.shares.contains_key(k.0->0),
            ).len();
            v.stats_text() == "r/w opens: "@ + dec(v.opens_total) + " | metadata-skipped: "@ + dec(
                v.metadata_skipped,
            ) + " | keys: "@ + dec(v.heat.dom().len()) + " ("@ + dec(named) + " named, "@ + dec(
                (v.heat.dom().len() - named) as nat,
            ) + " UNKNOWN) | shares bound: "@ + dec(v.shares.dom().len())
        }),
{
    assert(v.heat.dom().filter(
        |k: (Option<u128>, Seq<char>)| k.0 is Some && v.shares.contains_key(k.0->0),
    ) =~= v.heat.dom().filter(|k: (Option<u128>, Seq<char>)| v.is_named(k)));
}

/// A progress line is due with every two hundredth open counted, and with no other.
pub proof fn law_progress_every_200(v: EngineView)
    ensures
        progress_text(v) is Some <==> exists|n: nat| n >= 1 && v.opens_total == #[trigger] (200 * n),
        progress_text(v) is Some ==> progress_text(v)->0 == "  ["@ + v.stats_text() + "]"@,
{
    if progress_text(v) is Some {
        assert(v.opens_total == 200 * (v.opens_total / 200));
    }
}

} // verus!
