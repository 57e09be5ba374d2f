//! What an event does to the counts, and what the summary and the emission show of them.

use crate::correlation::{
    access_kind, chicago_offset, civil_day, Access, DayCount, EngineView, RowView,
};
use crate::events::SmbEvent;
use crate::tally::{lemma_map_sum_empty, lemma_map_sum_insert};
use crate::text::{lemma_text_le_total, lowercase, text_le};
use vstd::prelude::*;

verus! {

// ---- days -----------------------------------------------------------------

/// The day of a FILETIME is the one that the wall clock in Chicago shows at that very
/// instant: `n` whole seconds after 1601, less the 11,644,473,600 seconds up to 1970,
/// moved by the zone's offset then.
pub proof fn law_day_is_the_local_date(n: int, ticks: int)
    requires
        n >= 0,
        0 <= ticks < 10_000_000,
    ensures
        ({
            let d = civil_day(10_000_000 * n + ticks);
            let at = n - 11_644_473_600;
            86_400 * d <= at + chicago_offset(at) < 86_400 * (d + 1)
        }),
{
    assert((10_000_000 * n + ticks) / 10_000_000 == n);
}

/// Before 1601 the fraction of a second is cut off toward 1601.
pub proof fn law_day_before_the_epoch(n: int, ticks: int)
    requires
        n >= 0,
        0 <= ticks < 10_000_000,
        n > 0 || ticks > 0,
    ensures
        ({
            let d = civil_day(-(10_000_000 * n + ticks));
            let at = -n - 11_644_473_600;
            86_400 * d <= at + chicago_offset(at) < 86_400 * (d + 1)
        }),
{
    assert((10_000_000 * n + ticks) / 10_000_000 == n);
}

/// All instants of one second have one day; at the same offset a later second never has
/// an earlier one, and 24 hours on it is a later one.
pub proof fn law_days_do_not_go_back(a: int, b: int)
    requires
        0 <= a <= b,
        chicago_offset(a / 10_000_000 - 11_644_473_600) == chicago_offset(
            b / 10_000_000 - 11_644_473_600,
        ),
    ensures
        civil_day(a) <= civil_day(b),
        a / 10_000_000 == b / 10_000_000 ==> civil_day(a) == civil_day(b),
        b - a >= 864_000_000_000 ==> civil_day(a) < civil_day(b),
{
    assert(b - a >= 864_000_000_000 ==> b / 10_000_000 >= a / 10_000_000 + 86_400);
}

// ---- access ---------------------------------------------------------------

/// The second and third lowest bits of a mask are those of writes and appends, the
/// lowest is that of reads: a mask with one of the former is a write, one with only
/// the latter a read, every other touches no data.
pub proof fn law_access_bits(desired: u32)
    ensures
        access_kind(desired) == Access::Write <==> desired % 8 >= 2,
        access_kind(desired) == Access::Read <==> desired % 8 == 1,
        access_kind(desired) == Access::Metadata <==> desired % 8 == 0,
{
    assert(desired & (0x2u32 | 0x4u32) != 0 <==> desired % 8 >= 2) by (bit_vector);
    assert(desired & 0x1u32 != 0 <==> desired % 2 == 1) by (bit_vector);
}

// ---- events ---------------------------------------------------------------

/// A tree connect names its share and does nothing else.
pub proof fn law_connect_names_a_share(v: EngineView, share_guid: u128, share: String, t: int)
    ensures
        ({
            let ev = SmbEvent::TreeConnect { share_guid, share };
            let w = v.applied(ev, t);
            &&& w.shares == v.shares.insert(share_guid, share@)
            &&& w.heat == v.heat
            &&& w.inventory == v.inventory
            &&& w.walked == v.walked
            &&& w.opens_total == v.opens_total
            &&& w.metadata_skipped == v.metadata_skipped
            &&& v.reported(ev, t) is None
            &&& v.has_room(ev, t)
        }),
{
}

/// An open with none of the three lowest access bits is counted as skipped and leaves
/// the heat as it is.
pub proof fn law_metadata_open_is_skipped(
    v: EngineView,
    open: u128,
    tree: u128,
    share_guid: Option<u128>,
    path: String,
    access: u32,
    t: int,
)
    requires
        access % 8 == 0,
    ensures
        ({
            let ev = SmbEvent::Open { open, tree, share_guid, path, access };
            let w = v.applied(ev, t);
            &&& w.metadata_skipped == v.metadata_skipped + 1
            &&& w.shares == v.shares
            &&& w.heat == v.heat
            &&& w.inventory == v.inventory
            &&& w.walked == v.walked
            &&& w.opens_total == v.opens_total
            &&& v.reported(ev, t) is None
            &&& v.has_room(ev, t) == (v.metadata_skipped < 0xffff_ffff_ffff_ffff)
        }),
{
    law_access_bits(access);
}

/// An open with one of the three lowest access bits adds one read or one write to the
/// file that its share's GUID and its lower-case path name, on the day that Chicago has
/// at the event's second, and leaves every other day and every other file alone.
pub proof fn law_open_is_counted(
    v: EngineView,
    open: u128,
    tree: u128,
    share_guid: Option<u128>,
    path: String,
    access: u32,
    t: int,
    d: i32,
)
    requires
        access % 8 != 0,
        ({
            let n = if t >= 0 { t / 10_000_000 } else { -((-t) / 10_000_000) };
            let at = n - 11_644_473_600;
            86_400 * d <= at + chicago_offset(at) < 86_400 * (d + 1)
        }),
    ensures
        ({
            let ev = SmbEvent::Open { open, tree, share_guid, path, access };
            let w = v.applied(ev, t);
            let k = (share_guid, lowercase(path@));
            let known = v.heat.contains_key(k) && v.heat[k].contains_key(d);
            let reads = if known { v.heat[k][d].reads as int } else { 0 };
            let writes = if known { v.heat[k][d].writes as int } else { 0 };
            &&& v.has_room(ev, t) == (v.opens_total < 0xffff_ffff_ffff_ffff && if access % 8 == 1 {
                reads < 0xffff_ffff
            } else {
                writes < 0xffff_ffff
            })
            &&& w.heat.dom() == v.heat.dom().insert(k)
            &&& w.heat[k].dom() == if v.heat.contains_key(k) {
                v.heat[k].dom().insert(d)
            } else {
                set![d]
            }
            &&& v.has_room(ev, t) ==> {
                &&& w.heat[k][d].reads == reads + if access % 8 == 1 { 1int } else { 0 }
                &&& w.heat[k][d].writes == writes + if access % 8 == 1 { 0int } else { 1 }
            }
            &&& forall|e: i32|
                e != d && v.heat.contains_key(k) && #[trigger] v.heat[k].contains_key(e)
                    ==> w.heat[k][e] == v.heat[k][e]
            &&& forall|q: (Option<u128>, Seq<char>)|
                q != k && #[trigger] v.heat.contains_key(q) ==> w.heat[q] == v.heat[q]
            &&& w.opens_total == v.opens_total + 1
            &&& w.metadata_skipped == v.metadata_skipped
            &&& w.shares == v.shares
            &&& w.inventory == v.inventory
            &&& w.walked == v.walked
        }),
{
    law_access_bits(access);
    lemma_day_of(t, d as int);
    let w = v.applied(SmbEvent::Open { open, tree, share_guid, path, access }, t);
    let k = (share_guid, lowercase(path@));
    assert(w.heat.dom() =~= v.heat.dom().insert(k));
    if v.heat.contains_key(k) {
        assert(w.heat[k].dom() =~= v.heat[k].dom().insert(d));
    } else {
        assert(w.heat[k].dom() =~= set![d]);
    }
}

/// An instant is in one day only.
proof fn lemma_day_of(t: int, d: int)
    requires
        ({
            let n = if t >= 0 { t / 10_000_000 } else { -((-t) / 10_000_000) };
            let at = n - 11_644_473_600;
            86_400 * d <= at + chicago_offset(at) < 86_400 * (d + 1)
        }),
    ensures
        civil_day(t) == d,
{
}

/// What an engine says of a file on a day is what it counted, and nothing where it
/// counted nothing; the days of a file are those on which it counted.
pub proof fn law_counts_are_read(v: EngineView, share_guid: Option<u128>, folded: Seq<char>, d: i32)
    ensures
        ({
            let k = (share_guid, folded);
            let known = v.heat.contains_key(k) && v.heat[k].contains_key(d);
            &&& known ==> v.count(share_guid, folded, d) == v.heat[k][d]
            &&& !known ==> v.count(share_guid, folded, d).reads == 0 && v.count(
                share_guid,
                folded,
                d,
            ).writes == 0
            &&& v.heat.contains_key(k) ==> v.days(share_guid, folded) == v.heat[k]
            &&& !v.heat.contains_key(k) ==> v.days(share_guid, folded).dom().len() == 0
        }),
{
}

/// One more open of a kind that touches data, told by its file, its day and its kind.
pub proof fn law_one_more_open(
    v: EngineView,
    share_guid: Option<u128>,
    folded: Seq<char>,
    d: i32,
    kind: Access,
)
    requires
        kind != Access::Metadata,
        v.count(share_guid, folded, d).reads < 0xffff_ffff,
        v.count(share_guid, folded, d).writes < 0xffff_ffff,
    ensures
        ({
            let w = v.opened(share_guid, folded, d, kind);
            let (before, after) = (v.count(share_guid, folded, d), w.count(share_guid, folded, d));
            &&& after.reads == before.reads + if kind == Access::Read { 1int } else { 0 }
            &&& after.writes == before.writes + if kind == Access::Write { 1int } else { 0 }
            &&& w.opens_total == v.opens_total + 1
            &&& w.metadata_skipped == v.metadata_skipped
            &&& w.shares == v.shares && w.inventory == v.inventory && w.walked == v.walked
        }),
{
}

/// What is reported of an open that touches data: its own fields as they came, whether
/// it reads or writes, its day, and its share's name as known by then, `UNKNOWN` where
/// nothing has named it.
pub proof fn law_open_is_reported(
    v: EngineView,
    open: u128,
    tree: u128,
    share_guid: Option<u128>,
    path: String,
    access: u32,
    t: int,
    d: i32,
)
    requires
        access % 8 != 0,
        ({
            let n = if t >= 0 { t / 10_000_000 } else { -((-t) / 10_000_000) };
            let at = n - 11_644_473_600;
            86_400 * d <= at + chicago_offset(at) < 86_400 * (d + 1)
        }),
    ensures
        ({
            let ev = SmbEvent::Open { open, tree, share_guid, path, access };
            let r = v.reported(ev, t);
            &&& r is Some
            &&& r->0.share_guid == share_guid
            &&& r->0.path == path@
            &&& r->0.tree == tree
            &&& r->0.open == open
            &&& r->0.access == access
            &&& r->0.kind == if access % 8 == 1 { Access::Read } else { Access::Write }
            &&& r->0.day == d
            &&& share_guid is Some && v.shares.contains_key(share_guid->0) ==> r->0.share
                == v.shares[share_guid->0]
            &&& share_guid is Some && !v.shares.contains_key(share_guid->0) ==> r->0.share
                == "UNKNOWN"@
            &&& share_guid is None ==> r->0.share == "UNKNOWN"@
        }),
{
    law_access_bits(access);
    lemma_day_of(t, d as int);
}

// ---- the summary ----------------------------------------------------------

/// A summary lists the hottest files first: a row never has fewer reads and writes
/// together than a later one. Rows of equal heat ascend by share, those of one share by
/// path, and those of one path by GUID, the one without a GUID first.
pub proof fn law_summary_is_hottest_first(v: EngineView, rows: Seq<RowView>, i: int, j: int)
    requires
        v.is_summary(rows),
        0 <= i < j < rows.len(),
    ensures
        ({
            let (a, b) = (rows[i], rows[j]);
            let tied = a.reads + a.writes == b.reads + b.writes;
            &&& a.reads + a.writes >= b.reads + b.writes
            &&& tied ==> text_le(a.share, b.share)
            &&& tied && a.share == b.share ==> text_le(a.path, b.path)
            &&& tied && a.share == b.share && a.path == b.path ==> {
                &&& b.share_guid is Some
                &&& a.share_guid is Some ==> a.share_guid->0 < b.share_guid->0
            }
        }),
{
    let (a, b) = (rows[i], rows[j]);
    lemma_text_le_total(a.share, b.share);
    lemma_text_le_total(a.path, b.path);
}

/// A summary has one row for each file counted, no file twice, under the name that its
/// share has by now.
pub proof fn law_summary_rows_are_the_files(v: EngineView, rows: Seq<RowView>)
    requires
        v.is_summary(rows),
    ensures
        rows.len() == v.heat.dom().len(),
        forall|i: int|
            #![trigger rows[i]]
            0 <= i < rows.len() ==> {
                let r = rows[i];
                &&& v.heat.contains_key((r.share_guid, r.path))
                &&& r.share_guid is None ==> r.share == "UNKNOWN"@
                &&& r.share_guid is Some && v.shares.contains_key(r.share_guid->0) ==> r.share
                    == v.shares[r.share_guid->0]
                &&& r.share_guid is Some && !v.shares.contains_key(r.share_guid->0) ==> r.share
                    == "UNKNOWN"@
            },
        forall|i: int, j: int|
            #![trigger rows[i], rows[j]]
            0 <= i < j < rows.len() ==> rows[i].share_guid != rows[j].share_guid || rows[i].path
                != rows[j].path,
{
    assert forall|i: int, j: int| #![trigger rows[i], rows[j]] 0 <= i < j < rows.len() implies
        rows[i].share_guid != rows[j].share_guid || rows[i].path != rows[j].path by {
        assert((rows[i].share_guid, rows[i].path) != (rows[j].share_guid, rows[j].path));
    }
}

/// Splitting a day off a file: its reads and its writes are that day's and those of
/// the other days, and a day with any of either is one active day more.
pub proof fn law_row_adds_up_its_days(
    v: EngineView,
    k: (Option<u128>, Seq<char>),
    d: i32,
    c: DayCount,
)
    requires
        v.heat.contains_key(k),
        v.heat[k].dom().finite(),
        !v.heat[k].contains_key(d),
    ensures
        ({
            let w = EngineView { heat: v.heat.insert(k, v.heat[k].insert(d, c)), ..v };
            &&& w.row(k).reads == v.row(k).reads + c.reads
            &&& w.row(k).writes == v.row(k).writes + c.writes
            &&& w.row(k).active_days == v.row(k).active_days + if c.reads + c.writes > 0 {
                1int
            } else {
                0
            }
        }),
{
    lemma_map_sum_insert(v.heat[k], |c: DayCount| c.reads as nat, d, c);
    lemma_map_sum_insert(v.heat[k], |c: DayCount| c.writes as nat, d, c);
    lemma_map_sum_insert(
        v.heat[k],
        |c: DayCount|
            if c.reads > 0 || c.writes > 0 {
                1nat
            } else {
                0nat
            },
        d,
        c,
    );
}

/// A file without days has no reads, no writes and no active days.
pub proof fn law_row_without_days(v: EngineView, k: (Option<u128>, Seq<char>))
    requires
        v.heat.contains_key(k),
        v.heat[k] == Map::<i32, DayCount>::empty(),
    ensures
        v.row(k).reads == 0,
        v.row(k).writes == 0,
        v.row(k).active_days == 0,
{
    lemma_map_sum_empty::<i32, DayCount>(|c: DayCount| c.reads as nat);
    lemma_map_sum_empty::<i32, DayCount>(|c: DayCount| c.writes as nat);
}

/// A row of a summary shows what the engine counted of its file: of a file with one
/// day that day's counts, and with a day taken away that day's counts less.
pub proof fn law_summary_row_counts(v: EngineView, rows: Seq<RowView>, i: int, d: i32)
    requires
        v.inv(),
        v.is_summary(rows),
        0 <= i < rows.len(),
        v.heat[(rows[i].share_guid, rows[i].path)].contains_key(d),
    ensures
        ({
            let k = (rows[i].share_guid, rows[i].path);
            let c = v.heat[k][d];
            let less = EngineView { heat: v.heat.insert(k, v.heat[k].remove(d)), ..v };
            &&& rows[i].reads == less.row(k).reads + c.reads
            &&& rows[i].writes == less.row(k).writes + c.writes
            &&& rows[i].active_days == less.row(k).active_days + 1
            &&& v.heat[k].dom() == set![d] ==> {
                &&& rows[i].reads == c.reads
                &&& rows[i].writes == c.writes
                &&& rows[i].active_days == 1
            }
            &&& rows[i].active_days == v.heat[k].dom().len()
        }),
{
    let k = (rows[i].share_guid, rows[i].path);
    let c = v.heat[k][d];
    let less = EngineView { heat: v.heat.insert(k, v.heat[k].remove(d)), ..v };
    assert(v.heat.contains_key(k));
    law_row_adds_up_its_days(less, k, d, c);
    let again = EngineView { heat: less.heat.insert(k, less.heat[k].insert(d, c)), ..less };
    assert(less.heat[k].insert(d, c) =~= v.heat[k]);
    assert(again.heat =~= v.heat);
    crate::correlation::law_active_days_are_all_days(v, k);
    if v.heat[k].dom() == set![d] {
        assert(less.heat[k] =~= Map::<i32, DayCount>::empty());
        law_row_without_days(less, k);
    }
}

} // verus!
