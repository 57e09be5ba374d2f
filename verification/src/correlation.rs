//! The correlation engine: per-file read/write demand with deferred share naming.
//!
//! Heat is keyed on the open's share GUID, not the share name, and names are
//! resolved only at emission time. A binding seen at any point in the run names
//! every open for that GUID, those before it too; a GUID that nothing ever binds
//! is emitted as `UNKNOWN`. Opens are not deduplicated, paths fold case, and opens
//! that touch no data are only counted.

use crate::events::{fmt_guid_key, guid_text, GuidKey, SmbEvent};
use crate::inventory::{Entry, Inventory, ShareSet};
use crate::rank::{
    lemma_ranks_before_total, lemma_same_order, rank_order, ranked, ranks_before, Rank, RankKey,
};
use crate::table::{ascending, entries_map, id_le, Table, TableKey};
use crate::tally::{
    lemma_keys_take, lemma_map_sum_add, lemma_map_sum_bounds, lemma_map_sum_empty,
    lemma_map_sum_insert, lemma_map_sum_prefix, lemma_map_sum_remove, lemma_map_sum_take, map_sum,
};
use crate::text::{
    ascii_folded, dec, dec_int, fmt_dec_int, fmt_dec_wide, fmt_pad_left, fold_case, hex,
    lemma_text_le_total, lowercase, pad_left, push_dec, push_hex, same_text, text_le,
};
use std::collections::HashMap;
use vstd::prelude::*;
use vstd::utf8::is_ascii_chars;

verus! {

broadcast use vstd::std_specs::hash::group_hash_axioms;

/// Emitted for a share GUID that no binding names. The open is still counted.
pub const UNKNOWN_SHARE: &'static str = "UNKNOWN";

/// Seconds between the FILETIME epoch (1601-01-01 UTC) and the Unix epoch.
pub const FILETIME_TO_UNIX_SECS: i64 = 11_644_473_600;

// Desired-access bits.
pub const FILE_READ_DATA: u32 = 0x1;

pub const FILE_WRITE_DATA: u32 = 0x2;

pub const FILE_APPEND_DATA: u32 = 0x4;

pub const WRITE_MASK: u32 = FILE_WRITE_DATA | FILE_APPEND_DATA;

// ---- access ---------------------------------------------------------------

/// How an open touches file data, per its desired-access mask.
#[derive(Debug, Clone, Copy, PartialEq, Eq, Structural)]
pub enum Access {
    Read,
    Write,
    Metadata,
}

/// A write bit wins over a read bit; without either no data is touched.
pub open spec fn access_kind(desired: u32) -> Access {
    if desired & WRITE_MASK != 0 {
        Access::Write
    } else if desired & FILE_READ_DATA != 0 {
        Access::Read
    } else {
        Access::Metadata
    }
}

/// Classify a desired-access mask.
pub fn classify_access(desired: u32) -> (r: Access)
    ensures
        r == access_kind(desired),
{
    if desired & WRITE_MASK != 0 {
        Access::Write
    } else if desired & FILE_READ_DATA != 0 {
        Access::Read
    } else {
        Access::Metadata
    }
}

/// A mask with a write or append bit is a write whatever else is set; one with the
/// read bit and neither of those is a read; one with none of the three is neither.
pub proof fn law_access_precedence(desired: u32)
    ensures
        access_kind(desired | FILE_WRITE_DATA) == Access::Write,
        access_kind(desired | FILE_APPEND_DATA) == Access::Write,
        access_kind((desired | FILE_READ_DATA) & !WRITE_MASK) == Access::Read,
        access_kind(desired & !(WRITE_MASK | FILE_READ_DATA)) == Access::Metadata,
{
    assert((desired | FILE_WRITE_DATA) & WRITE_MASK != 0) by (bit_vector);
    assert((desired | FILE_APPEND_DATA) & WRITE_MASK != 0) by (bit_vector);
    assert(((desired | FILE_READ_DATA) & !WRITE_MASK) & WRITE_MASK == 0) by (bit_vector);
    assert(((desired | FILE_READ_DATA) & !WRITE_MASK) & FILE_READ_DATA != 0) by (bit_vector);
    assert((desired & !(WRITE_MASK | FILE_READ_DATA)) & WRITE_MASK == 0) by (bit_vector);
    assert((desired & !(WRITE_MASK | FILE_READ_DATA)) & FILE_READ_DATA == 0) by (bit_vector);
}

// ---- civil days -----------------------------------------------------------

/// The offset from UTC, in seconds, that civil time in America/Chicago has at an
/// instant, as the time zone database of `chrono_tz` gives it.
pub uninterp spec fn chicago_offset(unix_secs: int) -> int;

/// Calls `chrono::DateTime::from_timestamp`, moves the instant into
/// `chrono_tz::America::Chicago` and takes the offset that it has there, in seconds.
/// Claimed: that is a function of the instant, named `chicago_offset`, and every offset
/// that the database holds for the zone lies between six and five hours behind UTC.
/// Which it is on a given day is left to the database.
#[verifier::external_body]
fn chicago_offset_at(unix_secs: i64) -> (r: i32)
    requires
        -1_000_000_000_000 <= unix_secs <= 1_000_000_000_000,
    ensures
        r == chicago_offset(unix_secs as int),
        -21_600 <= r <= -18_000,
{
    let utc = chrono::DateTime::from_timestamp(unix_secs, 0).unwrap_or_default();
    let local = utc.with_timezone(&chrono_tz::America::Chicago);
    chrono::Offset::fix(local.offset()).local_minus_utc()
}

/// Whole seconds since the Unix epoch of a FILETIME, the fraction cut off.
pub open spec fn unix_seconds(filetime_100ns: int) -> int {
    let secs = if filetime_100ns >= 0 {
        filetime_100ns / 10_000_000
    } else {
        -((-filetime_100ns) / 10_000_000)
    };
    secs - FILETIME_TO_UNIX_SECS
}

/// The civil day in America/Chicago of a FILETIME, counted from 1970-01-01.
pub open spec fn civil_day(filetime_100ns: int) -> int {
    let secs = unix_seconds(filetime_100ns);
    (secs + chicago_offset(secs)) / 86_400
}

/// Convert a FILETIME (100 ns ticks since 1601-01-01 UTC) to a day index: days
/// since the Unix epoch in America/Chicago civil time.
pub fn central_civil_day(filetime_100ns: i64) -> (r: i32)
    ensures
        r == civil_day(filetime_100ns as int),
        (unix_seconds(filetime_100ns as int) - 21_600) / 86_400 <= r <= (unix_seconds(
            filetime_100ns as int,
        ) - 18_000) / 86_400,
        filetime_100ns >= 0 ==> {
            let at = filetime_100ns as int / 10_000_000 - 11_644_473_600;
            &&& 86_400 * r <= at + chicago_offset(at) < 86_400 * (r + 1)
            &&& (at - 21_600) / 86_400 <= r <= (at - 18_000) / 86_400
        },
        filetime_100ns < 0 ==> {
            let at = -((-filetime_100ns) / 10_000_000) - 11_644_473_600;
            &&& 86_400 * r <= at + chicago_offset(at) < 86_400 * (r + 1)
            &&& (at - 21_600) / 86_400 <= r <= (at - 18_000) / 86_400
        },
{
    let secs: i64 = if filetime_100ns >= 0 {
        filetime_100ns / 10_000_000
    } else if filetime_100ns == i64::MIN {
        -922_337_203_685
    } else {
        -((-filetime_100ns) / 10_000_000)
    };
    let unix: i64 = secs - FILETIME_TO_UNIX_SECS;
    let local: i64 = unix + chicago_offset_at(unix) as i64;
    let day: i64 = if local >= 0 {
        local / 86_400
    } else {
        -1 - (-1 - local) / 86_400
    };
    assert(day == local as int / 86_400);
    day as i32
}

// ---- counts ---------------------------------------------------------------

/// Per-day read/write counts for one file. Only days with activity exist.
#[derive(Debug, Clone, Copy, PartialEq, Eq, Structural)]
pub struct DayCount {
    pub reads: u32,
    pub writes: u32,
}

impl Default for DayCount {
    fn default() -> (r: Self)
        ensures
            r == (DayCount { reads: 0, writes: 0 }),
    {
        DayCount { reads: 0, writes: 0 }
    }
}

/// The opens that a day count stands for.
pub open spec fn opens_in(c: DayCount) -> nat {
    (c.reads + c.writes) as nat
}

/// The opens of a file over all its days.
pub open spec fn opens_over(days: Map<i32, DayCount>) -> nat {
    map_sum(days, |c: DayCount| opens_in(c))
}

/// A day's counts, zero where nothing happened.
pub open spec fn count_on(days: Map<i32, DayCount>, day: i32) -> DayCount {
    if days.contains_key(day) {
        days[day]
    } else {
        DayCount { reads: 0, writes: 0 }
    }
}

/// One more open of a kind.
pub open spec fn bumped(c: DayCount, kind: Access) -> DayCount {
    match kind {
        Access::Read => DayCount { reads: (c.reads + 1) as u32, writes: c.writes },
        Access::Write => DayCount { reads: c.reads, writes: (c.writes + 1) as u32 },
        Access::Metadata => c,
    }
}

/// The counter that an open of a kind bumps.
pub open spec fn counter(c: DayCount, kind: Access) -> u32 {
    match kind {
        Access::Read => c.reads,
        Access::Write => c.writes,
        Access::Metadata => 0,
    }
}

// ---- the engine -----------------------------------------------------------

/// The mathematical value of an engine.
#[verifier::ext_equal]
pub struct EngineView {
    /// Share GUID to share name.
    pub shares: Map<u128, Seq<char>>,
    /// Heat key to per-day counts.
    pub heat: Map<(Option<u128>, Seq<char>), Map<i32, DayCount>>,
    /// (Share name, path) to size record, both in lower case.
    pub inventory: Map<(Seq<char>, Seq<char>), Entry>,
    /// The walked shares, in lower case.
    pub walked: Set<Seq<char>>,
    /// Opens counted in `heat`.
    pub opens_total: nat,
    /// Opens left out because they touch no data.
    pub metadata_skipped: nat,
}

impl EngineView {
    /// A file's days; none for a file never opened.
    pub open spec fn days(self, share_guid: Option<u128>, folded: Seq<char>) -> Map<i32, DayCount> {
        if self.heat.contains_key((share_guid, folded)) {
            self.heat[(share_guid, folded)]
        } else {
            Map::empty()
        }
    }

    /// The counts of a file on a day.
    pub open spec fn count(self, share_guid: Option<u128>, folded: Seq<char>, day: i32) -> DayCount {
        count_on(self.days(share_guid, folded), day)
    }

    /// The name of a share as currently known.
    pub open spec fn name(self, share_guid: Option<u128>) -> Seq<char> {
        match share_guid {
            Some(g) => if self.shares.contains_key(g) {
                self.shares[g]
            } else {
                UNKNOWN_SHARE@
            },
            None => UNKNOWN_SHARE@,
        }
    }

    /// With a share named.
    pub open spec fn bound(self, share_guid: u128, share: Seq<char>) -> EngineView {
        EngineView { shares: self.shares.insert(share_guid, share), ..self }
    }

    /// With one more open of a kind that touches data.
    pub open spec fn opened(
        self,
        share_guid: Option<u128>,
        folded: Seq<char>,
        day: i32,
        kind: Access,
    ) -> EngineView {
        EngineView {
            heat: self.heat.insert(
                (share_guid, folded),
                self.days(share_guid, folded).insert(
                    day,
                    bumped(self.count(share_guid, folded, day), kind),
                ),
            ),
            opens_total: self.opens_total + 1,
            ..self
        }
    }

    /// With one more open that touches none.
    pub open spec fn skipped(self) -> EngineView {
        EngineView { metadata_skipped: self.metadata_skipped + 1, ..self }
    }

    /// All opens that the heat table stands for.
    pub open spec fn opens_counted(self) -> nat {
        map_sum(self.heat, |days: Map<i32, DayCount>| opens_over(days))
    }

    /// The engine's invariant: the tables are finite, only days with activity are
    /// kept, and the counts add up to the opens seen.
    pub open spec fn inv(self) -> bool {
        &&& self.shares.dom().finite()
        &&& self.heat.dom().finite()
        &&& self.inventory.dom().finite()
        &&& self.walked.finite()
        &&& forall|k: (Option<u128>, Seq<char>)| #[trigger]
            self.heat.contains_key(k) ==> {
                &&& self.heat[k].dom().finite()
                &&& self.heat[k].dom().len() > 0
            }
        &&& forall|k: (Option<u128>, Seq<char>), d: i32|
            self.heat.contains_key(k) && #[trigger] self.heat[k].contains_key(d) ==> opens_in(
                self.heat[k][d],
            ) > 0
        &&& self.opens_counted() == self.opens_total
    }
}

/// An open that touches data keeps the engine's invariant: in particular the counts
/// still add up to the opens seen.
pub proof fn law_opened_keeps_invariant(
    v: EngineView,
    share_guid: Option<u128>,
    folded: Seq<char>,
    day: i32,
    kind: Access,
)
    requires
        v.inv(),
        kind != Access::Metadata,
        counter(v.count(share_guid, folded, day), kind) < u32::MAX,
    ensures
        v.opened(share_guid, folded, day, kind).inv(),
{
    let k = (share_guid, folded);
    let before = v.days(share_guid, folded);
    let c = count_on(before, day);
    let after = before.insert(day, bumped(c, kind));
    let f = |c: DayCount| opens_in(c);
    let g = |days: Map<i32, DayCount>| opens_over(days);
    let w = v.opened(share_guid, folded, day, kind);
    lemma_map_sum_empty::<i32, DayCount>(f);
    lemma_map_sum_insert(before, f, day, bumped(c, kind));
    assert(opens_over(after) == opens_over(before) + 1);
    lemma_map_sum_insert(v.heat, g, k, after);
    assert(w.opens_counted() == v.opens_counted() + 1);
    assert forall|q: (Option<u128>, Seq<char>)| #[trigger] w.heat.contains_key(q) implies {
        &&& w.heat[q].dom().finite()
        &&& w.heat[q].dom().len() > 0
    } by {
        if q != k {
            assert(v.heat.contains_key(q));
        }
    }
    assert forall|q: (Option<u128>, Seq<char>), d: i32|
        w.heat.contains_key(q) && #[trigger] w.heat[q].contains_key(d) implies opens_in(
        w.heat[q][d],
    ) > 0 by {
        if q != k {
            assert(v.heat.contains_key(q));
            assert(v.heat[q].contains_key(d));
        } else if d != day {
            assert(v.heat.contains_key(k));
            assert(v.heat[k].contains_key(d));
        }
    }
}

/// A read/write open as reported live. The share's name is the one known at the
/// time; the authoritative names come with the summary.
#[derive(Debug, Clone)]
pub struct ResolvedAccess {
    pub share_guid: Option<GuidKey>,
    pub share: String,
    pub path: String,
    pub tree: GuidKey,
    pub open: GuidKey,
    pub access: u32,
    pub kind: Access,
    pub day: i32,
}

/// The mathematical value of a resolved access.
pub struct AccessView {
    pub share_guid: Option<u128>,
    pub share: Seq<char>,
    pub path: Seq<char>,
    pub tree: u128,
    pub open: u128,
    pub access: u32,
    pub kind: Access,
    pub day: i32,
}

impl View for ResolvedAccess {
    type V = AccessView;

    open spec fn view(&self) -> AccessView {
        AccessView {
            share_guid: self.share_guid,
            share: self.share@,
            path: self.path@,
            tree: self.tree,
            open: self.open,
            access: self.access,
            kind: self.kind,
            day: self.day,
        }
    }
}

/// A counter stands at its limit, so an event was not applied.
#[derive(Debug, Clone, Copy, PartialEq, Eq, Structural)]
pub struct CounterFull;

impl EngineView {
    /// The engine after an event with a FILETIME.
    pub open spec fn applied(self, ev: SmbEvent, filetime: int) -> EngineView {
        match ev {
            SmbEvent::TreeConnect { share_guid, share } => self.bound(share_guid, share@),
            SmbEvent::Open { share_guid, path, access, .. } => if access_kind(access)
                == Access::Metadata {
                self.skipped()
            } else {
                self.opened(
                    share_guid,
                    lowercase(path@),
                    civil_day(filetime) as i32,
                    access_kind(access),
                )
            },
        }
    }

    /// What is reported for an event: an open that touches data.
    pub open spec fn reported(self, ev: SmbEvent, filetime: int) -> Option<AccessView> {
        match ev {
            SmbEvent::TreeConnect { .. } => None,
            SmbEvent::Open { open, tree, share_guid, path, access } => if access_kind(access)
                == Access::Metadata {
                None
            } else {
                Some(
                    AccessView {
                        share_guid,
                        share: self.name(share_guid),
                        path: path@,
                        tree,
                        open,
                        access,
                        kind: access_kind(access),
                        day: civil_day(filetime) as i32,
                    },
                )
            },
        }
    }

    /// The counters that an event bumps are below their limits.
    pub open spec fn has_room(self, ev: SmbEvent, filetime: int) -> bool {
        match ev {
            SmbEvent::TreeConnect { .. } => true,
            SmbEvent::Open { share_guid, path, access, .. } => if access_kind(access)
                == Access::Metadata {
                self.metadata_skipped < u64::MAX
            } else {
                &&& self.opens_total < u64::MAX
                &&& counter(
                    self.count(share_guid, lowercase(path@), civil_day(filetime) as i32),
                    access_kind(access),
                ) < u32::MAX
            },
        }
    }
}

/// The value of an optional report.
pub open spec fn opt_access(r: Option<ResolvedAccess>) -> Option<AccessView> {
    match r {
        Some(a) => Some(a@),
        None => None,
    }
}

impl ResolvedAccess {
    /// The line reported for the access.
    pub fn to_text(&self) -> (r: String)
        ensures
            r@ == access_text(self@),
    {
        let mut s = self.share.clone();
        s.append("\\");
        s.append(self.path.as_str());
        s.append("  share_guid=");
        s.append(fmt_share_guid(self.share_guid).as_str());
        s.append(" open=");
        s.append(fmt_guid_key(self.open).as_str());
        s.append(" tree=");
        s.append(fmt_guid_key(self.tree).as_str());
        s.append(" access=0x");
        push_hex(&mut s, self.access as u64, 8, true);
        s.append(" ");
        s.append(kind_name(self.kind));
        s.append(" day=");
        s.append(fmt_dec_int(self.day as i64).as_str());
        s
    }
}

/// The text of a share's GUID.
pub open spec fn share_guid_text(g: Option<u128>) -> Seq<char> {
    match g {
        Some(k) => guid_text(k as nat, true),
        None => "<none>"@,
    }
}

fn fmt_share_guid(g: Option<GuidKey>) -> (r: String)
    ensures
        r@ == share_guid_text(g),
{
    match g {
        Some(k) => fmt_guid_key(k),
        None => "<none>".to_owned(),
    }
}

/// The name of an access kind.
pub open spec fn kind_text(kind: Access) -> Seq<char> {
    match kind {
        Access::Read => "Read"@,
        Access::Write => "Write"@,
        Access::Metadata => "Metadata"@,
    }
}

fn kind_name(kind: Access) -> (r: &'static str)
    ensures
        r@ == kind_text(kind),
{
    match kind {
        Access::Read => "Read",
        Access::Write => "Write",
        Access::Metadata => "Metadata",
    }
}

/// The line reported for an access.
pub open spec fn access_text(a: AccessView) -> Seq<char> {
    a.share + "\\"@ + a.path + "  share_guid="@ + share_guid_text(a.share_guid) + " open="@
        + guid_text(a.open as nat, true) + " tree="@ + guid_text(a.tree as nat, true)
        + " access=0x"@ + hex(a.access as nat, 8, true) + " "@ + kind_text(a.kind) + " day="@
        + dec_int(a.day as int)
}

// ---- the summary ----------------------------------------------------------

/// One aggregated, name-resolved row of the heat table.
#[derive(Debug, Clone)]
pub struct HeatRow {
    pub share_guid: Option<GuidKey>,
    pub share: String,
    pub path: String,
    pub reads: u64,
    pub writes: u64,
    /// Days with any activity.
    pub active_days: u64,
}

/// The mathematical value of a row.
pub struct RowView {
    pub share_guid: Option<u128>,
    pub share: Seq<char>,
    pub path: Seq<char>,
    pub reads: nat,
    pub writes: nat,
    pub active_days: nat,
}

impl View for HeatRow {
    type V = RowView;

    open spec fn view(&self) -> RowView {
        RowView {
            share_guid: self.share_guid,
            share: self.share@,
            path: self.path@,
            reads: self.reads as nat,
            writes: self.writes as nat,
            active_days: self.active_days as nat,
        }
    }
}

/// The values of rows.
pub open spec fn row_views(rows: Seq<HeatRow>) -> Seq<RowView> {
    rows.map_values(|r: HeatRow| r@)
}

/// The line of a row where there is no inventory.
pub open spec fn row_text(r: RowView) -> Seq<char> {
    "reads="@ + pad_left(dec(r.reads), ' ', 7) + " writes="@ + pad_left(dec(r.writes), ' ', 7)
        + " active_days="@ + pad_left(dec(r.active_days), ' ', 4) + "  "@ + r.share + "\\"@ + r.path
        + "  [share_guid="@ + share_guid_text(r.share_guid) + "]"@
}

impl HeatRow {
    /// The line of the row where there is no inventory.
    pub fn to_text(&self) -> (r: String)
        ensures
            r@ == row_text(self@),
    {
        let mut s = "reads=".to_owned();
        s.append(fmt_dec_wide(self.reads, 7).as_str());
        s.append(" writes=");
        s.append(fmt_dec_wide(self.writes, 7).as_str());
        s.append(" active_days=");
        s.append(fmt_dec_wide(self.active_days, 4).as_str());
        s.append("  ");
        s.append(self.share.as_str());
        s.append("\\");
        s.append(self.path.as_str());
        s.append("  [share_guid=");
        s.append(fmt_share_guid(self.share_guid).as_str());
        s.append("]");
        s
    }
}

/// The reads, writes and active days of a file.
pub open spec fn reads_over(days: Map<i32, DayCount>) -> nat {
    map_sum(days, |c: DayCount| c.reads as nat)
}

pub open spec fn writes_over(days: Map<i32, DayCount>) -> nat {
    map_sum(days, |c: DayCount| c.writes as nat)
}

pub open spec fn active_days_of(days: Map<i32, DayCount>) -> nat {
    map_sum(
        days,
        |c: DayCount|
            if c.reads > 0 || c.writes > 0 {
                1nat
            } else {
                0nat
            },
    )
}

/// What a row is ranked by: its opens, its share's name, its path.
pub open spec fn rank_of(r: RowView) -> Rank {
    Rank { weight: r.reads + r.writes, first: r.share, second: r.path }
}

/// The order of rows: the hottest first, rows of equal heat by share name, then by
/// path, and rows that agree in all three by the share's GUID, none before any.
pub open spec fn stands_above(a: RowView, b: RowView) -> bool {
    &&& ranks_before(rank_of(a), rank_of(b))
    &&& rank_of(a) == rank_of(b) ==> id_le(a.share_guid, b.share_guid) && a.share_guid
        != b.share_guid
}

proof fn lemma_stands_above(a: RowView, b: RowView)
    ensures
        !(stands_above(a, b) && stands_above(b, a)),
{
    lemma_ranks_before_total(rank_of(a), rank_of(b));
}

impl EngineView {
    /// The row of a heat key.
    pub open spec fn row(self, k: (Option<u128>, Seq<char>)) -> RowView {
        RowView {
            share_guid: k.0,
            share: self.name(k.0),
            path: k.1,
            reads: reads_over(self.heat[k]),
            writes: writes_over(self.heat[k]),
            active_days: active_days_of(self.heat[k]),
        }
    }

    /// `rows` holds the row of every heat key once, in the order of rows.
    pub open spec fn is_summary(self, rows: Seq<RowView>) -> bool {
        &&& rows.len() == self.heat.dom().len()
        &&& forall|i: int|
            #![trigger rows[i]]
            0 <= i < rows.len() ==> {
                &&& self.heat.contains_key((rows[i].share_guid, rows[i].path))
                &&& rows[i] == self.row((rows[i].share_guid, rows[i].path))
            }
        &&& forall|i: int, j: int|
            #![trigger rows[i], rows[j]]
            0 <= i < j < rows.len() ==> {
                &&& (rows[i].share_guid, rows[i].path) != (rows[j].share_guid, rows[j].path)
                &&& stands_above(rows[i], rows[j])
            }
    }
}

// ---- the join with the inventory ------------------------------------------

/// What becomes of one heat key at emission.
#[derive(Debug, Clone, PartialEq, Eq, Structural)]
pub enum KeyOutcome {
    /// A file in the inventory: kept, with its allocated bytes.
    Leaf { alloc_bytes: u64 },
    /// A walked share without an entry for the path: kept, bytes unknown.
    Restat,
    /// A share that no binding names: kept, bytes unknown.
    UnresolvedShare,
    /// An open of the share's root: dropped.
    DropRoot,
    /// The inventory says the path is a directory: dropped.
    DropDir,
    /// A share that was not walked: dropped.
    DropNonWalkedShare,
}

/// What becomes of a key, the share given with its name and that name in lower
/// case: the root first, then an unresolved share, then a share that was not
/// walked, then what the inventory says.
pub open spec fn key_outcome(
    share: Seq<char>,
    share_lower: Seq<char>,
    path: Seq<char>,
    inventory: Map<(Seq<char>, Seq<char>), Entry>,
    walked: Set<Seq<char>>,
) -> KeyOutcome {
    if path.len() == 0 {
        KeyOutcome::DropRoot
    } else if share == UNKNOWN_SHARE@ {
        KeyOutcome::UnresolvedShare
    } else if !walked.contains(share_lower) {
        KeyOutcome::DropNonWalkedShare
    } else if !inventory.contains_key((share_lower, path)) {
        KeyOutcome::Restat
    } else if inventory[(share_lower, path)].is_dir {
        KeyOutcome::DropDir
    } else {
        KeyOutcome::Leaf { alloc_bytes: inventory[(share_lower, path)].alloc }
    }
}

/// Classify a key whose share name is also given in lower case.
pub fn classify_folded(
    share: &str,
    share_lower: String,
    norm_path: &str,
    inventory: &Inventory,
    walked_shares: &ShareSet,
) -> (r: KeyOutcome)
    requires
        inventory.wf(),
        walked_shares.wf(),
    ensures
        r == key_outcome(share@, share_lower@, norm_path@, inventory@, walked_shares@.dom()),
{
    if same_text(norm_path, "") {
        proof {
            reveal_strlit("");
        }
        return KeyOutcome::DropRoot;
    }
    proof {
        reveal_strlit("");
        if norm_path@.len() == 0 {
            assert(norm_path@ =~= ""@);
        }
    }
    if same_text(share, UNKNOWN_SHARE) {
        return KeyOutcome::UnresolvedShare;
    }
    if !walked_shares.contains(&share_lower) {
        return KeyOutcome::DropNonWalkedShare;
    }
    match inventory.get(&(share_lower, norm_path.to_owned())) {
        Some(e) => if e.is_dir {
            KeyOutcome::DropDir
        } else {
            KeyOutcome::Leaf { alloc_bytes: e.alloc }
        },
        None => KeyOutcome::Restat,
    }
}

/// Classify a resolved heat key against the inventory. The share's name is matched
/// in lower case, as the inventory and the walked shares have it.
pub fn classify_key(
    share: &str,
    norm_path: &str,
    inventory: &Inventory,
    walked_shares: &ShareSet,
) -> (r: KeyOutcome)
    requires
        inventory.wf(),
        walked_shares.wf(),
    ensures
        r == key_outcome(
            share@,
            lowercase(share@),
            norm_path@,
            inventory@,
            walked_shares@.dom(),
        ),
{
    classify_folded(share, fold_case(share), norm_path, inventory, walked_shares)
}

/// The allocated bytes of a row, `?` where they are unknown.
pub open spec fn alloc_text(alloc: Option<u64>) -> Seq<char> {
    match alloc {
        Some(b) => pad_left(dec(b as nat), ' ', 9),
        None => pad_left("?"@, ' ', 9),
    }
}

/// The flags of a row, each in brackets and followed by a blank.
pub open spec fn flags_text(flags: Seq<&str>) -> Seq<char>
    decreases flags.len(),
{
    if flags.len() == 0 {
        Seq::empty()
    } else {
        flags_text(flags.drop_last()) + "["@ + flags.last()@ + "] "@
    }
}

/// The line of a kept row.
pub open spec fn join_row_text(r: RowView, alloc: Option<u64>, flags: Seq<&str>) -> Seq<char> {
    "reads="@ + pad_left(dec(r.reads), ' ', 4) + " writes="@ + pad_left(dec(r.writes), ' ', 4)
        + " active_days="@ + pad_left(dec(r.active_days), ' ', 3) + " alloc_bytes="@ + alloc_text(
        alloc,
    ) + "  "@ + r.share + "\\"@ + r.path + "  "@ + flags_text(flags) + "[share_guid="@
        + share_guid_text(r.share_guid) + "]\n"@
}

/// Format one kept row.
fn fmt_join_row(r: &HeatRow, alloc: Option<u64>, flags: &[&str]) -> (s: String)
    ensures
        s@ == join_row_text(r@, alloc, flags@),
{
    let mut shown = String::new();
    let mut i: usize = 0;
    while i < flags.len()
        invariant
            i <= flags@.len(),
            shown@ == flags_text(flags@.take(i as int)),
        decreases flags@.len() - i,
    {
        shown.append("[");
        shown.append(flags[i]);
        shown.append("] ");
        assert(flags@.take(i + 1).drop_last() =~= flags@.take(i as int));
        i = i + 1;
    }
    assert(flags@.take(flags@.len() as int) =~= flags@);
    let mut s = "reads=".to_owned();
    s.append(fmt_dec_wide(r.reads, 4).as_str());
    s.append(" writes=");
    s.append(fmt_dec_wide(r.writes, 4).as_str());
    s.append(" active_days=");
    s.append(fmt_dec_wide(r.active_days, 3).as_str());
    s.append(" alloc_bytes=");
    let bytes = match alloc {
        Some(b) => fmt_dec_wide(b, 9),
        None => fmt_pad_left("?", ' ', 9),
    };
    s.append(bytes.as_str());
    s.append("  ");
    s.append(r.share.as_str());
    s.append("\\");
    s.append(r.path.as_str());
    s.append("  ");
    s.append(shown.as_str());
    s.append("[share_guid=");
    s.append(fmt_share_guid(r.share_guid).as_str());
    s.append("]\n");
    s
}

/// The flag of a row whose file is not in the inventory.
pub const FLAG_RESTAT: &'static str = "restat";

/// The flag of a row whose share no binding names.
pub const FLAG_UNRESOLVED: &'static str = "unresolved-share";

impl EngineView {
    /// What becomes of a row.
    pub open spec fn outcome(self, r: RowView) -> KeyOutcome {
        key_outcome(r.share, lowercase(r.share), r.path, self.inventory, self.walked)
    }

    /// How many of the rows have an outcome that `p` holds of.
    pub open spec fn outcomes(self, rows: Seq<RowView>, p: spec_fn(KeyOutcome) -> bool) -> nat
        decreases rows.len(),
    {
        if rows.len() == 0 {
            0
        } else {
            self.outcomes(rows.drop_last(), p) + if p(self.outcome(rows.last())) {
                1nat
            } else {
                0nat
            }
        }
    }

    /// The lines of the rows where there is no inventory.
    pub open spec fn plain_body(self, rows: Seq<RowView>) -> Seq<char>
        decreases rows.len(),
    {
        if rows.len() == 0 {
            Seq::empty()
        } else {
            self.plain_body(rows.drop_last()) + row_text(rows.last()) + "\n"@
        }
    }

    /// The line of a row after the join; none for a dropped one.
    pub open spec fn joined_line(self, r: RowView) -> Seq<char> {
        match self.outcome(r) {
            KeyOutcome::Leaf { alloc_bytes } => join_row_text(r, Some(alloc_bytes), seq![]),
            KeyOutcome::Restat => join_row_text(r, None, seq![FLAG_RESTAT]),
            KeyOutcome::UnresolvedShare => join_row_text(r, None, seq![FLAG_UNRESOLVED]),
            _ => Seq::empty(),
        }
    }

    /// The lines of the rows after the join.
    pub open spec fn joined_body(self, rows: Seq<RowView>) -> Seq<char>
        decreases rows.len(),
    {
        if rows.len() == 0 {
            Seq::empty()
        } else {
            self.joined_body(rows.drop_last()) + self.joined_line(rows.last())
        }
    }

    /// The rendered table of a summary. Without a walked share the rows stand as
    /// they are; with one each is joined with the inventory, and the header counts
    /// what was kept and what was dropped.
    pub open spec fn table_text(self, rows: Seq<RowView>) -> Seq<char> {
        let leaves = self.outcomes(rows, |o: KeyOutcome| o is Leaf);
        let restat = self.outcomes(rows, |o: KeyOutcome| o is Restat);
        let unresolved = self.outcomes(rows, |o: KeyOutcome| o is UnresolvedShare);
        let dirs = self.outcomes(rows, |o: KeyOutcome| o is DropDir);
        let roots = self.outcomes(rows, |o: KeyOutcome| o is DropRoot);
        let non_walked = self.outcomes(rows, |o: KeyOutcome| o is DropNonWalkedShare);
        if self.walked.len() == 0 {
            "=== resolved heat: "@ + dec(rows.len()) + " keys, "@ + dec(self.opens_total)
                + " r/w opens ===\n"@ + self.plain_body(rows) + "metadata-skipped: "@ + dec(
                self.metadata_skipped,
            ) + "\n"@
        } else {
            "=== resolved heat: "@ + dec(leaves + restat + unresolved) + " rows ("@ + dec(leaves)
                + " leaves, "@ + dec(restat) + " restat, "@ + dec(unresolved)
                + " unresolved-share), "@ + dec(self.opens_total) + " r/w opens ===\n"@
                + "dropped: "@ + dec(dirs) + " dir, "@ + dec(roots) + " share-root, "@ + dec(
                non_walked,
            ) + " non-walked-share\n"@ + self.joined_body(rows) + "metadata-skipped: "@ + dec(
                self.metadata_skipped,
            ) + "\n"@
        }
    }
}

/// The header reconciles: the kept rows (leaves, restat, unresolved) and the dropped
/// ones (directories, roots, shares not walked) together are all rows.
pub proof fn law_outcomes_reconcile(v: EngineView, rows: Seq<RowView>)
    ensures
        v.outcomes(rows, |o: KeyOutcome| o is Leaf) + v.outcomes(
            rows,
            |o: KeyOutcome| o is Restat,
        ) + v.outcomes(rows, |o: KeyOutcome| o is UnresolvedShare) + v.outcomes(
            rows,
            |o: KeyOutcome| o is DropDir,
        ) + v.outcomes(rows, |o: KeyOutcome| o is DropRoot) + v.outcomes(
            rows,
            |o: KeyOutcome| o is DropNonWalkedShare,
        ) == rows.len(),
    decreases rows.len(),
{
    if rows.len() > 0 {
        law_outcomes_reconcile(v, rows.drop_last());
    }
}

/// Every heat key has its row in a summary.
pub proof fn law_summary_is_complete(v: EngineView, rows: Seq<RowView>, k: (Option<u128>, Seq<char>))
    requires
        v.inv(),
        v.is_summary(rows),
        v.heat.contains_key(k),
    ensures
        exists|i: int|
            #![trigger rows[i]]
            0 <= i < rows.len() && (rows[i].share_guid, rows[i].path) == k && rows[i] == v.row(k),
{
    let keys = Seq::new(rows.len(), |i: int| (rows[i].share_guid, rows[i].path));
    assert(keys.no_duplicates()) by {
        assert forall|i: int, j: int|
            0 <= i < keys.len() && 0 <= j < keys.len() && i != j implies keys[i] != keys[j] by {
            if i < j {
                assert(rows[i].path == rows[i].path && rows[j].path == rows[j].path);
            } else {
                assert(rows[j].path == rows[j].path && rows[i].path == rows[i].path);
            }
        }
    }
    keys.unique_seq_to_set();
    assert(keys.to_set().subset_of(v.heat.dom())) by {
        assert forall|q: (Option<u128>, Seq<char>)| #[trigger]
            keys.to_set().contains(q) implies v.heat.dom().contains(q) by {
            let i = choose|i: int| 0 <= i < keys.len() && keys[i] == q;
            assert(v.heat.contains_key((rows[i].share_guid, rows[i].path)));
        }
    }
    vstd::set_lib::lemma_subset_equality(keys.to_set(), v.heat.dom());
    assert(keys.to_set().contains(k));
    let i = choose|i: int| 0 <= i < keys.len() && keys[i] == k;
    assert(rows[i] == v.row(k));
}

/// Summaries are deterministic: what an engine holds has one summary, row for row.
pub proof fn law_summary_is_unique(v: EngineView, a: Seq<RowView>, b: Seq<RowView>)
    requires
        v.inv(),
        v.is_summary(a),
        v.is_summary(b),
    ensures
        a == b,
{
    let before = |x: RowView, y: RowView| stands_above(x, y);
    assert forall|x: RowView, y: RowView| before(x, y) implies !#[trigger] before(y, x) by {
        lemma_stands_above(x, y);
    }
    assert forall|i: int| 0 <= i < a.len() implies b.contains(#[trigger] a[i]) by {
        law_summary_is_complete(v, b, (a[i].share_guid, a[i].path));
    }
    assert forall|i: int| 0 <= i < b.len() implies a.contains(#[trigger] b[i]) by {
        law_summary_is_complete(v, a, (b[i].share_guid, b[i].path));
    }
    lemma_same_order(a, b, before);
}

/// The rows of a summary add up to the opens seen: no counted open is lost.
pub proof fn law_summary_adds_up(v: EngineView, rows: Seq<RowView>)
    requires
        v.inv(),
        v.is_summary(rows),
    ensures
        row_opens(rows) == v.opens_total,
{
    lemma_rows_add_up(v, v.heat, rows);
}

/// The opens of all rows.
pub open spec fn row_opens(rows: Seq<RowView>) -> nat
    decreases rows.len(),
{
    if rows.len() == 0 {
        0
    } else {
        row_opens(rows.drop_last()) + rows.last().reads + rows.last().writes
    }
}

proof fn lemma_rows_add_up(
    v: EngineView,
    heat: Map<(Option<u128>, Seq<char>), Map<i32, DayCount>>,
    rows: Seq<RowView>,
)
    requires
        heat.dom().finite(),
        rows.len() == heat.dom().len(),
        forall|i: int|
            #![trigger rows[i]]
            0 <= i < rows.len() ==> {
                let k = (rows[i].share_guid, rows[i].path);
                &&& heat.contains_key(k)
                &&& rows[i].reads == reads_over(heat[k])
                &&& rows[i].writes == writes_over(heat[k])
            },
        forall|i: int, j: int|
            #![trigger rows[i], rows[j]]
            0 <= i < j < rows.len() ==> (rows[i].share_guid, rows[i].path) != (
                rows[j].share_guid,
                rows[j].path,
            ),
    ensures
        row_opens(rows) == map_sum(heat, |days: Map<i32, DayCount>| opens_over(days)),
    decreases rows.len(),
{
    let f = |days: Map<i32, DayCount>| opens_over(days);
    if rows.len() > 0 {
        let last = rows.last();
        let k = (last.share_guid, last.path);
        let n = rows.len() - 1;
        assert(rows[n] == last);
        lemma_map_sum_remove(heat, f, k);
        lemma_days(heat[k]);
        let init = rows.drop_last();
        let rest = heat.remove(k);
        assert forall|i: int| #![trigger init[i]] 0 <= i < init.len() implies {
            let q = (init[i].share_guid, init[i].path);
            &&& rest.contains_key(q)
            &&& init[i].reads == reads_over(rest[q])
            &&& init[i].writes == writes_over(rest[q])
        } by {
            assert(init[i] == rows[i]);
            assert((rows[i].share_guid, rows[i].path) != (rows[n].share_guid, rows[n].path));
        }
        lemma_rows_add_up(v, rest, init);
    }
}

/// It does not matter whether a share is named before or after an open: the engine
/// is the same, so a late binding names the opens that came before it.
pub proof fn law_binding_commutes_with_opens(
    v: EngineView,
    share_guid: u128,
    share: Seq<char>,
    opened_guid: Option<u128>,
    folded: Seq<char>,
    day: i32,
    kind: Access,
)
    ensures
        v.opened(opened_guid, folded, day, kind).bound(share_guid, share) == v.bound(
            share_guid,
            share,
        ).opened(opened_guid, folded, day, kind),
{
}

/// Once a share is named, every summary shows that name on all of its files,
/// whenever they were opened.
pub proof fn law_binding_names_every_row(
    v: EngineView,
    share_guid: u128,
    share: Seq<char>,
    rows: Seq<RowView>,
    i: int,
)
    requires
        v.bound(share_guid, share).is_summary(rows),
        0 <= i < rows.len(),
        rows[i].share_guid == Some(share_guid),
    ensures
        rows[i].share == share,
{
}

/// A file whose share no binding names is shown as `UNKNOWN` and kept, unless it is
/// the share's root.
pub proof fn law_unbound_share_is_kept(v: EngineView, rows: Seq<RowView>, i: int)
    requires
        v.is_summary(rows),
        0 <= i < rows.len(),
        match rows[i].share_guid {
            Some(g) => !v.shares.contains_key(g),
            None => true,
        },
    ensures
        rows[i].share == UNKNOWN_SHARE@,
        rows[i].path.len() > 0 ==> v.outcome(rows[i]) is UnresolvedShare && v.kept(rows[i]),
{
}

/// Opens are not deduplicated: an open adds one to its counter on its day and
/// leaves every other count as it was.
pub proof fn law_open_adds_one(
    v: EngineView,
    share_guid: Option<u128>,
    folded: Seq<char>,
    day: i32,
    kind: Access,
    other_guid: Option<u128>,
    other: Seq<char>,
    other_day: i32,
)
    requires
        kind != Access::Metadata,
        counter(v.count(share_guid, folded, day), kind) < u32::MAX,
    ensures
        ({
            let w = v.opened(share_guid, folded, day, kind);
            if (other_guid, other, other_day) == (share_guid, folded, day) {
                &&& counter(w.count(other_guid, other, other_day), kind) == counter(
                    v.count(other_guid, other, other_day),
                    kind,
                ) + 1
                &&& opens_in(w.count(other_guid, other, other_day)) == opens_in(
                    v.count(other_guid, other, other_day),
                ) + 1
            } else {
                w.count(other_guid, other, other_day) == v.count(other_guid, other, other_day)
            }
        }),
{
}

/// Only days with activity are kept, so a row's active days are all days that its
/// file has.
pub proof fn law_active_days_are_all_days(v: EngineView, k: (Option<u128>, Seq<char>))
    requires
        v.inv(),
        v.heat.contains_key(k),
    ensures
        v.row(k).active_days == v.heat[k].dom().len(),
{
    assert forall|d: i32| #[trigger] v.heat[k].contains_key(d) implies v.heat[k][d].reads > 0
        || v.heat[k][d].writes > 0 by {
        assert(opens_in(v.heat[k][d]) > 0);
    }
    lemma_all_active(v.heat[k]);
}

proof fn lemma_all_active(days: Map<i32, DayCount>)
    requires
        days.dom().finite(),
        forall|d: i32| #[trigger]
            days.contains_key(d) ==> days[d].reads > 0 || days[d].writes > 0,
    ensures
        active_days_of(days) == days.dom().len(),
    decreases days.dom().len(),
{
    let f = |c: DayCount|
        if c.reads > 0 || c.writes > 0 {
            1nat
        } else {
            0nat
        };
    if days.dom().len() > 0 {
        let d = days.dom().choose();
        assert(days.contains_key(d));
        lemma_map_sum_remove(days, f, d);
        lemma_all_active(days.remove(d));
    }
}

// ---- emission -------------------------------------------------------------

/// One kept (share, path, day), cumulative since the start of the run.
#[derive(Debug, Clone)]
pub struct EmitRow {
    /// The share's name in lower case.
    pub share: String,
    pub path: String,
    pub day: i32,
    pub reads: u32,
    pub writes: u32,
    /// Unknown for a flagged row.
    pub alloc_bytes: Option<u64>,
    pub flags: Vec<&'static str>,
}

/// The mathematical value of an emitted row.
pub struct EmitView {
    pub share: Seq<char>,
    pub path: Seq<char>,
    pub day: i32,
    pub reads: u32,
    pub writes: u32,
    pub alloc_bytes: Option<u64>,
    pub flags: Seq<Seq<char>>,
}

impl View for EmitRow {
    type V = EmitView;

    open spec fn view(&self) -> EmitView {
        EmitView {
            share: self.share@,
            path: self.path@,
            day: self.day,
            reads: self.reads,
            writes: self.writes,
            alloc_bytes: self.alloc_bytes,
            flags: self.flags@.map_values(|f: &'static str| f@),
        }
    }
}

/// The flag that an emitted row carries where its share is unresolved.
pub const EMIT_UNRESOLVED: &'static str = "unresolved_share";

/// A heat key and one of its days.
pub struct KeyDay {
    pub share_guid: Option<u128>,
    pub path: Seq<char>,
    pub day: i32,
}

impl EngineView {
    /// A row that is kept at emission.
    pub open spec fn kept(self, r: RowView) -> bool {
        let o = self.outcome(r);
        o is Leaf || o is Restat || o is UnresolvedShare
    }

    /// A kept key and a day on which it has activity.
    pub open spec fn is_emitted(self, e: KeyDay) -> bool {
        let k = (e.share_guid, e.path);
        &&& self.heat.contains_key(k)
        &&& self.heat[k].contains_key(e.day)
        &&& self.kept(self.row(k))
    }

    /// The row emitted for a key and a day.
    pub open spec fn emit_row(self, e: KeyDay) -> EmitView {
        let k = (e.share_guid, e.path);
        let c = self.heat[k][e.day];
        let share = self.name(e.share_guid);
        EmitView {
            share: lowercase(share),
            path: e.path,
            day: e.day,
            reads: c.reads,
            writes: c.writes,
            alloc_bytes: match self.outcome(self.row(k)) {
                KeyOutcome::Leaf { alloc_bytes } => Some(alloc_bytes),
                _ => None,
            },
            flags: match self.outcome(self.row(k)) {
                KeyOutcome::Restat => seq![FLAG_RESTAT@],
                KeyOutcome::UnresolvedShare => seq![EMIT_UNRESOLVED@],
                _ => seq![],
            },
        }
    }

    /// `keys` lists every emitted key and day once: the keys as in a summary, the
    /// days of one key ascending.
    pub open spec fn is_emission(self, keys: Seq<KeyDay>) -> bool {
        &&& forall|i: int| 0 <= i < keys.len() ==> self.is_emitted(#[trigger] keys[i])
        &&& forall|e: KeyDay| #[trigger] self.is_emitted(e) ==> keys.contains(e)
        &&& forall|i: int, j: int|
            #![trigger keys[i], keys[j]]
            0 <= i < j < keys.len() ==> self.emits_before(keys[i], keys[j])
    }

    /// The order of emission: the keys as their rows in a summary, then by day.
    pub open spec fn emits_before(self, x: KeyDay, y: KeyDay) -> bool {
        let (a, b) = ((x.share_guid, x.path), (y.share_guid, y.path));
        if a == b {
            x.day < y.day
        } else {
            stands_above(self.row(a), self.row(b))
        }
    }

    /// A key whose share is named.
    pub open spec fn is_named(self, k: (Option<u128>, Seq<char>)) -> bool {
        match k.0 {
            Some(g) => self.shares.contains_key(g),
            None => false,
        }
    }

    /// The account of the engine.
    pub open spec fn stats_text(self) -> Seq<char> {
        let keys = self.heat.dom();
        let named = keys.filter(|k: (Option<u128>, Seq<char>)| self.is_named(k)).len();
        "r/w opens: "@ + dec(self.opens_total) + " | metadata-skipped: "@ + dec(
            self.metadata_skipped,
        ) + " | keys: "@ + dec(keys.len()) + " ("@ + dec(named) + " named, "@ + dec(
            (keys.len() - named) as nat,
        ) + " UNKNOWN) | shares bound: "@ + dec(self.shares.dom().len())
    }
}

/// Emissions are deterministic: what an engine holds has one emission, key for key
/// and day for day.
pub proof fn law_emission_is_unique(v: EngineView, a: Seq<KeyDay>, b: Seq<KeyDay>)
    requires
        v.is_emission(a),
        v.is_emission(b),
    ensures
        a == b,
{
    let before = |x: KeyDay, y: KeyDay| v.emits_before(x, y);
    assert forall|x: KeyDay, y: KeyDay| before(x, y) implies !#[trigger] before(y, x) by {
        lemma_stands_above(v.row((x.share_guid, x.path)), v.row((y.share_guid, y.path)));
    }
    assert forall|i: int| 0 <= i < a.len() implies b.contains(#[trigger] a[i]) by {
        assert(v.is_emitted(a[i]));
    }
    assert forall|i: int| 0 <= i < b.len() implies a.contains(#[trigger] b[i]) by {
        assert(v.is_emitted(b[i]));
    }
    lemma_same_order(a, b, before);
}

/// Emissions are cumulative: after one more open, every row that was emitted before is
/// still emitted, with the same file, flags and bytes, and with counts that are no
/// lower.
pub proof fn law_emissions_are_cumulative(
    v: EngineView,
    share_guid: Option<u128>,
    folded: Seq<char>,
    day: i32,
    kind: Access,
    e: KeyDay,
)
    requires
        kind != Access::Metadata,
        counter(v.count(share_guid, folded, day), kind) < u32::MAX,
        v.is_emitted(e),
    ensures
        ({
            let w = v.opened(share_guid, folded, day, kind);
            let (before, after) = (v.emit_row(e), w.emit_row(e));
            &&& w.is_emitted(e)
            &&& after.share == before.share && after.path == before.path && after.day == before.day
            &&& after.alloc_bytes == before.alloc_bytes && after.flags == before.flags
            &&& after.reads >= before.reads && after.writes >= before.writes
        }),
{
}

/// Going through a summary row by row keeps the order of emission.
proof fn lemma_emission_step(
    v: EngineView,
    views: Seq<RowView>,
    before: Seq<KeyDay>,
    added: Seq<KeyDay>,
    i: int,
)
    requires
        v.is_summary(views),
        0 <= i < views.len(),
        forall|x: int| 0 <= x < before.len() ==> v.is_emitted(#[trigger] before[x]),
        forall|x: int|
            #![trigger before[x]]
            0 <= x < before.len() ==> exists|y: int|
                #![trigger views[y]]
                0 <= y < i && views[y].share_guid == before[x].share_guid && views[y].path
                    == before[x].path,
        forall|e: KeyDay, y: int|
            #![trigger v.is_emitted(e), views[y]]
            v.is_emitted(e) && 0 <= y < i && views[y].share_guid == e.share_guid && views[y].path
                == e.path ==> before.contains(e),
        forall|x: int, y: int|
            #![trigger before[x], before[y]]
            0 <= x < y < before.len() ==> v.emits_before(before[x], before[y]),
        forall|x: int|
            #![trigger added[x]]
            0 <= x < added.len() ==> {
                &&& added[x].share_guid == views[i].share_guid
                &&& added[x].path == views[i].path
                &&& v.is_emitted(added[x])
            },
        forall|x: int, y: int|
            #![trigger added[x], added[y]]
            0 <= x < y < added.len() ==> added[x].day < added[y].day,
        forall|e: KeyDay| #[trigger]
            v.is_emitted(e) && e.share_guid == views[i].share_guid && e.path == views[i].path
                ==> added.contains(e),
    ensures
        forall|x: int| 0 <= x < (before + added).len() ==> v.is_emitted(#[trigger] (before + added)[x]),
        forall|x: int|
            #![trigger (before + added)[x]]
            0 <= x < (before + added).len() ==> exists|y: int|
                #![trigger views[y]]
                0 <= y < i + 1 && views[y].share_guid == (before + added)[x].share_guid
                    && views[y].path == (before + added)[x].path,
        forall|e: KeyDay, y: int|
            #![trigger v.is_emitted(e), views[y]]
            v.is_emitted(e) && 0 <= y < i + 1 && views[y].share_guid == e.share_guid
                && views[y].path == e.path ==> (before + added).contains(e),
        forall|x: int, y: int|
            #![trigger (before + added)[x], (before + added)[y]]
            0 <= x < y < (before + added).len() ==> v.emits_before(
                (before + added)[x],
                (before + added)[y],
            ),
{
    let keys = before + added;
    let n = before.len();
    assert forall|x: int| #![trigger keys[x]] 0 <= x < keys.len() implies exists|y: int|
        #![trigger views[y]]
        0 <= y < i + 1 && views[y].share_guid == keys[x].share_guid && views[y].path
            == keys[x].path by {
        if x < n {
            assert(keys[x] == before[x]);
            let y = choose|y: int|
                #![trigger views[y]]
                0 <= y < i && views[y].share_guid == before[x].share_guid && views[y].path
                    == before[x].path;
            assert(0 <= y < i + 1 && views[y].share_guid == keys[x].share_guid);
        } else {
            assert(keys[x] == added[x - n]);
            assert(views[i].share_guid == keys[x].share_guid);
        }
    }
    assert forall|e: KeyDay, y: int|
        #![trigger v.is_emitted(e), views[y]]
        v.is_emitted(e) && 0 <= y < i + 1 && views[y].share_guid == e.share_guid && views[y].path
            == e.path implies keys.contains(e) by {
        if y < i {
            assert(before.contains(e));
            let x = choose|x: int| 0 <= x < before.len() && before[x] == e;
            assert(keys[x] == e);
        } else {
            assert(added.contains(e));
            let x = choose|x: int| 0 <= x < added.len() && added[x] == e;
            assert(keys[n + x] == e);
        }
    }
    assert forall|x: int, y: int|
        #![trigger keys[x], keys[y]]
        0 <= x < y < keys.len() implies v.emits_before(keys[x], keys[y]) by {
        if y < n {
            assert(keys[x] == before[x] && keys[y] == before[y]);
        } else if x >= n {
            assert(keys[x] == added[x - n] && keys[y] == added[y - n]);
        } else {
            assert(keys[x] == before[x] && keys[y] == added[y - n]);
            let z = choose|z: int|
                #![trigger views[z]]
                0 <= z < i && views[z].share_guid == before[x].share_guid && views[z].path
                    == before[x].path;
            assert(stands_above(views[z], views[i]));
        }
    }
    assert forall|x: int| 0 <= x < keys.len() implies v.is_emitted(#[trigger] keys[x]) by {
        if x < n {
            assert(keys[x] == before[x]);
        } else {
            assert(keys[x] == added[x - n]);
        }
    }
}

/// The values of emitted rows.
pub open spec fn emit_views(rows: Seq<EmitRow>) -> Seq<EmitView> {
    rows.map_values(|r: EmitRow| r@)
}

/// A file's reads and writes make up its opens.
proof fn lemma_days(days: Map<i32, DayCount>)
    ensures
        reads_over(days) + writes_over(days) == opens_over(days),
{
    lemma_map_sum_add(
        days,
        |c: DayCount| c.reads as nat,
        |c: DayCount| c.writes as nat,
        |c: DayCount| opens_in(c),
    );
}

/// The reads, writes and active days of a file.
fn sum_days(days: &Table<i32, DayCount>) -> (r: (u64, u64, u64))
    requires
        days.wf(),
        opens_over(days@) <= u64::MAX,
    ensures
        r.0 == reads_over(days@),
        r.1 == writes_over(days@),
        r.2 == active_days_of(days@),
{
    let ghost rows = days.entries();
    let ghost fr = |c: DayCount| c.reads as nat;
    let ghost fw = |c: DayCount| c.writes as nat;
    let ghost fa = |c: DayCount|
        if c.reads > 0 || c.writes > 0 {
            1nat
        } else {
            0nat
        };
    let n = days.len();
    proof {
        days.lemma_entries();
        lemma_days(days@);
        assert(entries_map(rows.take(0)) =~= Map::empty());
        lemma_map_sum_empty::<i32, DayCount>(fr);
        lemma_map_sum_empty::<i32, DayCount>(fw);
        lemma_map_sum_empty::<i32, DayCount>(fa);
    }
    let mut reads: u64 = 0;
    let mut writes: u64 = 0;
    let mut active: u64 = 0;
    let mut i: usize = 0;
    while i < n
        invariant
            i <= n,
            n == rows.len(),
            days.wf(),
            rows == days.entries(),
            ascending(rows),
            days@ == entries_map(rows),
            fr == (|c: DayCount| c.reads as nat),
            fw == (|c: DayCount| c.writes as nat),
            fa == (|c: DayCount|
                if c.reads > 0 || c.writes > 0 {
                    1nat
                } else {
                    0nat
                }),
            map_sum(days@, fr) + map_sum(days@, fw) <= u64::MAX,
            reads == map_sum(entries_map(rows.take(i as int)), fr),
            writes == map_sum(entries_map(rows.take(i as int)), fw),
            active == map_sum(entries_map(rows.take(i as int)), fa),
            active <= i,
        decreases n - i,
    {
        let (_, c) = days.at(i);
        proof {
            lemma_map_sum_take(rows, fr, i as int);
            lemma_map_sum_take(rows, fw, i as int);
            lemma_map_sum_take(rows, fa, i as int);
            lemma_map_sum_prefix(rows, fr, i + 1);
            lemma_map_sum_prefix(rows, fw, i + 1);
        }
        reads = reads + c.reads as u64;
        writes = writes + c.writes as u64;
        if c.reads > 0 || c.writes > 0 {
            active = active + 1;
        }
        i = i + 1;
    }
    assert(rows.take(n as int) =~= rows);
    (reads, writes, active)
}

/// Share naming and heat. Heat is keyed by the open's share GUID and the
/// case-folded path; each file has a sparse table of per-day counts.
pub struct CorrelationEngine {
    shares: HashMap<GuidKey, String>,
    heat: Table<(Option<GuidKey>, String), Table<i32, DayCount>>,
    inventory: Inventory,
    walked_shares: ShareSet,
    /// Read/write opens folded into the table.
    pub opens_total: u64,
    /// Opens that touch no data, left out of the table.
    pub metadata_skipped: u64,
}

impl View for CorrelationEngine {
    type V = EngineView;

    closed spec fn view(&self) -> EngineView {
        EngineView {
            shares: self.shares@.map_values(|s: String| s@),
            heat: self.heat@.map_values(|days: Table<i32, DayCount>| days@),
            inventory: self.inventory@,
            walked: self.walked_shares@.dom(),
            opens_total: self.opens_total as nat,
            metadata_skipped: self.metadata_skipped as nat,
        }
    }
}

impl Default for CorrelationEngine {
    /// An engine that has seen nothing.
    fn default() -> (r: Self)
        ensures
            r.wf(),
            r@ == (EngineView {
                shares: Map::empty(),
                heat: Map::empty(),
                inventory: Map::empty(),
                walked: Set::empty(),
                opens_total: 0,
                metadata_skipped: 0,
            }),
    {
        let e = CorrelationEngine {
            shares: HashMap::new(),
            heat: Table::new(),
            inventory: Table::new(),
            walked_shares: Table::new(),
            opens_total: 0,
            metadata_skipped: 0,
        };
        assert(e@.shares =~= Map::empty());
        assert(e@.heat =~= Map::empty());
        assert(e@.inventory =~= Map::empty());
        assert(e@.walked =~= Set::empty());
        proof {
            lemma_map_sum_empty::<(Option<u128>, Seq<char>), Map<i32, DayCount>>(
                |days: Map<i32, DayCount>| opens_over(days),
            );
        }
        e
    }
}

impl CorrelationEngine {
    /// The engine is well formed: its tables are ordered and its value keeps the
    /// invariant.
    pub closed spec fn wf(&self) -> bool {
        &&& self.heat.wf()
        &&& self.inventory.wf()
        &&& self.walked_shares.wf()
        &&& forall|k: (Option<u128>, Seq<char>)|
            self.heat@.contains_key(k) ==> (#[trigger] self.heat@[k]).wf()
        &&& self@.inv()
    }

    /// Well-formedness includes the invariant of the value.
    pub proof fn lemma_wf(&self)
        ensures
            self.wf() ==> self@.inv(),
    {
    }

    /// Count one open of the file `folded` (a case-folded path) on `day`.
    pub fn count_open(&mut self, share_guid: Option<GuidKey>, folded: String, day: i32, kind: Access)
        requires
            old(self).wf(),
            kind != Access::Metadata,
            counter(old(self)@.count(share_guid, folded@, day), kind) < u32::MAX,
            old(self)@.opens_total < u64::MAX,
        ensures
            final(self).wf(),
            final(self)@ == old(self)@.opened(share_guid, folded@, day, kind),
    {
        let ghost v = self@;
        let ghost k = (share_guid, folded@);
        proof {
            law_opened_keeps_invariant(v, share_guid, folded@, day, kind);
        }
        self.opens_total = self.opens_total + 1;
        let key = (share_guid, folded);
        let ghost heat = self.heat@;
        match self.heat.position(&key) {
            Some(i) => {
                let days = self.heat.value_mut(i);
                let c = match days.get(&day) {
                    Some(c) => *c,
                    None => DayCount::default(),
                };
                days.insert(day, Self::bump(c, kind));
            },
            None => {
                let mut days = Table::new();
                days.insert(day, Self::bump(DayCount::default(), kind));
                self.heat.insert(key, days);
            },
        }
        assert(self@.heat =~= v.opened(share_guid, folded@, day, kind).heat);
        assert(self@ =~= v.opened(share_guid, folded@, day, kind));
    }

    /// Apply one event. `event_filetime` is the record's timestamp and gives an
    /// open its day. Returns what is reported for it.
    pub fn apply(&mut self, ev: &SmbEvent, event_filetime: i64) -> (r: Option<ResolvedAccess>)
        requires
            old(self).wf(),
            old(self)@.has_room(*ev, event_filetime as int),
        ensures
            final(self).wf(),
            final(self)@ == old(self)@.applied(*ev, event_filetime as int),
            opt_access(r) == old(self)@.reported(*ev, event_filetime as int),
            match ev {
                SmbEvent::Open { share_guid, path, access, .. } => access_kind(*access)
                    != Access::Metadata && is_ascii_chars(path@) ==> final(self)@ == old(self)@.opened(
                    *share_guid,
                    ascii_folded(path@),
                    civil_day(event_filetime as int) as i32,
                    access_kind(*access),
                ),
                _ => true,
            },
            match r {
                Some(a) => event_filetime >= 0 ==> {
                    let at = event_filetime as int / 10_000_000 - 11_644_473_600;
                    &&& 86_400 * a.day <= at + chicago_offset(at) < 86_400 * (a.day + 1)
                    &&& (at - 21_600) / 86_400 <= a.day <= (at - 18_000) / 86_400
                },
                None => true,
            },
    {
        match ev {
            SmbEvent::TreeConnect { share_guid, share } => {
                self.bind(*share_guid, share.clone());
                None
            },
            SmbEvent::Open { open, tree, share_guid, path, access } => {
                let kind = classify_access(*access);
                if kind == Access::Metadata {
                    self.metadata_skipped = self.metadata_skipped + 1;
                    assert(self@ =~= old(self)@.skipped());
                    return None;
                }
                let day = central_civil_day(event_filetime);
                self.count_open(*share_guid, fold_case(path.as_str()), day, kind);
                Some(
                    ResolvedAccess {
                        share_guid: *share_guid,
                        share: self.resolve_name(*share_guid),
                        path: path.clone(),
                        tree: *tree,
                        open: *open,
                        access: *access,
                        kind,
                        day,
                    },
                )
            },
        }
    }

    /// Apply one event, unless a counter that it bumps stands at its limit; the
    /// engine is then unchanged.
    pub fn try_apply(&mut self, ev: &SmbEvent, event_filetime: i64) -> (r: Result<
        Option<ResolvedAccess>,
        CounterFull,
    >)
        requires
            old(self).wf(),
        ensures
            final(self).wf(),
            match r {
                Ok(a) => {
                    &&& old(self)@.has_room(*ev, event_filetime as int)
                    &&& final(self)@ == old(self)@.applied(*ev, event_filetime as int)
                    &&& opt_access(a) == old(self)@.reported(*ev, event_filetime as int)
                },
                Err(_) => {
                    &&& !old(self)@.has_room(*ev, event_filetime as int)
                    &&& final(self)@ == old(self)@
                },
            },
    {
        if let SmbEvent::Open { share_guid, path, access, .. } = ev {
            let kind = classify_access(*access);
            if kind == Access::Metadata {
                if self.metadata_skipped == u64::MAX {
                    return Err(CounterFull);
                }
            } else {
                let day = central_civil_day(event_filetime);
                let c = self.count_of(*share_guid, fold_case(path.as_str()), day);
                let n: u32 = match kind {
                    Access::Read => c.reads,
                    Access::Write => c.writes,
                    Access::Metadata => 0,
                };
                if self.opens_total == u64::MAX || n == u32::MAX {
                    return Err(CounterFull);
                }
            }
        }
        Ok(self.apply(ev, event_filetime))
    }

    /// Name a share. Because heat is keyed by GUID this also names earlier opens.
    fn bind(&mut self, share_guid: GuidKey, share: String)
        requires
            old(self).wf(),
        ensures
            final(self).wf(),
            final(self)@ == old(self)@.bound(share_guid, share@),
    {
        let ghost v = self@;
        self.shares.insert(share_guid, share);
        assert(self@.shares =~= v.bound(share_guid, share@).shares);
        assert(self@ =~= v.bound(share_guid, share@));
    }

    /// Load the inventory and the walked shares, both in lower case. Opens never
    /// read them.
    pub fn load_inventory(&mut self, inventory: Inventory, walked_shares: ShareSet)
        requires
            old(self).wf(),
            inventory.wf(),
            walked_shares.wf(),
        ensures
            final(self).wf(),
            final(self)@ == (EngineView {
                inventory: inventory@,
                walked: walked_shares@.dom(),
                ..old(self)@
            }),
    {
        proof {
            inventory.lemma_entries();
            walked_shares.lemma_entries();
        }
        self.inventory = inventory;
        self.walked_shares = walked_shares;
        assert(self@.heat == old(self)@.heat);
    }

    /// The name of a share as currently known, or `UNKNOWN`.
    fn resolve_name(&self, share_guid: Option<GuidKey>) -> (r: String)
        requires
            self.wf(),
        ensures
            r@ == self@.name(share_guid),
    {
        if let Some(g) = share_guid {
            if let Some(s) = self.shares.get(&g) {
                return s.clone();
            }
        }
        UNKNOWN_SHARE.to_owned()
    }

    /// The counts of a file on a day, by its case-folded path.
    pub fn count_of(&self, share_guid: Option<GuidKey>, folded: String, day: i32) -> (r: DayCount)
        requires
            self.wf(),
        ensures
            r == self@.count(share_guid, folded@, day),
    {
        match self.heat.get(&(share_guid, folded)) {
            Some(days) => match days.get(&day) {
                Some(c) => *c,
                None => DayCount::default(),
            },
            None => DayCount::default(),
        }
    }

    /// The row of every heat key, in key order.
    fn unsorted_rows(&self) -> (r: Vec<HeatRow>)
        requires
            self.wf(),
        ensures
            r@.len() == self@.heat.dom().len(),
            forall|i: int|
                #![trigger r@[i]]
                0 <= i < r@.len() ==> {
                    &&& self@.heat.contains_key((r@[i].share_guid, r@[i].path@))
                    &&& r@[i]@ == self@.row((r@[i].share_guid, r@[i].path@))
                    &&& r@[i].reads + r@[i].writes <= u64::MAX
                },
            forall|i: int, j: int|
                #![trigger r@[i], r@[j]]
                0 <= i < j < r@.len() ==> {
                    &&& (r@[i].share_guid, r@[i].path@) != (r@[j].share_guid, r@[j].path@)
                    &&& id_le(r@[i].share_guid, r@[j].share_guid)
                },
    {
        let ghost entries = self.heat.entries();
        let n = self.heat.len();
        let mut rows: Vec<HeatRow> = Vec::new();
        let mut i: usize = 0;
        proof {
            self.heat.lemma_entries();
            assert(self@.heat.dom() =~= self.heat@.dom());
        }
        while i < n
            invariant
                self.wf(),
                i <= n,
                n == entries.len(),
                entries == self.heat.entries(),
                ascending(entries),
                rows@.len() == i,
                forall|x: int|
                    #![trigger rows@[x]]
                    0 <= x < i ==> {
                        &&& (rows@[x].share_guid, rows@[x].path@) == entries[x].0.key()
                        &&& self@.heat.contains_key((rows@[x].share_guid, rows@[x].path@))
                        &&& rows@[x]@ == self@.row((rows@[x].share_guid, rows@[x].path@))
                        &&& rows@[x].reads + rows@[x].writes <= u64::MAX
                    },
            decreases n - i,
        {
            let (key, days) = self.heat.at(i);
            let ghost k = (key.0, key.1@);
            proof {
                assert(self@.heat.contains_key(k));
                assert(self@.heat[k] == days@);
                lemma_map_sum_bounds(self@.heat, |d: Map<i32, DayCount>| opens_over(d), k);
                lemma_days(days@);
            }
            let (reads, writes, active_days) = sum_days(days);
            rows.push(
                HeatRow {
                    share_guid: key.0,
                    share: self.resolve_name(key.0),
                    path: key.1.clone(),
                    reads,
                    writes,
                    active_days,
                },
            );
            i = i + 1;
        }
        proof {
            assert forall|x: int, y: int|
                #![trigger rows@[x], rows@[y]]
                0 <= x < y < rows@.len() implies {
                &&& (rows@[x].share_guid, rows@[x].path@) != (rows@[y].share_guid, rows@[y].path@)
                &&& id_le(rows@[x].share_guid, rows@[y].share_guid)
            } by {
                assert(entries[x].0.key() != entries[y].0.key());
            }
        }
        rows
    }

    /// The heat table, names resolved at call time, hottest first.
    pub fn resolved_summary(&self) -> (r: Vec<HeatRow>)
        requires
            self.wf(),
        ensures
            self@.is_summary(row_views(r@)),
            forall|i: int, j: int|
                #![trigger r@[i], r@[j]]
                0 <= i < j < r@.len() ==> {
                    let (a, b) = (r@[i], r@[j]);
                    &&& a.reads + a.writes >= b.reads + b.writes
                    &&& a.reads + a.writes == b.reads + b.writes ==> text_le(a.share@, b.share@)
                    &&& a.reads + a.writes == b.reads + b.writes && a.share@ == b.share@
                        ==> text_le(a.path@, b.path@)
                },
    {
        let rows = self.unsorted_rows();
        let mut keys: Vec<RankKey> = Vec::new();
        let mut i: usize = 0;
        while i < rows.len()
            invariant
                i <= rows@.len(),
                keys@.len() == i,
                forall|x: int|
                    #![trigger rows@[x]]
                    0 <= x < rows@.len() ==> rows@[x].reads + rows@[x].writes <= u64::MAX,
                forall|x: int|
                    #![trigger keys@[x]]
                    0 <= x < i ==> keys@[x]@ == rank_of(rows@[x]@),
            decreases rows@.len() - i,
        {
            let r = &rows[i];
            keys.push(
                RankKey { weight: r.reads + r.writes, first: r.share.as_str(), second: r.path.as_str() },
            );
            i = i + 1;
        }
        let order = rank_order(&keys);
        let mut out: Vec<HeatRow> = Vec::new();
        let mut j: usize = 0;
        while j < order.len()
            invariant
                j <= order@.len(),
                order@.len() == rows@.len(),
                ranked(keys@, order@, 0, rows@.len() as int),
                out@.len() == j,
                forall|x: int|
                    #![trigger out@[x]]
                    0 <= x < j ==> out@[x]@ == rows@[order@[x] as int]@,
            decreases order@.len() - j,
        {
            let r = &rows[order[j]];
            out.push(
                HeatRow {
                    share_guid: r.share_guid,
                    share: r.share.clone(),
                    path: r.path.clone(),
                    reads: r.reads,
                    writes: r.writes,
                    active_days: r.active_days,
                },
            );
            j = j + 1;
        }
        proof {
            let views = row_views(out@);
            assert forall|x: int| #![trigger views[x]] 0 <= x < views.len() implies {
                &&& self@.heat.contains_key((views[x].share_guid, views[x].path))
                &&& views[x] == self@.row((views[x].share_guid, views[x].path))
            } by {
                let o = order@[x] as int;
                assert(views[x] == out@[x]@);
                assert(rows@[o]@ == views[x]);
            }
            assert forall|x: int, y: int|
                #![trigger views[x], views[y]]
                0 <= x < y < views.len() implies {
                &&& (views[x].share_guid, views[x].path) != (views[y].share_guid, views[y].path)
                &&& stands_above(views[x], views[y])
            } by {
                let (ox, oy) = (order@[x] as int, order@[y] as int);
                assert(views[x] == out@[x]@ && views[y] == out@[y]@);
                assert(ox != oy);
                assert(rows@[ox]@ == views[x] && rows@[oy]@ == views[y]);
                assert(keys@[ox]@ == rank_of(rows@[ox]@));
                assert(keys@[oy]@ == rank_of(rows@[oy]@));
                if ox < oy {
                    assert(id_le(rows@[ox].share_guid, rows@[oy].share_guid));
                } else {
                    assert((rows@[oy].share_guid, rows@[oy].path@) != (
                        rows@[ox].share_guid,
                        rows@[ox].path@,
                    ));
                }
            }
            assert forall|x: int, y: int|
                #![trigger out@[x], out@[y]]
                0 <= x < y < out@.len() implies {
                let (a, b) = (out@[x], out@[y]);
                &&& a.reads + a.writes >= b.reads + b.writes
                &&& a.reads + a.writes == b.reads + b.writes ==> text_le(a.share@, b.share@)
                &&& a.reads + a.writes == b.reads + b.writes && a.share@ == b.share@ ==> text_le(
                    a.path@,
                    b.path@,
                )
            } by {
                assert(views[x] == out@[x]@ && views[y] == out@[y]@);
                assert(stands_above(views[x], views[y]));
                lemma_text_le_total(out@[x].share@, out@[y].share@);
            }
        }
        out
    }

    /// Render a summary of this engine.
    pub fn render_table(&self, rows: &Vec<HeatRow>) -> (r: String)
        requires
            self.wf(),
        ensures
            r@ == self@.table_text(row_views(rows@)),
    {
        let ghost v = self@;
        let ghost views = row_views(rows@);
        proof {
            self.walked_shares.lemma_entries();
        }
        let mut i: usize = 0;
        if self.walked_shares.len() == 0 {
            let mut out = "=== resolved heat: ".to_owned();
            push_dec(&mut out, rows.len() as u64);
            out.append(" keys, ");
            push_dec(&mut out, self.opens_total);
            out.append(" r/w opens ===\n");
            let ghost head = out@;
            while i < rows.len()
                invariant
                    i <= rows@.len(),
                    views == row_views(rows@),
                    out@ == head + v.plain_body(views.take(i as int)),
                decreases rows@.len() - i,
            {
                let line = rows[i].to_text();
                assert(views.take(i + 1).drop_last() =~= views.take(i as int));
                assert(views.take(i + 1).last() == rows@[i as int]@);
                out.append(line.as_str());
                out.append("\n");
                assert(out@ =~= head + v.plain_body(views.take(i + 1)));
                i = i + 1;
            }
            assert(views.take(views.len() as int) =~= views);
            out.append("metadata-skipped: ");
            push_dec(&mut out, self.metadata_skipped);
            out.append("\n");
            return out;
        }
        let mut body = String::new();
        let mut leaves: u64 = 0;
        let mut restat: u64 = 0;
        let mut unresolved: u64 = 0;
        let mut dirs: u64 = 0;
        let mut roots: u64 = 0;
        let mut non_walked: u64 = 0;
        while i < rows.len()
            invariant
                self.wf(),
                v == self@,
                i <= rows@.len(),
                views == row_views(rows@),
                body@ == v.joined_body(views.take(i as int)),
                leaves == v.outcomes(views.take(i as int), |o: KeyOutcome| o is Leaf),
                restat == v.outcomes(views.take(i as int), |o: KeyOutcome| o is Restat),
                unresolved == v.outcomes(
                    views.take(i as int),
                    |o: KeyOutcome| o is UnresolvedShare,
                ),
                dirs == v.outcomes(views.take(i as int), |o: KeyOutcome| o is DropDir),
                roots == v.outcomes(views.take(i as int), |o: KeyOutcome| o is DropRoot),
                non_walked == v.outcomes(
                    views.take(i as int),
                    |o: KeyOutcome| o is DropNonWalkedShare,
                ),
                leaves + restat + unresolved + dirs + roots + non_walked == i,
            decreases rows@.len() - i,
        {
            let row = &rows[i];
            assert(views.take(i + 1).drop_last() =~= views.take(i as int));
            assert(views.take(i + 1).last() == row@);
            match classify_key(
                row.share.as_str(),
                row.path.as_str(),
                &self.inventory,
                &self.walked_shares,
            ) {
                KeyOutcome::Leaf { alloc_bytes } => {
                    leaves = leaves + 1;
                    let flags: [&str; 0] = [];
                    assert(flags@ =~= seq![]);
                    body.append(fmt_join_row(row, Some(alloc_bytes), &flags).as_str());
                },
                KeyOutcome::Restat => {
                    restat = restat + 1;
                    let flags = [FLAG_RESTAT];
                    assert(flags@ =~= seq![FLAG_RESTAT]);
                    body.append(fmt_join_row(row, None, &flags).as_str());
                },
                KeyOutcome::UnresolvedShare => {
                    unresolved = unresolved + 1;
                    let flags = [FLAG_UNRESOLVED];
                    assert(flags@ =~= seq![FLAG_UNRESOLVED]);
                    body.append(fmt_join_row(row, None, &flags).as_str());
                },
                KeyOutcome::DropDir => {
                    dirs = dirs + 1;
                },
                KeyOutcome::DropRoot => {
                    roots = roots + 1;
                },
                KeyOutcome::DropNonWalkedShare => {
                    non_walked = non_walked + 1;
                },
            }
            assert(body@ =~= v.joined_body(views.take(i + 1)));
            i = i + 1;
        }
        assert(views.take(views.len() as int) =~= views);
        let mut out = "=== resolved heat: ".to_owned();
        push_dec(&mut out, leaves + restat + unresolved);
        out.append(" rows (");
        push_dec(&mut out, leaves);
        out.append(" leaves, ");
        push_dec(&mut out, restat);
        out.append(" restat, ");
        push_dec(&mut out, unresolved);
        out.append(" unresolved-share), ");
        push_dec(&mut out, self.opens_total);
        out.append(" r/w opens ===\n");
        out.append("dropped: ");
        push_dec(&mut out, dirs);
        out.append(" dir, ");
        push_dec(&mut out, roots);
        out.append(" share-root, ");
        push_dec(&mut out, non_walked);
        out.append(" non-walked-share\n");
        out.append(body.as_str());
        out.append("metadata-skipped: ");
        push_dec(&mut out, self.metadata_skipped);
        out.append("\n");
        out
    }

    /// The resolved heat table rendered for emission.
    pub fn resolved_table(&self) -> (r: String)
        requires
            self.wf(),
        ensures
            exists|rows: Seq<RowView>| #[trigger]
                self@.is_summary(rows) && r@ == self@.table_text(rows),
    {
        let rows = self.resolved_summary();
        self.render_table(&rows)
    }

    /// Append the rows of one kept key, its days ascending.
    fn push_days(
        &self,
        row: &HeatRow,
        alloc_bytes: Option<u64>,
        flag: Option<&'static str>,
        out: &mut Vec<EmitRow>,
    ) -> (added: Ghost<Seq<KeyDay>>)
        requires
            self.wf(),
            self@.heat.contains_key((row.share_guid, row.path@)),
            row@ == self@.row((row.share_guid, row.path@)),
            match self@.outcome(row@) {
                KeyOutcome::Leaf { alloc_bytes: a } => alloc_bytes == Some(a) && flag is None,
                KeyOutcome::Restat => alloc_bytes is None && flag == Some(FLAG_RESTAT),
                KeyOutcome::UnresolvedShare => alloc_bytes is None && flag == Some(EMIT_UNRESOLVED),
                _ => false,
            },
        ensures
            emit_views(final(out)@) == emit_views(old(out)@) + added@.map_values(
                |e: KeyDay| self@.emit_row(e),
            ),
            forall|i: int|
                #![trigger added@[i]]
                0 <= i < added@.len() ==> {
                    &&& added@[i].share_guid == row.share_guid
                    &&& added@[i].path == row.path@
                    &&& self@.is_emitted(added@[i])
                },
            forall|i: int, j: int|
                #![trigger added@[i], added@[j]]
                0 <= i < j < added@.len() ==> added@[i].day < added@[j].day,
            forall|e: KeyDay| #[trigger]
                self@.is_emitted(e) && e.share_guid == row.share_guid && e.path == row.path@
                    ==> added@.contains(e),
    {
        let share = fold_case(row.share.as_str());
        let key = (row.share_guid, row.path.clone());
        let ghost k = (row.share_guid, row.path@);
        let ghost v = self@;
        let ghost before = emit_views(out@);
        let ghost mut added: Seq<KeyDay> = Seq::empty();
        assert(emit_views(out@) =~= before + added.map_values(|e: KeyDay| v.emit_row(e)));
        if let Some(days) = self.heat.get(&key) {
            let ghost entries = days.entries();
            let n = days.len();
            proof {
                days.lemma_entries();
                assert(v.heat[k] == days@);
            }
            let mut i: usize = 0;
            while i < n
                invariant
                    i <= n,
                    n == entries.len(),
                    days.wf(),
                    entries == days.entries(),
                    days@ == entries_map(entries),
                    ascending(entries),
                    k == (row.share_guid, row.path@),
                    v.heat.contains_key(k),
                    v.heat[k] == days@,
                    row@ == v.row(k),
                    share@ == lowercase(row.share@),
                    match v.outcome(row@) {
                        KeyOutcome::Leaf { alloc_bytes: a } => alloc_bytes == Some(a)
                            && flag is None,
                        KeyOutcome::Restat => alloc_bytes is None && flag == Some(FLAG_RESTAT),
                        KeyOutcome::UnresolvedShare => alloc_bytes is None && flag == Some(
                            EMIT_UNRESOLVED,
                        ),
                        _ => false,
                    },
                    emit_views(out@) == before + added.map_values(|e: KeyDay| v.emit_row(e)),
                    added.len() == i,
                    forall|x: int|
                        #![trigger added[x]]
                        0 <= x < i ==> {
                            &&& added[x].share_guid == row.share_guid
                            &&& added[x].path == row.path@
                            &&& added[x].day == entries[x].0
                            &&& v.is_emitted(added[x])
                        },
                decreases n - i,
            {
                let (day, c) = days.at(i);
                let mut flags: Vec<&'static str> = Vec::new();
                if let Some(f) = flag {
                    flags.push(f);
                }
                let r = EmitRow {
                    share: share.clone(),
                    path: row.path.clone(),
                    day: *day,
                    reads: c.reads,
                    writes: c.writes,
                    alloc_bytes,
                    flags,
                };
                let ghost prior = out@;
                out.push(r);
                proof {
                    let e = KeyDay { share_guid: row.share_guid, path: row.path@, day: *day };
                    assert(v.heat[k].contains_key(*day));
                    assert(v.is_emitted(e));
                    assert(r@.flags =~= v.emit_row(e).flags);
                    assert(r@ == v.emit_row(e));
                    let f = |e: KeyDay| v.emit_row(e);
                    assert(emit_views(out@) =~= emit_views(prior).push(r@));
                    assert(added.push(e).map_values(f) =~= added.map_values(f).push(f(e)));
                    added = added.push(e);
                }
                i = i + 1;
            }
            proof {
                assert forall|x: int, y: int|
                    #![trigger added[x], added[y]]
                    0 <= x < y < added.len() implies added[x].day < added[y].day by {
                    assert(entries[x].0.key() != entries[y].0.key());
                }
                assert forall|e: KeyDay| #[trigger]
                    v.is_emitted(e) && e.share_guid == row.share_guid && e.path
                        == row.path@ implies added.contains(e) by {
                    let x = choose|x: int|
                        0 <= x < entries.len() && (#[trigger] entries[x]).0.key() == e.day;
                    assert(added[x] == e);
                }
            }
        }
        Ghost(added)
    }

    /// The rows of one flush: one per kept key and day.
    pub fn emit_rows(&self) -> (r: Vec<EmitRow>)
        requires
            self.wf(),
        ensures
            exists|keys: Seq<KeyDay>| #[trigger]
                self@.is_emission(keys) && emit_views(r@) == keys.map_values(
                    |e: KeyDay| self@.emit_row(e),
                ),
    {
        let rows = self.resolved_summary();
        let ghost v = self@;
        let ghost views = row_views(rows@);
        let ghost mut keys: Seq<KeyDay> = Seq::empty();
        let mut out: Vec<EmitRow> = Vec::new();
        assert(emit_views(out@) =~= keys.map_values(|e: KeyDay| v.emit_row(e)));
        let mut i: usize = 0;
        while i < rows.len()
            invariant
                self.wf(),
                v == self@,
                v.is_summary(views),
                views == row_views(rows@),
                i <= rows@.len(),
                emit_views(out@) == keys.map_values(|e: KeyDay| v.emit_row(e)),
                forall|x: int| 0 <= x < keys.len() ==> v.is_emitted(#[trigger] keys[x]),
                forall|x: int|
                    #![trigger keys[x]]
                    0 <= x < keys.len() ==> exists|y: int|
                        #![trigger views[y]]
                        0 <= y < i && views[y].share_guid == keys[x].share_guid && views[y].path
                            == keys[x].path,
                forall|e: KeyDay, y: int|
                    #![trigger v.is_emitted(e), views[y]]
                    v.is_emitted(e) && 0 <= y < i && views[y].share_guid == e.share_guid
                        && views[y].path == e.path ==> keys.contains(e),
                forall|x: int, y: int|
                    #![trigger keys[x], keys[y]]
                    0 <= x < y < keys.len() ==> v.emits_before(keys[x], keys[y]),
            decreases rows@.len() - i,
        {
            let row = &rows[i];
            assert(views[i as int] == row@);
            let outcome = classify_key(
                row.share.as_str(),
                row.path.as_str(),
                &self.inventory,
                &self.walked_shares,
            );
            let added = match outcome {
                KeyOutcome::Leaf { alloc_bytes } => self.push_days(
                    row,
                    Some(alloc_bytes),
                    None,
                    &mut out,
                ),
                KeyOutcome::Restat => self.push_days(row, None, Some(FLAG_RESTAT), &mut out),
                KeyOutcome::UnresolvedShare => self.push_days(
                    row,
                    None,
                    Some(EMIT_UNRESOLVED),
                    &mut out,
                ),
                _ => Ghost(Seq::empty()),
            };
            proof {
                let before = keys;
                keys = before + added@;
                assert(emit_views(out@) =~= keys.map_values(|e: KeyDay| v.emit_row(e)));
                lemma_emission_step(v, views, before, added@, i as int);
            }
            i = i + 1;
        }
        proof {
            assert forall|e: KeyDay| #[trigger] v.is_emitted(e) implies keys.contains(e) by {
                law_summary_is_complete(v, views, (e.share_guid, e.path));
            }
            assert(v.is_emission(keys));
        }
        out
    }

    /// The walked shares, in ascending order.
    pub fn walked_shares_vec(&self) -> (r: Vec<String>)
        requires
            self.wf(),
        ensures
            r@.len() == self@.walked.len(),
            forall|i: int| 0 <= i < r@.len() ==> self@.walked.contains(#[trigger] r@[i]@),
            forall|i: int, j: int|
                #![trigger r@[i], r@[j]]
                0 <= i < j < r@.len() ==> r@[i]@ != r@[j]@ && text_le(r@[i]@, r@[j]@),
    {
        let n = self.walked_shares.len();
        let ghost entries = self.walked_shares.entries();
        proof {
            self.walked_shares.lemma_entries();
        }
        let mut out: Vec<String> = Vec::new();
        let mut i: usize = 0;
        while i < n
            invariant
                self.wf(),
                i <= n,
                n == entries.len(),
                entries == self.walked_shares.entries(),
                ascending(entries),
                out@.len() == i,
                forall|x: int|
                    #![trigger out@[x]]
                    0 <= x < i ==> self@.walked.contains(out@[x]@) && out@[x]@ == entries[x].0.key(),
            decreases n - i,
        {
            let (s, _) = self.walked_shares.at(i);
            out.push(s.clone());
            i = i + 1;
        }
        proof {
            assert forall|x: int, y: int|
                #![trigger out@[x], out@[y]]
                0 <= x < y < out@.len() implies out@[x]@ != out@[y]@ && text_le(
                out@[x]@,
                out@[y]@,
            ) by {
                assert(entries[x].0.key() != entries[y].0.key());
            }
        }
        out
    }

    /// A one-line account of the engine.
    pub fn stats_line(&self) -> (r: String)
        requires
            self.wf(),
        ensures
            r@ == self@.stats_text(),
    {
        let ghost v = self@;
        let ghost named = |k: (Option<u128>, Seq<char>)| v.is_named(k);
        let ghost entries = self.heat.entries();
        let n = self.heat.len();
        proof {
            self.heat.lemma_entries();
            assert(v.heat.dom() =~= self.heat@.dom());
            assert(entries_map(entries.take(0)).dom().filter(named) =~= Set::empty());
        }
        let mut count: usize = 0;
        let mut i: usize = 0;
        while i < n
            invariant
                self.wf(),
                v == self@,
                i <= n,
                n == entries.len(),
                entries == self.heat.entries(),
                ascending(entries),
                named == (|k: (Option<u128>, Seq<char>)| v.is_named(k)),
                count == entries_map(entries.take(i as int)).dom().filter(named).len(),
                count <= i,
            decreases n - i,
        {
            let (key, _) = self.heat.at(i);
            proof {
                lemma_keys_take(entries, named, i as int);
            }
            if let Some(g) = key.0 {
                if self.shares.contains_key(&g) {
                    count = count + 1;
                }
            }
            i = i + 1;
        }
        assert(entries.take(n as int) =~= entries);
        assert(v.shares.dom() =~= self.shares@.dom());
        let mut s = "r/w opens: ".to_owned();
        push_dec(&mut s, self.opens_total);
        s.append(" | metadata-skipped: ");
        push_dec(&mut s, self.metadata_skipped);
        s.append(" | keys: ");
        push_dec(&mut s, n as u64);
        s.append(" (");
        push_dec(&mut s, count as u64);
        s.append(" named, ");
        push_dec(&mut s, (n - count) as u64);
        s.append(" UNKNOWN) | shares bound: ");
        push_dec(&mut s, self.shares.len() as u64);
        s
    }

    /// Per-day counts of a file; the path folds case.
    pub fn day_count(&self, share_guid: Option<GuidKey>, path: &str, day: i32) -> (r: DayCount)
        requires
            self.wf(),
        ensures
            r == self@.count(share_guid, lowercase(path@), day),
            is_ascii_chars(path@) ==> r == self@.count(share_guid, ascii_folded(path@), day),
    {
        self.count_of(share_guid, fold_case(path), day)
    }

    /// The number of days with activity of a file, by its case-folded path.
    pub fn day_entries_of(&self, share_guid: Option<GuidKey>, folded: String) -> (r: usize)
        requires
            self.wf(),
        ensures
            r == self@.days(share_guid, folded@).dom().len(),
    {
        match self.heat.get(&(share_guid, folded)) {
            Some(days) => days.len(),
            None => 0,
        }
    }

    /// The number of days with activity of a file; the path folds case.
    pub fn day_entries(&self, share_guid: Option<GuidKey>, path: &str) -> (r: usize)
        requires
            self.wf(),
        ensures
            r == self@.days(share_guid, lowercase(path@)).dom().len(),
            is_ascii_chars(path@) ==> r == self@.days(share_guid, ascii_folded(path@)).dom().len(),
    {
        self.day_entries_of(share_guid, fold_case(path))
    }

    /// The opens counted so far.
    pub fn opens(&self) -> (r: u64)
        ensures
            r == self@.opens_total,
    {
        self.opens_total
    }

    /// The number of files tracked.
    pub fn distinct_keys(&self) -> (r: usize)
        requires
            self.wf(),
        ensures
            r == self@.heat.dom().len(),
    {
        let n = self.heat.len();
        assert(self@.heat.dom() =~= self.heat@.dom());
        n
    }

    fn bump(c: DayCount, kind: Access) -> (r: DayCount)
        requires
            counter(c, kind) < u32::MAX,
        ensures
            r == bumped(c, kind),
    {
        match kind {
            Access::Read => DayCount { reads: c.reads + 1, writes: c.writes },
            Access::Write => DayCount { reads: c.reads, writes: c.writes + 1 },
            Access::Metadata => c,
        }
    }
}

} // verus!
