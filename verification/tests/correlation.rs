use smb_heat_spike::correlation::{
    central_civil_day, classify_access, classify_folded, classify_key, Access, CorrelationEngine,
    CounterFull, DayCount, HeatRow, KeyOutcome, FILETIME_TO_UNIX_SECS, FILE_APPEND_DATA,
    FILE_READ_DATA, FILE_WRITE_DATA, UNKNOWN_SHARE,
};
use smb_heat_spike::events::{GuidKey, SmbEvent};
use smb_heat_spike::inventory::{Entry, Inventory, ShareSet};

const SHARE_DATA: GuidKey = 0x0AAA;
const SHARE_HOME: GuidKey = 0x0BBB;
const TREE_1: GuidKey = 0x0010;
const OPEN_1: GuidKey = 0x0001;
const OPEN_2: GuidKey = 0x0002;

const READ: u32 = 0x0012_0089;
const WRITE: u32 = 0x0012_019F;
const META: u32 = 0x0012_0080;

fn ft(unix_secs: i64) -> i64 {
    (unix_secs + FILETIME_TO_UNIX_SECS) * 10_000_000
}

fn ft_day_a() -> i64 {
    ft(1_610_690_400) // 2021-01-15 00:00 CST, day 18642
}

fn ft_day_b() -> i64 {
    ft(1_610_690_400 + 86_400) // day 18643
}

fn open(open: GuidKey, share_guid: Option<GuidKey>, path: &str, access: u32) -> SmbEvent {
    SmbEvent::Open { open, tree: TREE_1, share_guid, path: path.into(), access }
}

fn bind(share_guid: GuidKey, share: &str) -> SmbEvent {
    SmbEvent::TreeConnect { share_guid, share: share.into() }
}

fn row_for<'a>(rows: &'a [HeatRow], path: &str) -> &'a HeatRow {
    rows.iter().find(|r| r.path == path).expect("row present")
}

fn inv_file(alloc: u64) -> Entry {
    Entry { logical: alloc, alloc, is_dir: false, sparse: false, compressed: false }
}

fn inv_dir() -> Entry {
    Entry { logical: 0, alloc: 0, is_dir: true, sparse: false, compressed: false }
}

fn walked(names: &[&str]) -> ShareSet {
    let mut s = ShareSet::new();
    for n in names {
        s.insert(n.to_string(), ());
    }
    s
}

#[test]
fn classify_access_precedence() {
    assert_eq!(classify_access(0x0012_0089), Access::Read);
    assert_eq!(classify_access(0x0012_019F), Access::Write);
    assert_eq!(classify_access(0x0012_0080), Access::Metadata);
    assert_eq!(classify_access(0x80), Access::Metadata);
    assert_eq!(classify_access(0x0010_0080), Access::Metadata);
    assert_eq!(classify_access(FILE_READ_DATA | FILE_WRITE_DATA), Access::Write);
    assert_eq!(classify_access(FILE_APPEND_DATA), Access::Write);
}

#[test]
fn central_civil_day_cst_and_cdt() {
    assert_eq!(central_civil_day(ft(1_610_690_400)), 18642);
    assert_eq!(central_civil_day(ft(1_610_686_800)), 18641);
    assert_eq!(central_civil_day(ft(1_626_325_200)), 18823);
}

#[test]
fn civil_day_edges() {
    // The Unix epoch is still the day before in Chicago.
    assert_eq!(central_civil_day(ft(0)), -1);
    assert_eq!(central_civil_day(ft(6 * 3600)), 0);
    // The FILETIME epoch, 1601-01-01 UTC, in local mean time.
    assert_eq!(central_civil_day(0), -134775);
    // The fraction of a second is cut off toward the FILETIME epoch.
    assert_eq!(central_civil_day(ft(6 * 3600) + 9_999_999), 0);
    // The ends of the range are days too.
    assert_eq!(central_civil_day(i64::MIN), -10809974);
    assert!(central_civil_day(i64::MAX) > 10_000_000);
}

#[test]
fn metadata_open_does_not_touch_table_but_bumps_counter() {
    let mut e = CorrelationEngine::default();
    e.apply(&bind(SHARE_DATA, "DATA"), ft_day_a());
    let r = e.apply(&open(OPEN_1, Some(SHARE_DATA), "\\m.txt", META), ft_day_a());
    assert!(r.is_none());
    assert_eq!(e.distinct_keys(), 0);
    assert_eq!(e.metadata_skipped, 1);
    assert_eq!(e.opens_total, 0);
}

#[test]
fn reads_and_writes_land_in_the_right_counter() {
    let mut e = CorrelationEngine::default();
    let r = e
        .apply(&open(OPEN_1, Some(SHARE_DATA), "\\a.txt", READ), ft_day_a())
        .unwrap();
    assert_eq!(r.kind, Access::Read);
    e.apply(&open(OPEN_2, Some(SHARE_DATA), "\\a.txt", WRITE), ft_day_a());

    let dc = e.day_count(Some(SHARE_DATA), "\\a.txt", 18642);
    assert_eq!(dc, DayCount { reads: 1, writes: 1 });
    assert_eq!(e.opens_total, 2);
}

#[test]
fn same_key_same_day_counts_add_on_one_entry() {
    let mut e = CorrelationEngine::default();
    e.apply(&open(OPEN_1, Some(SHARE_DATA), "\\a.txt", READ), ft_day_a());
    e.apply(&open(OPEN_2, Some(SHARE_DATA), "\\a.txt", READ), ft_day_a());
    assert_eq!(e.day_entries(Some(SHARE_DATA), "\\a.txt"), 1);
    assert_eq!(e.day_count(Some(SHARE_DATA), "\\a.txt", 18642).reads, 2);
}

#[test]
fn same_key_different_days_make_two_entries() {
    let mut e = CorrelationEngine::default();
    e.apply(&open(OPEN_1, Some(SHARE_DATA), "\\a.txt", READ), ft_day_a());
    e.apply(&open(OPEN_2, Some(SHARE_DATA), "\\a.txt", READ), ft_day_b());
    assert_eq!(e.day_entries(Some(SHARE_DATA), "\\a.txt"), 2);
    assert_eq!(e.day_count(Some(SHARE_DATA), "\\a.txt", 18642).reads, 1);
    assert_eq!(e.day_count(Some(SHARE_DATA), "\\a.txt", 18643).reads, 1);
}

#[test]
fn casing_variant_paths_collapse_to_one_key() {
    let mut e = CorrelationEngine::default();
    e.apply(&open(OPEN_1, Some(SHARE_DATA), "\\Reports\\Q3.XLSX", READ), ft_day_a());
    e.apply(&open(OPEN_2, Some(SHARE_DATA), "\\reports\\q3.xlsx", WRITE), ft_day_a());
    assert_eq!(e.distinct_keys(), 1);
    let dc = e.day_count(Some(SHARE_DATA), "\\reports\\q3.xlsx", 18642);
    assert_eq!(dc, DayCount { reads: 1, writes: 1 });
}

#[test]
fn casing_folds_beyond_ascii() {
    let mut e = CorrelationEngine::default();
    e.apply(&open(OPEN_1, Some(SHARE_DATA), "\\GRÜN.TXT", READ), ft_day_a());
    assert_eq!(e.day_count(Some(SHARE_DATA), "\\grün.txt", 18642).reads, 1);
    assert_eq!(e.resolved_summary()[0].path, "\\grün.txt");
}

#[test]
fn active_days_counts_nonzero_days() {
    let mut e = CorrelationEngine::default();
    e.apply(&bind(SHARE_DATA, "DATA"), ft_day_a());
    e.apply(&open(OPEN_1, Some(SHARE_DATA), "\\a.txt", READ), ft_day_a());
    e.apply(&open(OPEN_2, Some(SHARE_DATA), "\\a.txt", WRITE), ft_day_b());
    let rows = e.resolved_summary();
    let row = row_for(&rows, "\\a.txt");
    assert_eq!(row.reads, 1);
    assert_eq!(row.writes, 1);
    assert_eq!(row.active_days, 2);
    assert_eq!(row.share, "DATA");
}

#[test]
fn late_600_names_opens_that_arrived_before_it() {
    let mut e = CorrelationEngine::default();
    let early = e
        .apply(&open(OPEN_1, Some(SHARE_DATA), "\\pre\\mount.db", READ), ft_day_a())
        .unwrap();
    assert_eq!(early.share, "UNKNOWN");
    e.apply(&bind(SHARE_DATA, "DATA"), ft_day_a());
    let rows = e.resolved_summary();
    assert_eq!(row_for(&rows, "\\pre\\mount.db").share, "DATA");
}

#[test]
fn unbound_shareguid_emits_unknown_and_is_not_dropped() {
    let mut e = CorrelationEngine::default();
    e.apply(&open(OPEN_1, Some(SHARE_HOME), "\\x", READ), ft_day_a());
    let rows = e.resolved_summary();
    assert_eq!(row_for(&rows, "\\x").share, "UNKNOWN");
    assert_eq!(e.day_count(Some(SHARE_HOME), "\\x", 18642).reads, 1);
}

#[test]
fn distinct_shares_are_separate_keys() {
    let mut e = CorrelationEngine::default();
    e.apply(&open(OPEN_1, Some(SHARE_DATA), "\\f", READ), ft_day_a());
    e.apply(&open(OPEN_2, Some(SHARE_HOME), "\\f", READ), ft_day_a());
    assert_eq!(e.distinct_keys(), 2);
}

#[test]
fn classify_key_one_case_per_outcome() {
    let mut inv = Inventory::new();
    inv.insert(("heattest".into(), "folder3\\txtdoc4.txt".into()), inv_file(4096));
    inv.insert(("heattest".into(), "folder3".into()), inv_dir());
    let w = walked(&["heattest"]);

    assert_eq!(
        classify_key("HeatTest", "folder3\\txtdoc4.txt", &inv, &w),
        KeyOutcome::Leaf { alloc_bytes: 4096 }
    );
    assert_eq!(classify_key("HeatTest", "new.txt", &inv, &w), KeyOutcome::Restat);
    assert_eq!(
        classify_key(UNKNOWN_SHARE, "anything.txt", &inv, &w),
        KeyOutcome::UnresolvedShare
    );
    assert_eq!(classify_key("HeatTest", "folder3", &inv, &w), KeyOutcome::DropDir);
    assert_eq!(classify_key("HeatTest", "", &inv, &w), KeyOutcome::DropRoot);
    assert_eq!(
        classify_key("IPC$", "srvsvc", &inv, &w),
        KeyOutcome::DropNonWalkedShare
    );
}

#[test]
fn classify_key_sharename_is_case_insensitive() {
    let mut inv = Inventory::new();
    inv.insert(("heattest".into(), "a.txt".into()), inv_file(8192));
    let w = walked(&["heattest"]);
    assert_eq!(
        classify_key("HEATTEST", "a.txt", &inv, &w),
        KeyOutcome::Leaf { alloc_bytes: 8192 }
    );
    assert_eq!(
        classify_key("HeAtTeSt", "a.txt", &inv, &w),
        KeyOutcome::Leaf { alloc_bytes: 8192 }
    );
}

#[test]
fn classify_folded_uses_the_given_lower_case() {
    let mut inv = Inventory::new();
    inv.insert(("x".into(), "a".into()), inv_file(7));
    let w = walked(&["x"]);
    assert_eq!(
        classify_folded("Whatever", "x".into(), "a", &inv, &w),
        KeyOutcome::Leaf { alloc_bytes: 7 }
    );
    // The root comes before the unresolved share.
    assert_eq!(
        classify_folded(UNKNOWN_SHARE, "unknown".into(), "", &inv, &w),
        KeyOutcome::DropRoot
    );
}

#[test]
fn reported_access_text() {
    let mut e = CorrelationEngine::default();
    e.apply(&bind(SHARE_DATA, "DATA"), ft_day_a());
    let r = e
        .apply(&open(OPEN_1, Some(SHARE_DATA), "Dir\\A.txt", WRITE), ft_day_a())
        .unwrap();
    assert_eq!(
        r.to_text(),
        "DATA\\Dir\\A.txt  share_guid=00000000-0000-0000-0000-000000000AAA \
         open=00000000-0000-0000-0000-000000000001 tree=00000000-0000-0000-0000-000000000010 \
         access=0x0012019F Write day=18642"
    );
    let r = e.apply(&open(OPEN_1, None, "x", READ), ft(0)).unwrap();
    assert_eq!(
        r.to_text(),
        "UNKNOWN\\x  share_guid=<none> open=00000000-0000-0000-0000-000000000001 \
         tree=00000000-0000-0000-0000-000000000010 access=0x00120089 Read day=-1"
    );
}

#[test]
fn summary_is_hottest_first_with_text_tiebreaks() {
    let mut e = CorrelationEngine::default();
    e.apply(&bind(SHARE_DATA, "DATA"), ft_day_a());
    e.apply(&bind(SHARE_HOME, "ALPHA"), ft_day_a());
    e.apply(&open(OPEN_1, Some(SHARE_DATA), "b", READ), ft_day_a());
    e.apply(&open(OPEN_1, Some(SHARE_DATA), "a", READ), ft_day_a());
    e.apply(&open(OPEN_1, Some(SHARE_HOME), "z", READ), ft_day_a());
    e.apply(&open(OPEN_1, Some(SHARE_DATA), "hot", READ), ft_day_a());
    e.apply(&open(OPEN_1, Some(SHARE_DATA), "hot", WRITE), ft_day_b());
    let order: Vec<(String, String)> =
        e.resolved_summary().into_iter().map(|r| (r.share, r.path)).collect();
    assert_eq!(
        order,
        vec![
            ("DATA".to_string(), "hot".to_string()),
            ("ALPHA".to_string(), "z".to_string()),
            ("DATA".to_string(), "a".to_string()),
            ("DATA".to_string(), "b".to_string()),
        ]
    );
    let total: u64 = e.resolved_summary().iter().map(|r| r.reads + r.writes).sum();
    assert_eq!(total, e.opens_total);
}

#[test]
fn rows_equal_but_for_their_share_come_by_guid() {
    let order = [Some(7), None, Some(3), Some(5)];
    let mut a = CorrelationEngine::default();
    let mut b = CorrelationEngine::default();
    for g in order {
        a.apply(&open(OPEN_1, g, "f", READ), ft_day_a());
    }
    for g in order.iter().rev() {
        b.apply(&open(OPEN_1, *g, "f", READ), ft_day_a());
    }
    let guids = |e: &CorrelationEngine| -> Vec<Option<GuidKey>> {
        e.resolved_summary().into_iter().map(|r| r.share_guid).collect()
    };
    assert_eq!(guids(&a), vec![None, Some(3), Some(5), Some(7)]);
    assert_eq!(guids(&b), guids(&a));
    assert_eq!(a.resolved_table(), b.resolved_table());
    // Two shares of one name as well.
    a.apply(&bind(7, "DATA"), ft_day_a());
    a.apply(&bind(3, "DATA"), ft_day_a());
    assert_eq!(guids(&a), vec![Some(3), Some(7), None, Some(5)]);
}

#[test]
fn table_without_an_inventory() {
    let mut e = CorrelationEngine::default();
    e.apply(&bind(SHARE_DATA, "DATA"), ft_day_a());
    e.apply(&open(OPEN_1, Some(SHARE_DATA), "A.txt", READ), ft_day_a());
    e.apply(&open(OPEN_1, Some(SHARE_DATA), "A.txt", META), ft_day_a());
    assert_eq!(
        e.resolved_table(),
        "=== resolved heat: 1 keys, 1 r/w opens ===\n\
         reads=      1 writes=      0 active_days=   1  DATA\\a.txt  \
         [share_guid=00000000-0000-0000-0000-000000000AAA]\n\
         metadata-skipped: 1\n"
    );
}

fn joined_engine() -> CorrelationEngine {
    let mut e = CorrelationEngine::default();
    let mut inv = Inventory::new();
    inv.insert(("data".into(), "leaf.txt".into()), inv_file(4096));
    inv.insert(("data".into(), "dir".into()), inv_dir());
    e.load_inventory(inv, walked(&["data"]));
    e.apply(&bind(SHARE_DATA, "Data"), ft_day_a());
    e.apply(&bind(0x0CCC, "IPC$"), ft_day_a());
    for _ in 0..3 {
        e.apply(&open(OPEN_1, Some(SHARE_DATA), "Leaf.txt", READ), ft_day_a());
    }
    e.apply(&open(OPEN_1, Some(SHARE_DATA), "leaf.txt", WRITE), ft_day_b());
    e.apply(&open(OPEN_1, Some(SHARE_DATA), "new.txt", READ), ft_day_a());
    e.apply(&open(OPEN_1, Some(SHARE_DATA), "dir", READ), ft_day_a());
    e.apply(&open(OPEN_1, Some(SHARE_DATA), "", READ), ft_day_a());
    e.apply(&open(OPEN_1, Some(0x0CCC), "srvsvc", READ), ft_day_a());
    e.apply(&open(OPEN_1, Some(SHARE_HOME), "who.txt", READ), ft_day_a());
    e
}

#[test]
fn table_joined_with_the_inventory() {
    let e = joined_engine();
    assert_eq!(
        e.resolved_table(),
        "=== resolved heat: 3 rows (1 leaves, 1 restat, 1 unresolved-share), 9 r/w opens ===\n\
         dropped: 1 dir, 1 share-root, 1 non-walked-share\n\
         reads=   3 writes=   1 active_days=  2 alloc_bytes=     4096  Data\\leaf.txt  \
         [share_guid=00000000-0000-0000-0000-000000000AAA]\n\
         reads=   1 writes=   0 active_days=  1 alloc_bytes=        ?  Data\\new.txt  \
         [restat] [share_guid=00000000-0000-0000-0000-000000000AAA]\n\
         reads=   1 writes=   0 active_days=  1 alloc_bytes=        ?  UNKNOWN\\who.txt  \
         [unresolved-share] [share_guid=00000000-0000-0000-0000-000000000BBB]\n\
         metadata-skipped: 0\n"
    );
    // Kept and dropped keys together are all keys.
    assert_eq!(e.distinct_keys(), 3 + 3);
}

#[test]
fn emitted_rows_are_per_day_and_flagged() {
    let e = joined_engine();
    let rows = e.emit_rows();
    let shown: Vec<(String, String, i32, u32, u32, Option<u64>, Vec<&str>)> = rows
        .iter()
        .map(|r| {
            (r.share.clone(), r.path.clone(), r.day, r.reads, r.writes, r.alloc_bytes, r.flags.clone())
        })
        .collect();
    assert_eq!(
        shown,
        vec![
            ("data".to_string(), "leaf.txt".to_string(), 18642, 3, 0, Some(4096), vec![]),
            ("data".to_string(), "leaf.txt".to_string(), 18643, 0, 1, Some(4096), vec![]),
            ("data".to_string(), "new.txt".to_string(), 18642, 1, 0, None, vec!["restat"]),
            (
                "unknown".to_string(),
                "who.txt".to_string(),
                18642,
                1,
                0,
                None,
                vec!["unresolved_share"]
            ),
        ]
    );
    assert_eq!(e.walked_shares_vec(), vec!["data".to_string()]);
}

#[test]
fn stats_line_counts_named_keys() {
    let e = joined_engine();
    assert_eq!(
        e.stats_line(),
        "r/w opens: 9 | metadata-skipped: 0 | keys: 6 (5 named, 1 UNKNOWN) | shares bound: 2"
    );
}

#[test]
fn binding_before_or_after_an_open_is_the_same() {
    let mut a = CorrelationEngine::default();
    a.apply(&bind(SHARE_DATA, "DATA"), ft_day_a());
    a.apply(&open(OPEN_1, Some(SHARE_DATA), "f", READ), ft_day_a());
    let mut b = CorrelationEngine::default();
    b.apply(&open(OPEN_1, Some(SHARE_DATA), "f", READ), ft_day_a());
    b.apply(&bind(SHARE_DATA, "DATA"), ft_day_a());
    assert_eq!(a.resolved_table(), b.resolved_table());
}

#[test]
fn try_apply_refuses_a_full_counter() {
    let mut e = CorrelationEngine::default();
    assert!(e.try_apply(&open(OPEN_1, None, "f", READ), ft_day_a()).unwrap().is_some());
    assert!(e.try_apply(&bind(SHARE_DATA, "DATA"), ft_day_a()).unwrap().is_none());
    e.metadata_skipped = u64::MAX;
    assert_eq!(
        e.try_apply(&open(OPEN_1, None, "f", META), ft_day_a()).unwrap_err(),
        CounterFull
    );
    assert_eq!(e.metadata_skipped, u64::MAX);
}

#[test]
fn emitted_rows_only_grow() {
    let mut e = joined_engine();
    let before = e.emit_rows();
    assert!(!before.is_empty());
    e.apply(&open(OPEN_1, Some(SHARE_DATA), "Brand\\New.txt", WRITE), ft_day_b());
    e.apply(&open(OPEN_2, Some(SHARE_DATA), "brand\\new.txt", READ), ft_day_b());
    let after = e.emit_rows();
    for b in &before {
        let a = after
            .iter()
            .find(|a| (&a.share, &a.path, a.day) == (&b.share, &b.path, b.day))
            .expect("still emitted");
        assert!(a.reads >= b.reads && a.writes >= b.writes);
        assert_eq!((a.alloc_bytes, &a.flags), (b.alloc_bytes, &b.flags));
    }
}
