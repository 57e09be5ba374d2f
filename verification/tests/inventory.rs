use smb_heat_spike::correlation::{classify_key, KeyOutcome};
use smb_heat_spike::inventory::{
    classify_attrs, cluster_bytes, normalize_path, round_up, Attrs, ShareSet, Visit,
    Walk,
    FILE_ATTRIBUTE_COMPRESSED, FILE_ATTRIBUTE_DIRECTORY, FILE_ATTRIBUTE_REPARSE_POINT,
    FILE_ATTRIBUTE_SPARSE_FILE,
};

use smb_heat_spike::paths::relative;

#[test]
fn normalize_matches_650_name_convention() {
    let root = r"C:\data";
    assert_eq!(
        normalize_path(r"C:\data\Reports\Q3.XLSX", root),
        "reports\\q3.xlsx"
    );
    assert_eq!(normalize_path(r"C:\data\Readme.TXT", root), "readme.txt");
    assert_eq!(
        normalize_path(r"C:\data\Team\Sub Dir\File.DAT", root),
        "team\\sub dir\\file.dat"
    );
}

#[test]
fn normalize_edges() {
    // Forward slashes, a root with a separator at its end, and a drive's root.
    assert_eq!(normalize_path("C:/data/A/b", "C:\\data\\"), "a\\b");
    assert_eq!(normalize_path(r"D:\X.txt", r"D:\"), "x.txt");
    // A sibling whose name begins like the root does not lie below it.
    assert_eq!(normalize_path(r"C:\database\x", r"C:\data"), "c:\\database\\x");
    assert_eq!(normalize_path(r"C:\data", r"C:\data"), "");
    assert_eq!(normalize_path(r"C:\other\x", r"C:\data"), "c:\\other\\x");
    assert_eq!(relative(r"C:\data\Ä.TXT", r"C:\data"), "Ä.TXT");
    assert_eq!(normalize_path(r"C:\data\Ä.TXT", r"C:\data"), "ä.txt");
}

#[test]
fn normalize_goes_by_components() {
    assert_eq!(normalize_path(r"C:\data\x", r"C:\data\."), "x");
    assert_eq!(normalize_path(r"C:\data\x", r"C:\\.\data\\"), "x");
    assert_eq!(normalize_path(r"C:\.\data\\x", r"C:\data"), "x");
    assert_eq!(normalize_path(r"C:/data/./Sub//x/", r"C:\data"), "sub\\\\x");
    assert_eq!(normalize_path(r"C:\data\x\.", r"C:\data"), "x");
    assert_eq!(normalize_path(r"c:\data\x", r"C:\data"), "x");
    assert_eq!(normalize_path(r"C:x", "C:"), "x");
    assert_eq!(normalize_path(r"C:\x", "C:"), "x");
    assert_eq!(normalize_path(r"\\srv\share\a", r"\\srv\share"), "a");
    assert_eq!(normalize_path(r"\\srv\share\a", r"\\srv\share\"), "a");
    assert_eq!(normalize_path("//srv/share/./a", r"\\srv\share"), "a");
    assert_eq!(normalize_path(r"\\srv\share\dir\a", r"\\srv\share\dir"), "a");
    assert_eq!(normalize_path(r"\\srv\share\a", ""), r"srv\share\a");
    // A server with its share is no rooted path, nor another share.
    assert_eq!(normalize_path(r"\\server\share\f", r"\server\share"), r"server\share\f");
    assert_eq!(normalize_path(r"\server\share\f", r"\\server\share"), r"server\share\f");
    assert_eq!(normalize_path(r"\\srv\other\a", r"\\srv\share"), r"srv\other\a");
    assert_eq!(normalize_path(r"\\srv\share\a", r"\\srv"), r"srv\share\a");
    assert_eq!(normalize_path(r".\a\b", r".\a"), "b");
    assert_eq!(normalize_path(r".\a\b", ""), r".\a\b");
    // A `.` at the front, a root of its own and a drive are part of a path.
    assert_eq!(normalize_path(r".\a\b", "a"), r".\a\b");
    assert_eq!(normalize_path(r"\a\b", "a"), r"a\b");
    assert_eq!(normalize_path(r"a\b", r"\a"), r"a\b");
    assert_eq!(normalize_path(r"D:\data\x", r"C:\data"), r"d:\data\x");
    assert_eq!(normalize_path(r"C:\data", r"C:\data\x"), r"c:\data");
    // What is not below the root stays as it is, its end with it.
    assert_eq!(normalize_path(r"C:\other\.\", r"C:\data"), r"c:\other\.\");
}

#[test]
fn round_up_to_cluster() {
    let c = 4096;
    assert_eq!(round_up(0, c), 0);
    assert_eq!(round_up(4096, c), 4096);
    assert_eq!(round_up(4097, c), 8192);
    assert_eq!(round_up(1, c), 4096);
    assert_eq!(round_up(8192, c), 8192);
}

#[test]
fn round_up_without_a_cluster() {
    assert_eq!(round_up(77, 0), 77);
    assert_eq!(round_up(u64::MAX, 1), u64::MAX);
    assert_eq!(cluster_bytes(8, 512), 4096);
    assert_eq!(cluster_bytes(u32::MAX, u32::MAX), 18446744065119617025);
}

#[test]
fn attribute_classification() {
    assert_eq!(
        classify_attrs(0x020),
        Attrs { is_dir: false, sparse: false, compressed: false, reparse: false }
    );
    assert!(classify_attrs(FILE_ATTRIBUTE_DIRECTORY).is_dir);
    let a = classify_attrs(FILE_ATTRIBUTE_SPARSE_FILE | FILE_ATTRIBUTE_COMPRESSED);
    assert!(a.sparse && a.compressed && !a.is_dir && !a.reparse);
    let a = classify_attrs(FILE_ATTRIBUTE_REPARSE_POINT | FILE_ATTRIBUTE_DIRECTORY);
    assert!(a.reparse && a.is_dir);
}

fn entry(depth: usize, path: &str, attributes: u32, len: u64) -> Visit {
    Visit::Entry { depth, path: path.into(), attributes, len }
}

#[test]
fn walk_collects_and_sums_up() {
    let mut w = Walk::start(4096);
    let root = r"C:\data";
    let visits = [
        entry(0, r"C:\data", FILE_ATTRIBUTE_DIRECTORY, 0),
        Visit::Unreadable,
        entry(1, r"C:\data\Dir", FILE_ATTRIBUTE_DIRECTORY, 0),
        entry(2, r"C:\data\Dir\B.bin", FILE_ATTRIBUTE_SPARSE_FILE, 5000),
        entry(2, r"C:\data\Dir\A.bin", FILE_ATTRIBUTE_COMPRESSED, 8192),
        entry(1, r"C:\data\big.bin", 0x20, 100_000),
        entry(1, r"C:\data\junction", FILE_ATTRIBUTE_REPARSE_POINT, 1),
    ];
    for v in &visits {
        w.visit("Share", root, v);
    }
    assert_eq!(w.entries.len(), 4);
    assert_eq!(w.reparse_skipped, 1);
    let e = w.entries.get(&("Share".into(), "dir\\b.bin".into())).unwrap();
    assert_eq!((e.logical, e.alloc, e.is_dir, e.sparse, e.compressed), (5000, 8192, false, true, false));
    let t = w.totals();
    assert_eq!((t.files, t.dirs, t.logical, t.alloc), (3, 1, 113_192, 118_784));
    assert_eq!((t.sparse, t.compressed), (1, 1));
    assert_eq!(
        w.summary("0.000", "0.001"),
        "cluster_size: 4096 bytes\n\
         files: 3   dirs: 1\n\
         logical: 113192 bytes (0.000 TB)\n\
         alloc:   118784 bytes (0.001 TB)\n\
         sparse: 1   compressed: 1   reparse-skipped: 1\n\
         top 10 files by alloc:\n\
         \u{20}         102400 alloc  (        100000 logical)  big.bin\n\
         \u{20}           8192 alloc  (          8192 logical)  dir\\a.bin\n\
         \u{20}           8192 alloc  (          5000 logical)  dir\\b.bin\n"
    );
}

#[test]
fn summary_orders_files_of_one_size_and_path_by_share() {
    let mut w = Walk::start(1);
    w.visit("b", "r", &entry(1, "r\\f", 0, 5));
    w.visit("a", "r", &entry(1, "r\\f", FILE_ATTRIBUTE_SPARSE_FILE, 5));
    let mut v = Walk::start(1);
    v.visit("a", "r", &entry(1, "r\\f", FILE_ATTRIBUTE_SPARSE_FILE, 5));
    v.visit("b", "r", &entry(1, "r\\f", 0, 5));
    assert_eq!(w.summary("x", "y"), v.summary("x", "y"));
    assert_eq!(w.totals().files, 2);
}

#[test]
fn a_walk_says_what_it_can_take() {
    let mut w = Walk::start(4096);
    assert!(w.takes(&Visit::Unreadable));
    assert!(w.takes(&entry(0, "r", 0, u64::MAX)));
    assert!(w.takes(&entry(1, r"r\f", 0, u64::MAX - 4095)));
    assert!(!w.takes(&entry(1, r"r\f", 0, u64::MAX - 4094)));
    assert!(w.takes(&entry(1, r"r\l", FILE_ATTRIBUTE_REPARSE_POINT, u64::MAX)));
    w.reparse_skipped = u64::MAX;
    assert!(!w.takes(&entry(1, r"r\l", FILE_ATTRIBUTE_REPARSE_POINT, 1)));
    assert!(w.adds_up());
    w.visit("s", "r", &entry(1, r"r\f", 0, u64::MAX - 4095));
    assert!(w.adds_up());
    w.visit("s", "r", &entry(1, r"r\d", FILE_ATTRIBUTE_DIRECTORY, 5));
    assert!(w.adds_up());
    w.visit("s", "r", &entry(1, r"r\g", 0, 4096));
    assert!(!w.adds_up());
}

#[test]
fn summary_lists_ten_files() {
    let mut w = Walk::start(1);
    for i in 0..15u64 {
        w.visit("s", "r", &entry(1, &format!("r\\f{i:02}"), 0, i));
    }
    let s = w.summary("x", "y");
    let listed: Vec<&str> = s.lines().skip(6).collect();
    assert_eq!(listed.len(), 10);
    assert!(listed[0].ends_with("f14"));
    assert!(listed[9].ends_with("f05"));
}

#[test]
fn a_walked_file_joins_to_its_opens() {
    let mut w = Walk::start(4096);
    w.visit("data", "C:\\data", &entry(2, "C:\\data\\Reports\\Q3.XLSX", 0x20, 5000));
    let mut walked = ShareSet::new();
    walked.insert("data".to_string(), ());
    assert_eq!(
        classify_key("Data", "reports\\q3.xlsx", &w.entries, &walked),
        KeyOutcome::Leaf { alloc_bytes: 8192 }
    );
}

#[test]
fn entries_are_files_or_directories() {
    let mut w = Walk::start(4096);
    w.visit("s", "/r", &entry(1, "/r/a", 0x10, 0));
    w.visit("s", "/r", &entry(2, "/r/a/b", 0x20, 1));
    w.visit("s", "/r", &entry(2, "/r/a/c", 0x820, 0));
    let t = w.totals();
    assert_eq!((t.files, t.dirs, t.compressed), (2, 1, 1));
    assert_eq!(t.files + t.dirs, w.entries.len() as u64);
    assert_eq!((t.logical, t.alloc), (1, 4096));
    // A reparse point is never sized, however large it says it is.
    w.visit("s", "/r", &entry(1, "/r/j", 0x400, u64::MAX));
    assert_eq!((w.reparse_skipped, w.entries.len()), (1, 3));
}
