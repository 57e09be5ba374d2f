use smb_heat_spike::correlation::{CorrelationEngine, FILETIME_TO_UNIX_SECS};
use smb_heat_spike::events::SmbEvent;
use smb_heat_spike::flush::{
    continues, observe, post_failed_line, posted_line, server_name, Flusher, Wake,
};
use smb_heat_spike::ingest::{classify, Disposition};

const RUN: &str = "5b08749f-1234-5678-9abc-def012345678";

fn open(path: &str) -> SmbEvent {
    SmbEvent::Open { open: 1, tree: 2, share_guid: Some(3), path: path.into(), access: 1 }
}

fn noon() -> i64 {
    (1_610_712_000 + FILETIME_TO_UNIX_SECS) * 10_000_000
}

#[test]
fn every_wake_flushes_and_some_stop() {
    assert!(continues(Wake::FlushNow));
    assert!(continues(Wake::Timeout));
    assert!(!continues(Wake::Stop));
    assert!(!continues(Wake::Disconnected));
}

#[test]
fn progress_and_dumps_by_count() {
    let mut e = CorrelationEngine::default();
    let mut progress = 0;
    let mut dumps = 0;
    for _ in 0..1000 {
        let o = observe(&mut e, &open("f"), noon()).unwrap();
        assert!(o.line.unwrap().ends_with("access=0x00000001 Read day=18642"));
        progress += o.progress.is_some() as u32;
        dumps += o.dump_due as u32;
    }
    assert_eq!((progress, dumps), (5, 1));
    let bind = SmbEvent::TreeConnect { share_guid: 3, share: "DATA".into() };
    let o = observe(&mut e, &bind, noon()).unwrap();
    assert_eq!(o.line, None);
    assert_eq!(
        o.progress.as_deref(),
        Some("  [r/w opens: 1000 | metadata-skipped: 0 | keys: 1 (1 named, 0 UNKNOWN) | shares bound: 1]")
    );
}

#[test]
fn dumps_are_numbered_and_documents_only_made_for_a_sink() {
    let mut e = CorrelationEngine::default();
    observe(&mut e, &open("Dir\\f"), noon()).unwrap();
    let mut silent = Flusher::start("s".into(), RUN.into(), vec![], false);
    let d = silent.flush(&e, "");
    assert_eq!((d.seq, silent.dump_seq), (1, 2));
    assert!(d.document.is_none());
    assert_eq!(d.console, e.resolved_table());

    let mut f = Flusher::start("sgifs01".into(), RUN.into(), vec!["data".into()], true);
    for seq in 1..=3 {
        let d = f.flush(&e, "2026-06-10T00:00:00+00:00");
        assert_eq!(d.seq, seq);
        match classify(d.document.unwrap().as_bytes()) {
            Disposition::Accepted { header, rows } => {
                assert_eq!(header.dump_seq, seq);
                assert_eq!(header.server, "sgifs01");
                assert_eq!(rows, 1);
            }
            other => panic!("{other:?}"),
        }
    }
    assert_eq!(f.dump_seq, 4);
}

#[test]
fn names_and_log_lines() {
    assert_eq!(server_name(Some("SGIFS01")), "sgifs01");
    assert_eq!(server_name(None), "");
    assert_eq!(posted_line(3, 200), "emit: POST dump_seq=3 -> 200");
    assert_eq!(post_failed_line(4, "timed out"), "emit: POST dump_seq=4 failed: timed out");
}
