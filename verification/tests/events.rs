use smb_heat_spike::discover::discover_line;
use smb_heat_spike::events::{
    decode_socket_address, first_guid, first_socket_addr, first_str, first_u64, fmt_guid_key,
    fmt_run_id, guid_key, parse_event, Guid, Property, SmbEvent, E_CONN_ACCEPT, E_OPEN,
    E_TREE_ALLOC, KW_RUNDOWN, MASK_CORRELATION,
};
use smb_heat_spike::ingest::is_valid_uuid;
use smb_heat_spike::lifecycle;

fn prop(name: &str) -> Property {
    Property {
        name: name.into(),
        text: None,
        guid: None,
        quad: None,
        dword: None,
        word: None,
        bytes: None,
    }
}

fn text(name: &str, v: &str) -> Property {
    Property { text: Some(v.into()), ..prop(name) }
}

fn quad(name: &str, v: u64) -> Property {
    Property { quad: Some(v), ..prop(name) }
}

fn guid(name: &str, g: Guid) -> Property {
    Property { guid: Some(g), ..prop(name) }
}

fn sample() -> Guid {
    Guid {
        data1: 0xD48CE617,
        data2: 0x33A2,
        data3: 0x4BC3,
        data4: [0xA5, 0xC7, 0x11, 0xAA, 0x4F, 0x29, 0x61, 0x9E],
    }
}

#[test]
fn guid_keys_render_back() {
    let k = guid_key(sample());
    assert_eq!(k, 0xD48CE617_33A2_4BC3_A5C7_11AA4F29619E);
    assert_eq!(fmt_guid_key(k), "D48CE617-33A2-4BC3-A5C7-11AA4F29619E");
    assert_eq!(fmt_run_id(sample()), "d48ce617-33a2-4bc3-a5c7-11aa4f29619e");
    assert!(is_valid_uuid(&fmt_run_id(sample())));
    assert_eq!(fmt_guid_key(0x10), "00000000-0000-0000-0000-000000000010");
    let mut other = sample();
    other.data4[7] = 0x9F;
    assert_ne!(guid_key(other), k);
}

#[test]
fn masks() {
    assert_eq!(MASK_CORRELATION, 0xF0);
    assert_eq!(KW_RUNDOWN, 0x1_0000);
}

#[test]
fn socket_addresses() {
    let v4 = [2, 0, 1, 187, 192, 168, 0, 17, 0, 0, 0, 0, 0, 0, 0, 0];
    assert_eq!(decode_socket_address(&v4), "192.168.0.17");
    let v6 = |a: [u8; 16]| {
        let mut b = vec![23, 0, 1, 187, 0, 0, 0, 0];
        b.extend_from_slice(&a);
        b.extend_from_slice(&[0; 4]);
        decode_socket_address(&b)
    };
    assert_eq!(v6([0; 16]), "::");
    assert_eq!(v6([0, 0, 0, 0, 0, 0, 0, 0, 0, 0, 0, 0, 0, 0, 0, 1]), "::1");
    assert_eq!(
        v6([0xfe, 0x80, 0, 0, 0, 0, 0, 0, 0x02, 0x0c, 0x29, 0xff, 0xfe, 0x01, 0x02, 0x03]),
        "fe80::20c:29ff:fe01:203"
    );
    assert_eq!(
        v6([0, 0, 0, 0, 0, 0, 0, 0, 0, 0, 0xff, 0xff, 10, 0, 0, 1]),
        "::ffff:10.0.0.1"
    );
    // A single zero group is written out; of two runs of one length the first goes.
    assert_eq!(
        v6([0x20, 0x01, 0, 0, 0, 1, 0, 2, 0, 3, 0, 4, 0, 5, 0, 6]),
        "2001:0:1:2:3:4:5:6"
    );
    assert_eq!(
        v6([0x20, 0x01, 0, 0, 0, 0, 0, 1, 0, 0, 0, 0, 0, 2, 0, 3]),
        "2001::1:0:0:2:3"
    );
    assert_eq!(v6([0, 1, 0, 0, 0, 0, 0, 0, 0, 0, 0, 0, 0, 0, 0, 0]), "1::");
    // Too short, unknown or empty: hexadecimal.
    assert_eq!(decode_socket_address(&[2, 0, 1]), "020001");
    assert_eq!(decode_socket_address(&[17, 0, 0xab, 0xcd]), "1100abcd");
    assert_eq!(decode_socket_address(&[]), "");
}

#[test]
fn first_of_candidates() {
    let record = [prop("A"), text("B", "b"), text("C", "c"), quad("N", 7)];
    assert_eq!(first_str(&record, &["A", "C", "B"]).as_deref(), Some("c"));
    assert_eq!(first_str(&record, &["A", "Z"]), None);
    assert_eq!(first_u64(&record, &["B", "N"]), Some(7));
    let narrow = [
        Property { dword: Some(5), word: Some(6), ..prop("D") },
        Property { word: Some(6), ..prop("W") },
    ];
    assert_eq!(first_u64(&narrow, &["D"]), Some(5));
    assert_eq!(first_u64(&narrow, &["W"]), Some(6));
    assert_eq!(first_guid(&[guid("G", sample())], &["G"]), Some(guid_key(sample())));
    let addr = [Property { bytes: Some(vec![2, 0, 0, 0, 127, 0, 0, 1]), ..prop("Address") }];
    assert_eq!(first_socket_addr(&addr, &["Address"]).as_deref(), Some("127.0.0.1"));
    assert_eq!(first_socket_addr(&addr, &["Other"]), None);
}

#[test]
fn parses_tree_connects_and_opens() {
    let record = [guid("ShareGUID", sample()), text("ShareName", "DATA")];
    match parse_event(E_TREE_ALLOC, &record).unwrap() {
        SmbEvent::TreeConnect { share_guid, share } => {
            assert_eq!(share_guid, guid_key(sample()));
            assert_eq!(share, "DATA");
        }
        other => panic!("{other:?}"),
    }
    assert!(parse_event(E_TREE_ALLOC, &[text("ShareName", "DATA")]).is_none());

    let record = [
        guid("OpenGUID", sample()),
        text("Name", "dir\\f"),
        quad("DesiredAccess", 0x1_0012_0089),
    ];
    match parse_event(E_OPEN, &record).unwrap() {
        SmbEvent::Open { open, tree, share_guid, path, access } => {
            assert_eq!(open, guid_key(sample()));
            assert_eq!(tree, 0);
            assert_eq!(share_guid, None);
            assert_eq!(path, "dir\\f");
            assert_eq!(access, 0x0012_0089);
        }
        other => panic!("{other:?}"),
    }
    assert!(parse_event(E_OPEN, &[text("Name", "f")]).is_none());
    assert!(parse_event(E_CONN_ACCEPT, &record).is_none());
}

#[test]
fn discover_lines() {
    let record = [
        text("Name", "f.txt"),
        guid("OpenGUID", sample()),
        Property { dword: Some(0x1F), ..prop("DesiredAccess") },
        text("UserName", "alice"),
    ];
    assert_eq!(
        discover_line(E_OPEN, &record).as_deref(),
        Some("650  Name=f.txt  OpenGUID=D48CE617-33A2-4BC3-A5C7-11AA4F29619E  DesiredAccess=0x0000001F")
    );
    assert_eq!(discover_line(E_TREE_ALLOC, &record).as_deref(), Some("600  "));
    assert_eq!(
        discover_line(3004, &record).as_deref(),
        Some("3004  OpenGUID=D48CE617-33A2-4BC3-A5C7-11AA4F29619E  UserName=alice  Name=f.txt  DesiredAccess=0x0000001F")
    );
    assert_eq!(discover_line(1, &record), None);
}

#[test]
fn lifecycle_events() {
    let record = [
        quad("ConnId", 3),
        quad("SessionId", 4),
        quad("TreeId", 5),
        text("Address", "10.0.0.1"),
        text("Sid", "S-1-5-18"),
        text("Share", "DATA"),
        text("Name", "f"),
    ];
    let shown = |id: u16, record: &[Property]| {
        lifecycle::parse_event(id, record).map(|e| format!("{e:?}"))
    };
    assert_eq!(
        shown(500, &record).unwrap(),
        "ConnAccept { conn_id: 3, client: \"10.0.0.1\" }"
    );
    assert_eq!(shown(501, &record).unwrap(), "ConnEnd { conn_id: 3 }");
    assert_eq!(shown(502, &record).unwrap(), "ConnEnd { conn_id: 3 }");
    assert_eq!(
        shown(552, &record).unwrap(),
        "SessionAuth { session_id: 4, conn_id: Some(3), user: \"S-1-5-18\" }"
    );
    assert_eq!(
        shown(552, &[quad("SessionId", 4)]).unwrap(),
        "SessionAuth { session_id: 4, conn_id: None, user: \"<unknown>\" }"
    );
    assert_eq!(shown(554, &record).unwrap(), "SessionEnd { session_id: 4 }");
    assert_eq!(shown(555, &record).unwrap(), "SessionEnd { session_id: 4 }");
    assert_eq!(
        shown(600, &[quad("TreeId", 5)]).unwrap(),
        "TreeConnect { tree_id: 5, session_id: 0, share: \"\" }"
    );
    assert_eq!(shown(601, &record).unwrap(), "TreeEnd { tree_id: 5 }");
    assert_eq!(shown(602, &record).unwrap(), "TreeEnd { tree_id: 5 }");
    assert_eq!(
        shown(650, &record).unwrap(),
        "Open { session_id: Some(4), tree_id: Some(5), path: \"f\" }"
    );
    assert!(shown(650, &[]).is_some());
    assert_eq!(shown(500, &[]), None);
    assert_eq!(shown(550, &record), None);
}
