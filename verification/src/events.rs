//! SMBServer provider constants, the normalized event, and the extraction of it
//! from a record's properties.
//!
//! The correlation keys of the provider are per-object GUIDs (`ConnectionGUID`,
//! `SessionGUID`, `TreeConnectGUID`, `ShareGUID`, `OpenGUID`), folded here into a
//! `u128`. A record is the list of its properties, each with what every typed
//! parse of it gives; the trace session fills it in.

use crate::text::{push_dec, push_hex, push_hex_short, same_text};
use crate::text::{dec, hex, hex_short, opt_text};
use vstd::arithmetic::div_mod::lemma_fundamental_div_mod_converse;
use vstd::prelude::*;

verus! {

// ---- provider facts -------------------------------------------------------

// Keyword bits. Each lifecycle family is tagged with exactly one of these, so one
// mask selects the correlation backbone and leaves out the per-I/O events.
pub const KW_CONNECTION: u64 = 0x0000_0010;

pub const KW_SESSION: u64 = 0x0000_0020;

pub const KW_TREECONNECT: u64 = 0x0000_0040;

pub const KW_FILE: u64 = 0x0000_0080;

pub const KW_RUNDOWN: u64 = 0x0001_0000;

/// The open-centric correlation mask: connection, session, tree connect and file.
pub const MASK_CORRELATION: u64 = KW_CONNECTION | KW_SESSION | KW_TREECONNECT | KW_FILE;

// Event ids on the Analytic channel.
pub const E_CONN_ACCEPT: u16 = 500;

pub const E_CONN_DISC: u16 = 501;

pub const E_CONN_TERM: u16 = 502;

pub const E_SESS_ALLOC: u16 = 550;

pub const E_SESS_AUTH: u16 = 552;

pub const E_SESS_TERM: u16 = 554;

pub const E_SESS_CLOSE: u16 = 555;

pub const E_TREE_ALLOC: u16 = 600;

pub const E_TREE_DISC: u16 = 601;

pub const E_TREE_TERM: u16 = 602;

pub const E_OPEN: u16 = 650;

pub const E_OPEN_CLOSE: u16 = 654;

pub const E_CREATE_RESP: u16 = 108;

// Rundown enumeration of pre-existing objects.
pub const E_FILE_RUNDOWN: u16 = 3004;

pub const E_SESSION_RUNDOWN: u16 = 3005;

pub const E_SHARE_RUNDOWN: u16 = 3006;

/// Every event id the discover mode prints.
pub const DISCOVER_TARGETS: [u16; 16] = [
    E_CONN_ACCEPT,
    E_CONN_DISC,
    E_CONN_TERM,
    E_SESS_ALLOC,
    E_SESS_AUTH,
    E_SESS_TERM,
    E_SESS_CLOSE,
    E_TREE_ALLOC,
    E_TREE_DISC,
    E_TREE_TERM,
    E_OPEN,
    E_OPEN_CLOSE,
    E_CREATE_RESP,
    E_FILE_RUNDOWN,
    E_SESSION_RUNDOWN,
    E_SHARE_RUNDOWN,
];

// Property names, from the provider's event templates.
pub const P_CONN_GUID: [&'static str; 1] = ["ConnectionGUID"];

pub const P_SESSION_GUID: [&'static str; 1] = ["SessionGUID"];

pub const P_TREE_GUID: [&'static str; 1] = ["TreeConnectGUID"];

pub const P_SHARE_GUID: [&'static str; 1] = ["ShareGUID"];

pub const P_OPEN_GUID: [&'static str; 1] = ["OpenGUID"];

pub const P_USER_NAME: [&'static str; 1] = ["UserName"];

pub const P_DOMAIN_NAME: [&'static str; 1] = ["DomainName"];

pub const P_SHARE_NAME: [&'static str; 1] = ["ShareName"];

pub const P_SCOPE_NAME: [&'static str; 1] = ["ScopeName"];

pub const P_FILE_NAME: [&'static str; 1] = ["Name"];

pub const P_ADDRESS: [&'static str; 1] = ["Address"];

pub const P_TRANSPORT: [&'static str; 1] = ["TransportName"];

pub const P_DESIRED_ACCESS: [&'static str; 1] = ["DesiredAccess"];

// ---- correlation key ------------------------------------------------------

/// A 128-bit identifier in the Windows field layout.
#[derive(Debug, Clone, Copy)]
pub struct Guid {
    pub data1: u32,
    pub data2: u16,
    pub data3: u16,
    pub data4: [u8; 8],
}

/// A normalized correlation key: the 128 bits of a GUID.
pub type GuidKey = u128;

/// The number that the bytes `b` spell, most significant first.
pub open spec fn big_endian(b: Seq<u8>) -> nat
    decreases b.len(),
{
    if b.len() == 0 {
        0
    } else {
        big_endian(b.drop_last()) * 256 + b.last() as nat
    }
}

/// The 128 bits of a GUID, `data1` highest.
pub open spec fn guid_value(g: Guid) -> nat {
    (g.data1 * 0x1_0000_0000_0000_0000_0000_0000 + g.data2 * 0x1_0000_0000_0000_0000_0000
        + g.data3 * 0x1_0000_0000_0000_0000 + big_endian(g.data4@)) as nat
}

proof fn lemma_big_endian_bound(b: Seq<u8>)
    ensures
        b.len() <= 8 ==> big_endian(b) <= u64::MAX,
        b.len() == 0 ==> big_endian(b) < 1,
        b.len() == 1 ==> big_endian(b) < 0x100,
        b.len() == 2 ==> big_endian(b) < 0x1_0000,
        b.len() == 3 ==> big_endian(b) < 0x100_0000,
        b.len() == 4 ==> big_endian(b) < 0x1_0000_0000,
        b.len() == 5 ==> big_endian(b) < 0x100_0000_0000,
        b.len() == 6 ==> big_endian(b) < 0x1_0000_0000_0000,
        b.len() == 7 ==> big_endian(b) < 0x100_0000_0000_0000,
    decreases b.len(),
{
    if b.len() > 0 {
        lemma_big_endian_bound(b.drop_last());
    }
}

/// Fold a GUID into its key.
pub fn guid_key(g: Guid) -> (r: GuidKey)
    ensures
        r == guid_value(g),
{
    let mut low: u64 = 0;
    let mut i: usize = 0;
    while i < 8
        invariant
            i <= 8,
            low == big_endian(g.data4@.take(i as int)),
        decreases 8 - i,
    {
        proof {
            let more = g.data4@.take(i + 1);
            assert(more.drop_last() =~= g.data4@.take(i as int));
            lemma_big_endian_bound(more);
        }
        low = low * 256 + g.data4[i] as u64;
        i = i + 1;
    }
    assert(g.data4@.take(8) =~= g.data4@);
    let (d1, d2, d3) = (g.data1, g.data2, g.data3);
    let key = ((d1 as u128) << 96) | ((d2 as u128) << 80) | ((d3 as u128) << 64) | (low as u128);
    assert(((d1 as u128) << 96) | ((d2 as u128) << 80) | ((d3 as u128) << 64) | (low as u128) == d1
        * 0x1_0000_0000_0000_0000_0000_0000 + d2 * 0x1_0000_0000_0000_0000_0000 + d3
        * 0x1_0000_0000_0000_0000 + low) by (bit_vector);
    key
}

/// The bytes in hexadecimal, two digits each.
pub open spec fn bytes_hex(b: Seq<u8>, upper: bool) -> Seq<char>
    decreases b.len(),
{
    if b.len() == 0 {
        Seq::empty()
    } else {
        bytes_hex(b.drop_last(), upper) + hex(b.last() as nat, 2, upper)
    }
}

/// The textual form of 128 bits: hexadecimal groups of 8, 4, 4, 4 and 12 digits.
pub open spec fn guid_text(k: nat, upper: bool) -> Seq<char> {
    hex(k / 0x1_0000_0000_0000_0000_0000_0000, 8, upper).push('-') + hex(
        (k / 0x1_0000_0000_0000_0000_0000) % 0x1_0000,
        4,
        upper,
    ).push('-') + hex((k / 0x1_0000_0000_0000_0000) % 0x1_0000, 4, upper).push('-') + hex(
        (k / 0x1_0000_0000_0000) % 0x1_0000,
        4,
        upper,
    ).push('-') + hex(k % 0x1_0000_0000_0000, 12, upper)
}

/// The textual form of a key.
fn fmt_guid_digits(k: GuidKey, upper: bool) -> (r: String)
    ensures
        r@ == guid_text(k as nat, upper),
{
    let mut s = String::new();
    push_hex(&mut s, (k / 0x1_0000_0000_0000_0000_0000_0000) as u64, 8, upper);
    s.push('-');
    push_hex(&mut s, ((k / 0x1_0000_0000_0000_0000_0000) % 0x1_0000) as u64, 4, upper);
    s.push('-');
    push_hex(&mut s, ((k / 0x1_0000_0000_0000_0000) % 0x1_0000) as u64, 4, upper);
    s.push('-');
    push_hex(&mut s, ((k / 0x1_0000_0000_0000) % 0x1_0000) as u64, 4, upper);
    s.push('-');
    push_hex(&mut s, (k % 0x1_0000_0000_0000) as u64, 12, upper);
    assert(s@ =~= guid_text(k as nat, upper));
    s
}

/// Render a key in the canonical form, in upper case.
pub fn fmt_guid_key(k: GuidKey) -> (r: String)
    ensures
        r@ == guid_text(k as nat, true),
{
    fmt_guid_digits(k, true)
}

/// The run identifier of a freshly made GUID: its textual form in lower case.
pub fn fmt_run_id(g: Guid) -> (r: String)
    ensures
        r@ == guid_text(guid_value(g), false),
{
    fmt_guid_digits(guid_key(g), false)
}

proof fn lemma_big_endian_hex(b: Seq<u8>, upper: bool)
    ensures
        hex(big_endian(b), 2 * b.len(), upper) == bytes_hex(b, upper),
    decreases b.len(),
{
    if b.len() > 0 {
        let n = big_endian(b);
        let init = big_endian(b.drop_last());
        let last = b.last() as nat;
        let w = 2 * b.len();
        lemma_big_endian_hex(b.drop_last(), upper);
        reveal_with_fuel(hex, 3);
        assert(n / 16 == init * 16 + last / 16);
        assert(n % 16 == last % 16);
        assert((n / 16) / 16 == init);
        assert((n / 16) % 16 == last / 16);
        assert((last / 16) % 16 == last / 16);
        assert(hex(n, w, upper) == hex(n / 16, (w - 1) as nat, upper).push(
            crate::text::hex_digit(n % 16, upper),
        ));
        assert(hex(n / 16, (w - 1) as nat, upper) == hex(init, (w - 2) as nat, upper).push(
            crate::text::hex_digit((n / 16) % 16, upper),
        ));
        assert(hex(n, w, upper) =~= hex(init, (w - 2) as nat, upper) + hex(last, 2, upper));
    }
}

proof fn lemma_big_endian_take(b: Seq<u8>, i: int)
    requires
        0 <= i < b.len(),
    ensures
        big_endian(b.take(i + 1)) == big_endian(b.take(i)) * 256 + b[i],
{
    assert(b.take(i + 1).drop_last() =~= b.take(i));
}

proof fn lemma_big_endian_8(b: Seq<u8>)
    requires
        b.len() == 8,
    ensures
        big_endian(b) == big_endian(b.take(2)) * 0x1_0000_0000_0000 + big_endian(b.skip(2)),
        big_endian(b.take(2)) < 0x1_0000,
        big_endian(b.skip(2)) < 0x1_0000_0000_0000,
{
    let t = b.skip(2);
    lemma_big_endian_bound(b.take(2));
    lemma_big_endian_bound(t);
    assert(b.take(8) =~= b);
    assert(t.take(6) =~= t);
    assert(big_endian(t.take(0)) == 0);
    lemma_big_endian_take(b, 2);
    lemma_big_endian_take(b, 3);
    lemma_big_endian_take(b, 4);
    lemma_big_endian_take(b, 5);
    lemma_big_endian_take(b, 6);
    lemma_big_endian_take(b, 7);
    lemma_big_endian_take(t, 0);
    lemma_big_endian_take(t, 1);
    lemma_big_endian_take(t, 2);
    lemma_big_endian_take(t, 3);
    lemma_big_endian_take(t, 4);
    lemma_big_endian_take(t, 5);
}

proof fn lemma_key_fields(k: int, d1: int, d2: int, d3: int, high: int, low: int)
    requires
        0 <= d1,
        0 <= d2 < 0x1_0000,
        0 <= d3 < 0x1_0000,
        0 <= high < 0x1_0000,
        0 <= low < 0x1_0000_0000_0000,
        k == d1 * 0x1_0000_0000_0000_0000_0000_0000 + d2 * 0x1_0000_0000_0000_0000_0000 + d3
            * 0x1_0000_0000_0000_0000 + high * 0x1_0000_0000_0000 + low,
    ensures
        k / 0x1_0000_0000_0000_0000_0000_0000 == d1,
        (k / 0x1_0000_0000_0000_0000_0000) % 0x1_0000 == d2,
        (k / 0x1_0000_0000_0000_0000) % 0x1_0000 == d3,
        (k / 0x1_0000_0000_0000) % 0x1_0000 == high,
        k % 0x1_0000_0000_0000 == low,
{
    let q3 = d1 * 0x1_0000 + d2;
    let q2 = q3 * 0x1_0000 + d3;
    let q1 = q2 * 0x1_0000 + high;
    let r2 = high * 0x1_0000_0000_0000 + low;
    let r3 = d3 * 0x1_0000_0000_0000_0000 + r2;
    let r4 = d2 * 0x1_0000_0000_0000_0000_0000 + r3;
    lemma_fundamental_div_mod_converse(k, 0x1_0000_0000_0000_0000_0000_0000, d1, r4);
    lemma_fundamental_div_mod_converse(k, 0x1_0000_0000_0000_0000_0000, q3, r3);
    lemma_fundamental_div_mod_converse(k, 0x1_0000_0000_0000_0000, q2, r2);
    lemma_fundamental_div_mod_converse(k, 0x1_0000_0000_0000, q1, low);
    lemma_fundamental_div_mod_converse(q3, 0x1_0000, d1, d2);
    lemma_fundamental_div_mod_converse(q2, 0x1_0000, q3, d3);
    lemma_fundamental_div_mod_converse(q1, 0x1_0000, q2, high);
}

/// The key of a GUID renders back field by field: `data1`, `data2`, `data3`, the
/// first two bytes of `data4`, and its other six.
pub proof fn law_guid_text_shows_fields(g: Guid, upper: bool)
    ensures
        guid_text(guid_value(g), upper) == hex(g.data1 as nat, 8, upper).push('-') + hex(
            g.data2 as nat,
            4,
            upper,
        ).push('-') + hex(g.data3 as nat, 4, upper).push('-') + bytes_hex(
            g.data4@.take(2),
            upper,
        ).push('-') + bytes_hex(g.data4@.skip(2), upper),
{
    let k = guid_value(g);
    let high = big_endian(g.data4@.take(2));
    let low = big_endian(g.data4@.skip(2));
    lemma_big_endian_8(g.data4@);
    lemma_big_endian_hex(g.data4@.take(2), upper);
    lemma_big_endian_hex(g.data4@.skip(2), upper);
    lemma_key_fields(k as int, g.data1 as int, g.data2 as int, g.data3 as int, high as int, low as int);
}

proof fn lemma_big_endian_injective(a: Seq<u8>, b: Seq<u8>)
    requires
        a.len() == b.len(),
        big_endian(a) == big_endian(b),
    ensures
        a == b,
    decreases a.len(),
{
    if a.len() > 0 {
        lemma_big_endian_injective(a.drop_last(), b.drop_last());
        assert(a =~= a.drop_last().push(a.last()));
        assert(b =~= b.drop_last().push(b.last()));
    } else {
        assert(a =~= b);
    }
}

/// Different GUIDs have different keys.
pub proof fn law_guid_key_injective(a: Guid, b: Guid)
    requires
        guid_value(a) == guid_value(b),
    ensures
        a.data1 == b.data1,
        a.data2 == b.data2,
        a.data3 == b.data3,
        a.data4@ == b.data4@,
{
    lemma_big_endian_8(a.data4@);
    lemma_big_endian_8(b.data4@);
    let (ha, la) = (big_endian(a.data4@.take(2)) as int, big_endian(a.data4@.skip(2)) as int);
    let (hb, lb) = (big_endian(b.data4@.take(2)) as int, big_endian(b.data4@.skip(2)) as int);
    let k = guid_value(a) as int;
    lemma_key_fields(k, a.data1 as int, a.data2 as int, a.data3 as int, ha, la);
    lemma_key_fields(k, b.data1 as int, b.data2 as int, b.data3 as int, hb, lb);
    lemma_big_endian_injective(a.data4@, b.data4@);
}

// ---- records --------------------------------------------------------------

/// One property of a record: its name, and what each typed parse of that name gives.
#[derive(Debug, Clone)]
pub struct Property {
    pub name: String,
    pub text: Option<String>,
    pub guid: Option<Guid>,
    pub quad: Option<u64>,
    pub dword: Option<u32>,
    pub word: Option<u16>,
    pub bytes: Option<Vec<u8>>,
}

/// The first property called `name`.
pub open spec fn property(record: Seq<Property>, name: Seq<char>) -> Option<Property>
    decreases record.len(),
{
    if record.len() == 0 {
        None
    } else if record[0].name@ == name {
        Some(record[0])
    } else {
        property(record.drop_first(), name)
    }
}

/// `name` read as a string.
pub open spec fn text_at(record: Seq<Property>, name: Seq<char>) -> Option<Seq<char>> {
    match property(record, name) {
        Some(p) => opt_text(p.text),
        None => None,
    }
}

/// `name` read as a GUID, as a key.
pub open spec fn guid_at(record: Seq<Property>, name: Seq<char>) -> Option<nat> {
    match property(record, name) {
        Some(p) => match p.guid {
            Some(g) => Some(guid_value(g)),
            None => None,
        },
        None => None,
    }
}

/// `name` read as an unsigned integer: the widest width that parses.
pub open spec fn number_at(record: Seq<Property>, name: Seq<char>) -> Option<nat> {
    match property(record, name) {
        Some(p) => match (p.quad, p.dword, p.word) {
            (Some(v), _, _) => Some(v as nat),
            (None, Some(v), _) => Some(v as nat),
            (None, None, Some(v)) => Some(v as nat),
            (None, None, None) => None,
        },
        None => None,
    }
}

/// `name` read as raw bytes, decoded as a socket address.
pub open spec fn address_at(record: Seq<Property>, name: Seq<char>) -> Option<Seq<char>> {
    match property(record, name) {
        Some(p) => match p.bytes {
            Some(b) => Some(socket_address_text(b@)),
            None => None,
        },
        None => None,
    }
}

/// The first of `names` that `read` gives something for.
pub open spec fn first_of<A>(names: Seq<&str>, read: spec_fn(Seq<char>) -> Option<A>) -> Option<A>
    decreases names.len(),
{
    if names.len() == 0 {
        None
    } else if read(names[0]@) is Some {
        read(names[0]@)
    } else {
        first_of(names.drop_first(), read)
    }
}

fn find<'a>(record: &'a [Property], name: &str) -> (r: Option<&'a Property>)
    ensures
        match r {
            Some(p) => property(record@, name@) == Some(*p),
            None => property(record@, name@) is None,
        },
{
    let mut i: usize = 0;
    assert(record@.skip(0) =~= record@);
    while i < record.len()
        invariant
            i <= record@.len(),
            property(record@, name@) == property(record@.skip(i as int), name@),
        decreases record@.len() - i,
    {
        assert(record@.skip(i as int)[0] == record@[i as int]);
        if same_text(record[i].name.as_str(), name) {
            return Some(&record[i]);
        }
        assert(record@.skip(i as int).drop_first() =~= record@.skip(i + 1));
        i = i + 1;
    }
    None
}

/// Try each candidate name as a string property; the first that parses.
pub fn first_str(record: &[Property], names: &[&str]) -> (r: Option<String>)
    ensures
        opt_text(r) == first_of(names@, |n: Seq<char>| text_at(record@, n)),
{
    let ghost read = |n: Seq<char>| text_at(record@, n);
    let mut i: usize = 0;
    assert(names@.skip(0) =~= names@);
    while i < names.len()
        invariant
            i <= names@.len(),
            read == (|n: Seq<char>| text_at(record@, n)),
            first_of(names@, read) == first_of(names@.skip(i as int), read),
        decreases names@.len() - i,
    {
        assert(names@.skip(i as int)[0] == names@[i as int]);
        assert(names@.skip(i as int).drop_first() =~= names@.skip(i + 1));
        if let Some(p) = find(record, names[i]) {
            if let Some(v) = &p.text {
                return Some(v.clone());
            }
        }
        i = i + 1;
    }
    None
}

/// An optional key as a number.
pub open spec fn opt_nat(k: Option<GuidKey>) -> Option<nat> {
    match k {
        Some(v) => Some(v as nat),
        None => None,
    }
}

/// Try each candidate name as a GUID property; the key of the first that parses.
pub fn first_guid(record: &[Property], names: &[&str]) -> (r: Option<GuidKey>)
    ensures
        opt_nat(r) == first_of(names@, |n: Seq<char>| guid_at(record@, n)),
{
    let ghost read = |n: Seq<char>| guid_at(record@, n);
    let mut i: usize = 0;
    assert(names@.skip(0) =~= names@);
    while i < names.len()
        invariant
            i <= names@.len(),
            read == (|n: Seq<char>| guid_at(record@, n)),
            first_of(names@, read) == first_of(names@.skip(i as int), read),
        decreases names@.len() - i,
    {
        assert(names@.skip(i as int)[0] == names@[i as int]);
        assert(names@.skip(i as int).drop_first() =~= names@.skip(i + 1));
        if let Some(p) = find(record, names[i]) {
            if let Some(g) = p.guid {
                return Some(guid_key(g));
            }
        }
        i = i + 1;
    }
    None
}

/// Try each candidate name as an unsigned integer, widened from whichever width
/// parses.
pub fn first_u64(record: &[Property], names: &[&str]) -> (r: Option<u64>)
    ensures
        match r {
            Some(v) => first_of(names@, |n: Seq<char>| number_at(record@, n)) == Some(v as nat),
            None => first_of(names@, |n: Seq<char>| number_at(record@, n)) is None,
        },
{
    let ghost read = |n: Seq<char>| number_at(record@, n);
    let mut i: usize = 0;
    assert(names@.skip(0) =~= names@);
    while i < names.len()
        invariant
            i <= names@.len(),
            read == (|n: Seq<char>| number_at(record@, n)),
            first_of(names@, read) == first_of(names@.skip(i as int), read),
        decreases names@.len() - i,
    {
        assert(names@.skip(i as int)[0] == names@[i as int]);
        assert(names@.skip(i as int).drop_first() =~= names@.skip(i + 1));
        if let Some(p) = find(record, names[i]) {
            if let Some(v) = p.quad {
                return Some(v);
            }
            if let Some(v) = p.dword {
                return Some(v as u64);
            }
            if let Some(v) = p.word {
                return Some(v as u64);
            }
        }
        i = i + 1;
    }
    None
}

/// Try each candidate name as a socket address.
pub fn first_socket_addr(record: &[Property], names: &[&str]) -> (r: Option<String>)
    ensures
        opt_text(r) == first_of(names@, |n: Seq<char>| address_at(record@, n)),
{
    let ghost read = |n: Seq<char>| address_at(record@, n);
    let mut i: usize = 0;
    assert(names@.skip(0) =~= names@);
    while i < names.len()
        invariant
            i <= names@.len(),
            read == (|n: Seq<char>| address_at(record@, n)),
            first_of(names@, read) == first_of(names@.skip(i as int), read),
        decreases names@.len() - i,
    {
        assert(names@.skip(i as int)[0] == names@[i as int]);
        assert(names@.skip(i as int).drop_first() =~= names@.skip(i + 1));
        if let Some(p) = find(record, names[i]) {
            if let Some(b) = &p.bytes {
                return Some(decode_socket_address(b.as_slice()));
            }
        }
        i = i + 1;
    }
    None
}

// ---- socket addresses -----------------------------------------------------

/// The dotted form of an IPv4 address.
pub open spec fn ipv4_text(a: Seq<u8>) -> Seq<char> {
    dec(a[0] as nat).push('.') + dec(a[1] as nat).push('.') + dec(a[2] as nat).push('.') + dec(
        a[3] as nat,
    )
}

/// The 16-bit group `i` of an IPv6 address.
pub open spec fn ipv6_group(a: Seq<u8>, i: int) -> nat {
    (a[2 * i] * 256 + a[2 * i + 1]) as nat
}

/// The groups `from..to` in hexadecimal, joined by colons.
pub open spec fn groups_text(a: Seq<u8>, from: int, to: int) -> Seq<char>
    decreases to - from,
{
    if to <= from {
        Seq::empty()
    } else if to == from + 1 {
        hex_short(ipv6_group(a, from))
    } else {
        groups_text(a, from, to - 1).push(':') + hex_short(ipv6_group(a, to - 1))
    }
}

/// How many groups from `i` on are zero without a break.
pub open spec fn zero_run(a: Seq<u8>, i: int) -> nat
    decreases 8 - i,
{
    if i >= 8 || ipv6_group(a, i) != 0 {
        0
    } else {
        1 + zero_run(a, i + 1)
    }
}

/// Where the longest run of zero groups starts among the first `n` groups, the
/// first one of that length.
pub open spec fn longest_run(a: Seq<u8>, n: int) -> int
    decreases n,
{
    if n <= 1 {
        0
    } else {
        let best = longest_run(a, n - 1);
        if zero_run(a, n - 1) > zero_run(a, best) {
            n - 1
        } else {
            best
        }
    }
}

/// An IPv4 address mapped into IPv6.
pub open spec fn ipv4_mapped(a: Seq<u8>) -> bool {
    &&& forall|i: int| 0 <= i < 10 ==> #[trigger] a[i] == 0
    &&& a[10] == 0xff
    &&& a[11] == 0xff
}

/// The canonical form of an IPv6 address: the longest run of two or more zero
/// groups is written `::`, and a mapped IPv4 address in dotted form.
pub open spec fn ipv6_text(a: Seq<u8>) -> Seq<char> {
    let start = longest_run(a, 8);
    let len = zero_run(a, start) as int;
    if ipv4_mapped(a) {
        "::ffff:"@ + ipv4_text(a.skip(12))
    } else if len > 1 {
        groups_text(a, 0, start) + "::"@ + groups_text(a, start + len, 8)
    } else {
        groups_text(a, 0, 8)
    }
}

/// The address family of IPv4 in a socket address.
pub const AF_INET: u16 = 2;

/// The address family of IPv6 in a socket address.
pub const AF_INET6: u16 = 23;

/// The bare IP address in a Windows socket address (family, port, address; for
/// IPv6 a flow label before the address), and the bytes in hexadecimal for
/// anything else.
pub open spec fn socket_address_text(b: Seq<u8>) -> Seq<char> {
    let family = b[0] + b[1] * 256;
    if b.len() >= 8 && family == AF_INET {
        ipv4_text(b.subrange(4, 8))
    } else if b.len() >= 24 && family == AF_INET6 {
        ipv6_text(b.subrange(8, 24))
    } else {
        bytes_hex(b, false)
    }
}

fn push_ipv4(out: &mut String, b: &[u8], at: usize)
    requires
        at + 4 <= b@.len(),
    ensures
        final(out)@ == old(out)@ + ipv4_text(b@.subrange(at as int, at + 4)),
{
    push_dec(out, b[at] as u64);
    out.push('.');
    push_dec(out, b[at + 1] as u64);
    out.push('.');
    push_dec(out, b[at + 2] as u64);
    out.push('.');
    push_dec(out, b[at + 3] as u64);
    assert(out@ =~= old(out)@ + ipv4_text(b@.subrange(at as int, at + 4)));
}

fn group(b: &[u8], at: usize, i: usize) -> (r: u64)
    requires
        at + 16 <= b@.len() <= usize::MAX,
        i < 8,
    ensures
        r == ipv6_group(b@.subrange(at as int, at + 16), i as int),
{
    b[at + 2 * i] as u64 * 256 + b[at + 2 * i + 1] as u64
}

fn push_groups(out: &mut String, b: &[u8], at: usize, from: usize, to: usize)
    requires
        at + 16 <= b@.len() <= usize::MAX,
        from <= to <= 8,
    ensures
        final(out)@ == old(out)@ + groups_text(
            b@.subrange(at as int, at + 16),
            from as int,
            to as int,
        ),
{
    let ghost a = b@.subrange(at as int, at + 16);
    let mut i: usize = from;
    while i < to
        invariant
            from <= i <= to <= 8,
            at + 16 <= b@.len() <= usize::MAX,
            a == b@.subrange(at as int, at + 16),
            out@ =~= old(out)@ + groups_text(a, from as int, i as int),
        decreases to - i,
    {
        if i > from {
            out.push(':');
        }
        push_hex_short(out, group(b, at, i));
        i = i + 1;
    }
}

fn run_from(b: &[u8], at: usize, i: usize) -> (r: usize)
    requires
        at + 16 <= b@.len() <= usize::MAX,
        i <= 8,
    ensures
        r == zero_run(b@.subrange(at as int, at + 16), i as int),
        i + r <= 8,
    decreases 8 - i,
{
    if i >= 8 || group(b, at, i) != 0 {
        0
    } else {
        1 + run_from(b, at, i + 1)
    }
}

fn is_mapped(b: &[u8], at: usize) -> (r: bool)
    requires
        at + 16 <= b@.len() <= usize::MAX,
    ensures
        r == ipv4_mapped(b@.subrange(at as int, at + 16)),
{
    let ghost a = b@.subrange(at as int, at + 16);
    let mut i: usize = 0;
    while i < 10
        invariant
            at + 16 <= b@.len() <= usize::MAX,
            i <= 10,
            a == b@.subrange(at as int, at + 16),
            forall|j: int| 0 <= j < i ==> #[trigger] a[j] == 0,
        decreases 10 - i,
    {
        assert(a[i as int] == b@[at + i]);
        if b[at + i] != 0 {
            return false;
        }
        i = i + 1;
    }
    b[at + 10] == 0xff && b[at + 11] == 0xff
}

fn push_ipv6(out: &mut String, b: &[u8], at: usize)
    requires
        at + 16 <= b@.len() <= usize::MAX,
    ensures
        final(out)@ == old(out)@ + ipv6_text(b@.subrange(at as int, at + 16)),
{
    let ghost a = b@.subrange(at as int, at + 16);
    if is_mapped(b, at) {
        out.append("::ffff:");
        push_ipv4(out, b, at + 12);
        assert(b@.subrange(at + 12, at + 16) =~= a.skip(12));
        assert(out@ =~= old(out)@ + ipv6_text(a));
        return;
    }
    let mut start: usize = 0;
    let mut i: usize = 1;
    while i < 8
        invariant
            at + 16 <= b@.len() <= usize::MAX,
            a == b@.subrange(at as int, at + 16),
            start < i <= 8,
            start == longest_run(a, i as int),
        decreases 8 - i,
    {
        if run_from(b, at, i) > run_from(b, at, start) {
            start = i;
        }
        i = i + 1;
    }
    let len = run_from(b, at, start);
    if len > 1 {
        push_groups(out, b, at, 0, start);
        out.append("::");
        push_groups(out, b, at, start + len, 8);
    } else {
        push_groups(out, b, at, 0, 8);
    }
    assert(out@ =~= old(out)@ + ipv6_text(a));
}

/// Decode a Windows socket address to a bare IP address, the port left out.
/// Anything unrecognized is rendered in hexadecimal, so nothing is dropped.
pub fn decode_socket_address(b: &[u8]) -> (r: String)
    ensures
        r@ == socket_address_text(b@),
{
    let mut out = String::new();
    if b.len() >= 2 {
        let family: u16 = b[0] as u16 + b[1] as u16 * 256;
        if family == AF_INET && b.len() >= 8 {
            push_ipv4(&mut out, b, 4);
            assert(out@ =~= socket_address_text(b@));
            return out;
        }
        if family == AF_INET6 && b.len() >= 24 {
            push_ipv6(&mut out, b, 8);
            assert(out@ =~= socket_address_text(b@));
            return out;
        }
    }
    let mut i: usize = 0;
    while i < b.len()
        invariant
            i <= b@.len(),
            out@ == bytes_hex(b@.take(i as int), false),
        decreases b@.len() - i,
    {
        push_hex(&mut out, b[i] as u64, 2, false);
        assert(b@.take(i + 1).drop_last() =~= b@.take(i as int));
        i = i + 1;
    }
    assert(b@.take(b@.len() as int) =~= b@);
    out
}

// ---- the normalized event -------------------------------------------------

/// What drives share resolution and heat counting.
#[derive(Debug, Clone)]
pub enum SmbEvent {
    /// A tree connect: binds a share's GUID to its name.
    TreeConnect { share_guid: GuidKey, share: String },
    /// A file open: the access pulse. It carries its own share GUID; the tree is
    /// kept for reference.
    Open { open: GuidKey, tree: GuidKey, share_guid: Option<GuidKey>, path: String, access: u32 },
}

/// The mathematical value of an event.
pub enum EventView {
    TreeConnect { share_guid: nat, share: Seq<char> },
    Open { open: nat, tree: nat, share_guid: Option<nat>, path: Seq<char>, access: u32 },
}

impl View for SmbEvent {
    type V = EventView;

    open spec fn view(&self) -> EventView {
        match self {
            SmbEvent::TreeConnect { share_guid, share } => EventView::TreeConnect {
                share_guid: *share_guid as nat,
                share: share@,
            },
            SmbEvent::Open { open, tree, share_guid, path, access } => EventView::Open {
                open: *open as nat,
                tree: *tree as nat,
                share_guid: opt_nat(*share_guid),
                path: path@,
                access: *access,
            },
        }
    }
}

/// A record's text under the first of `names` that parses, or nothing.
pub open spec fn text_or_empty(record: Seq<Property>, names: Seq<&str>) -> Seq<char> {
    match first_of(names, |n: Seq<char>| text_at(record, n)) {
        Some(t) => t,
        None => Seq::empty(),
    }
}

/// The event that a record stands for: a tree connect needs its share's GUID, an
/// open its own GUID; every other field has a fallback. The access mask is the low
/// 32 bits of what was recorded.
pub open spec fn event_of(event_id: u16, record: Seq<Property>) -> Option<EventView> {
    let guid = |names: Seq<&str>| first_of(names, |n: Seq<char>| guid_at(record, n));
    if event_id == E_TREE_ALLOC {
        match guid(P_SHARE_GUID@) {
            Some(share_guid) => Some(
                EventView::TreeConnect { share_guid, share: text_or_empty(record, P_SHARE_NAME@) },
            ),
            None => None,
        }
    } else if event_id == E_OPEN {
        match guid(P_OPEN_GUID@) {
            Some(open) => Some(
                EventView::Open {
                    open,
                    tree: match guid(P_TREE_GUID@) {
                        Some(t) => t,
                        None => 0,
                    },
                    share_guid: guid(P_SHARE_GUID@),
                    path: text_or_empty(record, P_FILE_NAME@),
                    access: match first_of(
                        P_DESIRED_ACCESS@,
                        |n: Seq<char>| number_at(record, n),
                    ) {
                        Some(v) => (v % 0x1_0000_0000) as u32,
                        None => 0,
                    },
                },
            ),
            None => None,
        }
    } else {
        None
    }
}

fn or_empty(s: Option<String>) -> (r: String)
    ensures
        r@ == match opt_text(s) {
            Some(t) => t,
            None => Seq::<char>::empty(),
        },
{
    match s {
        Some(t) => t,
        None => String::new(),
    }
}

/// Map a record to a normalized event; nothing for an event id that is not
/// modelled, or where a required key is missing.
pub fn parse_event(event_id: u16, record: &[Property]) -> (r: Option<SmbEvent>)
    ensures
        match r {
            Some(ev) => event_of(event_id, record@) == Some(ev@),
            None => event_of(event_id, record@) is None,
        },
{
    if event_id == E_TREE_ALLOC {
        match first_guid(record, &P_SHARE_GUID) {
            Some(share_guid) => {
                let share = or_empty(first_str(record, &P_SHARE_NAME));
                Some(SmbEvent::TreeConnect { share_guid, share })
            },
            None => None,
        }
    } else if event_id == E_OPEN {
        match first_guid(record, &P_OPEN_GUID) {
            Some(open) => {
                let tree: GuidKey = match first_guid(record, &P_TREE_GUID) {
                    Some(t) => t,
                    None => 0,
                };
                let share_guid = first_guid(record, &P_SHARE_GUID);
                let path = or_empty(first_str(record, &P_FILE_NAME));
                let access: u32 = match first_u64(record, &P_DESIRED_ACCESS) {
                    Some(v) => (v % 0x1_0000_0000) as u32,
                    None => 0,
                };
                Some(SmbEvent::Open { open, tree, share_guid, path, access })
            },
            None => None,
        }
    } else {
        None
    }
}

} // verus!
