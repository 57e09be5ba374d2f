//! Discover mode: one line per record, prefixed by the event id, so that related
//! records land on adjacent lines and shared keys can be compared by eye.
//!
//! Opens and tree connects carry the correlation-critical fields and get a fixed,
//! ordered set of them; every other target event gets whichever known properties
//! parse.

use crate::events::{
    address_at, first_guid, first_of, first_socket_addr, first_str, first_u64, fmt_guid_key,
    guid_at, guid_text, number_at, text_at, DISCOVER_TARGETS, E_OPEN, E_TREE_ALLOC, P_ADDRESS,
    P_CONN_GUID, P_DESIRED_ACCESS, P_DOMAIN_NAME, P_FILE_NAME, P_OPEN_GUID, P_SCOPE_NAME,
    P_SESSION_GUID, P_SHARE_GUID, P_SHARE_NAME, P_TRANSPORT, P_TREE_GUID, P_USER_NAME, Property,
};
use crate::text::{dec, fmt_dec_wide, hex, opt_text, pad_left, push_hex};
use vstd::prelude::*;

verus! {

/// `label=value`, where there is a value.
pub open spec fn labelled(label: Seq<char>, value: Option<Seq<char>>) -> Option<Seq<char>> {
    match value {
        Some(v) => Some(label + "="@ + v),
        None => None,
    }
}

pub open spec fn guid_field(label: Seq<char>, record: Seq<Property>, names: Seq<&str>) -> Option<
    Seq<char>,
> {
    labelled(
        label,
        match first_of(names, |n: Seq<char>| guid_at(record, n)) {
            Some(k) => Some(guid_text(k, true)),
            None => None,
        },
    )
}

pub open spec fn text_field(label: Seq<char>, record: Seq<Property>, names: Seq<&str>) -> Option<
    Seq<char>,
> {
    labelled(label, first_of(names, |n: Seq<char>| text_at(record, n)))
}

pub open spec fn address_field(label: Seq<char>, record: Seq<Property>, names: Seq<&str>) -> Option<
    Seq<char>,
> {
    labelled(label, first_of(names, |n: Seq<char>| address_at(record, n)))
}

/// An access mask: the low 32 bits, in hexadecimal.
pub open spec fn access_field(label: Seq<char>, record: Seq<Property>, names: Seq<&str>) -> Option<
    Seq<char>,
> {
    labelled(
        label,
        match first_of(names, |n: Seq<char>| number_at(record, n)) {
            Some(v) => Some("0x"@ + hex(v % 0x1_0000_0000, 8, true)),
            None => None,
        },
    )
}

/// The fields printed for a record, in order.
pub open spec fn discover_fields(id: u16, record: Seq<Property>) -> Seq<Option<Seq<char>>> {
    if id == E_OPEN {
        seq![
            text_field("Name"@, record, P_FILE_NAME@),
            guid_field("OpenGUID"@, record, P_OPEN_GUID@),
            guid_field("ShareGUID"@, record, P_SHARE_GUID@),
            guid_field("TreeConnectGUID"@, record, P_TREE_GUID@),
            access_field("DesiredAccess"@, record, P_DESIRED_ACCESS@),
        ]
    } else if id == E_TREE_ALLOC {
        seq![
            text_field("ShareName"@, record, P_SHARE_NAME@),
            guid_field("ShareGUID"@, record, P_SHARE_GUID@),
            guid_field("TreeConnectGUID"@, record, P_TREE_GUID@),
        ]
    } else {
        seq![
            guid_field("ConnectionGUID"@, record, P_CONN_GUID@),
            guid_field("SessionGUID"@, record, P_SESSION_GUID@),
            guid_field("TreeConnectGUID"@, record, P_TREE_GUID@),
            guid_field("ShareGUID"@, record, P_SHARE_GUID@),
            guid_field("OpenGUID"@, record, P_OPEN_GUID@),
            text_field("UserName"@, record, P_USER_NAME@),
            text_field("DomainName"@, record, P_DOMAIN_NAME@),
            text_field("ShareName"@, record, P_SHARE_NAME@),
            text_field("ScopeName"@, record, P_SCOPE_NAME@),
            text_field("Name"@, record, P_FILE_NAME@),
            text_field("TransportName"@, record, P_TRANSPORT@),
            address_field("Address"@, record, P_ADDRESS@),
            access_field("DesiredAccess"@, record, P_DESIRED_ACCESS@),
        ]
    }
}

/// The fields that are there.
pub open spec fn present(fields: Seq<Option<Seq<char>>>) -> Seq<Seq<char>>
    decreases fields.len(),
{
    if fields.len() == 0 {
        Seq::empty()
    } else {
        match fields.last() {
            Some(f) => present(fields.drop_last()).push(f),
            None => present(fields.drop_last()),
        }
    }
}

/// `parts` with `sep` between them.
pub open spec fn joined(parts: Seq<Seq<char>>, sep: Seq<char>) -> Seq<char>
    decreases parts.len(),
{
    if parts.len() == 0 {
        Seq::empty()
    } else if parts.len() == 1 {
        parts[0]
    } else {
        joined(parts.drop_last(), sep) + sep + parts.last()
    }
}

fn fmt_field(label: &str, value: &str) -> (r: String)
    ensures
        Some(r@) == labelled(label@, Some(value@)),
{
    let mut s = label.to_owned();
    s.append("=");
    s.append(value);
    s
}

fn field_guid(name: &str, record: &[Property], names: &[&str]) -> (r: Option<String>)
    ensures
        opt_text(r) == guid_field(name@, record@, names@),
{
    match first_guid(record, names) {
        Some(k) => Some(fmt_field(name, fmt_guid_key(k).as_str())),
        None => None,
    }
}

fn field_str(name: &str, record: &[Property], names: &[&str]) -> (r: Option<String>)
    ensures
        opt_text(r) == text_field(name@, record@, names@),
{
    match first_str(record, names) {
        Some(v) => Some(fmt_field(name, v.as_str())),
        None => None,
    }
}

fn field_addr(name: &str, record: &[Property], names: &[&str]) -> (r: Option<String>)
    ensures
        opt_text(r) == address_field(name@, record@, names@),
{
    match first_socket_addr(record, names) {
        Some(v) => Some(fmt_field(name, v.as_str())),
        None => None,
    }
}

fn field_access(name: &str, record: &[Property], names: &[&str]) -> (r: Option<String>)
    ensures
        opt_text(r) == access_field(name@, record@, names@),
{
    match first_u64(record, names) {
        Some(v) => {
            let mut digits = "0x".to_owned();
            push_hex(&mut digits, v % 0x1_0000_0000, 8, true);
            Some(fmt_field(name, digits.as_str()))
        },
        None => None,
    }
}

/// What each optional field holds.
pub open spec fn opt_texts(fields: Seq<Option<String>>) -> Seq<Option<Seq<char>>> {
    fields.map_values(|f: Option<String>| opt_text(f))
}

fn join_present(fields: &Vec<Option<String>>) -> (r: String)
    ensures
        r@ == joined(present(opt_texts(fields@)), "  "@),
{
    let mut out = String::new();
    let mut any = false;
    let mut i: usize = 0;
    let ghost all = opt_texts(fields@);
    while i < fields.len()
        invariant
            i <= fields@.len(),
            all == opt_texts(fields@),
            out@ == joined(present(all.take(i as int)), "  "@),
            any == (present(all.take(i as int)).len() > 0),
        decreases fields@.len() - i,
    {
        let ghost shown = present(all.take(i as int));
        assert(all.take(i + 1).drop_last() =~= all.take(i as int));
        assert(all[i as int] == opt_text(fields@[i as int]));
        if let Some(f) = &fields[i] {
            if any {
                out.append("  ");
            }
            out.append(f.as_str());
            any = true;
            assert(shown.push(f@).drop_last() =~= shown);
        }
        i = i + 1;
    }
    assert(all.take(all.len() as int) =~= all);
    out
}

fn is_target(id: u16) -> (r: bool)
    ensures
        r == DISCOVER_TARGETS@.contains(id),
{
    let targets = DISCOVER_TARGETS;
    let mut i: usize = 0;
    while i < 16
        invariant
            i <= 16,
            targets == DISCOVER_TARGETS,
            forall|j: int| 0 <= j < i ==> targets@[j] != id,
        decreases 16 - i,
    {
        if targets[i] == id {
            assert(targets@[i as int] == id);
            return true;
        }
        i = i + 1;
    }
    false
}

/// The line printed for a record, where its event id is a target: the id, then the
/// fields that parse.
pub fn discover_line(id: u16, record: &[Property]) -> (r: Option<String>)
    ensures
        opt_text(r) == if DISCOVER_TARGETS@.contains(id) {
            Some(
                pad_left(dec(id as nat), ' ', 3) + "  "@ + joined(
                    present(discover_fields(id, record@)),
                    "  "@,
                ),
            )
        } else {
            None
        },
{
    if !is_target(id) {
        return None;
    }
    let mut fields: Vec<Option<String>> = Vec::new();
    if id == E_OPEN {
        fields.push(field_str("Name", record, &P_FILE_NAME));
        fields.push(field_guid("OpenGUID", record, &P_OPEN_GUID));
        fields.push(field_guid("ShareGUID", record, &P_SHARE_GUID));
        fields.push(field_guid("TreeConnectGUID", record, &P_TREE_GUID));
        fields.push(field_access("DesiredAccess", record, &P_DESIRED_ACCESS));
    } else if id == E_TREE_ALLOC {
        fields.push(field_str("ShareName", record, &P_SHARE_NAME));
        fields.push(field_guid("ShareGUID", record, &P_SHARE_GUID));
        fields.push(field_guid("TreeConnectGUID", record, &P_TREE_GUID));
    } else {
        fields.push(field_guid("ConnectionGUID", record, &P_CONN_GUID));
        fields.push(field_guid("SessionGUID", record, &P_SESSION_GUID));
        fields.push(field_guid("TreeConnectGUID", record, &P_TREE_GUID));
        fields.push(field_guid("ShareGUID", record, &P_SHARE_GUID));
        fields.push(field_guid("OpenGUID", record, &P_OPEN_GUID));
        fields.push(field_str("UserName", record, &P_USER_NAME));
        fields.push(field_str("DomainName", record, &P_DOMAIN_NAME));
        fields.push(field_str("ShareName", record, &P_SHARE_NAME));
        fields.push(field_str("ScopeName", record, &P_SCOPE_NAME));
        fields.push(field_str("Name", record, &P_FILE_NAME));
        fields.push(field_str("TransportName", record, &P_TRANSPORT));
        fields.push(field_addr("Address", record, &P_ADDRESS));
        fields.push(field_access("DesiredAccess", record, &P_DESIRED_ACCESS));
    }
    assert(opt_texts(fields@) =~= discover_fields(id, record@));
    let mut out = fmt_dec_wide(id as u64, 3);
    out.append("  ");
    let body = join_present(&fields);
    out.append(body.as_str());
    Some(out)
}

} // verus!
