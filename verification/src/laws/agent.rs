//! What the agent makes of its arguments, of principals and of trace records.

use crate::cli::{
    command_of, flag_at, flag_value, trace_mask, CommandView, Mode, DEFAULT_ARCHIVE_DIR,
    DEFAULT_BIND,
};
use crate::discover::{discover_fields, joined, present};
use crate::events::{
    address_at, event_of, first_of, guid_at, guid_text, guid_value, number_at, property,
    socket_address_text, text_at, EventView, Property, DISCOVER_TARGETS,
};
use crate::identity::{class_of, lemma_bare_name, upper_case, PrincipalClass};
use crate::lifecycle::{lifecycle_of, EventView as LifecycleView};
use crate::text::hex;
use vstd::prelude::*;

verus! {

// ---- arguments ------------------------------------------------------------

proof fn lemma_flag_at(args: Seq<String>, flag: Seq<char>, from: int, i: int)
    requires
        from <= i <= args.len(),
        forall|j: int| from <= j < i ==> (#[trigger] args[j])@ != flag,
        i < args.len() ==> args[i]@ == flag,
    ensures
        flag_at(args, flag, from) == if i < args.len() { Some(i) } else { None },
    decreases i - from,
{
    if from < i {
        assert(args[from]@ != flag);
        lemma_flag_at(args, flag, from + 1, i);
    }
}

/// A flag's value is the argument behind the flag where it first stands, the program's
/// own name aside; a flag that stands last needs one, and one that does not stand there
/// has none.
pub proof fn law_flag_values(args: Seq<String>, flag: Seq<char>, i: int)
    requires
        1 <= i,
        i <= args.len() || args.len() == 0,
        forall|j: int| 1 <= j < i && j < args.len() ==> (#[trigger] args[j])@ != flag,
        i < args.len() ==> args[i]@ == flag,
    ensures
        i >= args.len() ==> flag_value(args, flag) == Ok::<Option<Seq<char>>, Seq<char>>(None),
        i + 1 == args.len() ==> flag_value(args, flag) == Err::<Option<Seq<char>>, Seq<char>>(
            flag + " needs a value"@,
        ),
        i + 1 < args.len() ==> flag_value(args, flag) == Ok::<Option<Seq<char>>, Seq<char>>(
            Some(args[i + 1]@),
        ),
{
    if args.len() > 0 {
        lemma_flag_at(args, flag, 1, i);
    }
}

/// Where the collector listens and keeps documents if nothing else is said.
pub proof fn law_defaults()
    ensures
        DEFAULT_BIND@ == "0.0.0.0:2742"@,
        DEFAULT_ARCHIVE_DIR@ == "./archive"@,
        crate::flush::DEFAULT_FLUSH_SECS == 300,
        crate::flush::SMBSERVER_GUID@ == "D48CE617-33A2-4BC3-A5C7-11AA4F29619E"@,
        crate::flush::SESSION_NAME@ == "SmbHeatSpike"@,
{
}

/// What the agent is told to do: its first argument decides, and without one it
/// resolves. Anywhere among the arguments `--rundown` adds the bit of the enumeration to
/// the mask of the trace, which is that of connections, sessions, tree connects and
/// files.
pub proof fn law_commands(args: Seq<String>)
    ensures
        ({
            let c = command_of(args);
            let rundown = exists|i: int|
                0 <= i < args.len() && (#[trigger] args[i])@ == "--rundown"@;
            let mask: u64 = if rundown { 0x1_00f0 } else { 0x00f0 };
            &&& args.len() <= 1 ==> c == (CommandView::Trace { mode: Mode::Resolve, mask })
            &&& args.len() > 1 && args[1]@ == "resolve"@ ==> c == (CommandView::Trace {
                mode: Mode::Resolve,
                mask,
            })
            &&& args.len() > 1 && args[1]@ == "discover"@ ==> c == (CommandView::Trace {
                mode: Mode::Discover,
                mask,
            })
            &&& args.len() > 3 && args[1]@ == "walk"@ ==> c == (CommandView::Walk {
                share: args[2]@,
                root: args[3]@,
            })
            &&& 1 < args.len() <= 3 && args[1]@ == "walk"@ ==> c == CommandView::WalkUsage
            &&& args.len() > 1 && args[1]@ != "resolve"@ && args[1]@ != "discover"@ && args[1]@
                != "walk"@ ==> c == CommandView::UnknownMode(args[1]@)
        }),
{
    reveal_strlit("walk");
    reveal_strlit("discover");
    reveal_strlit("resolve");
    assert("walk"@.len() == 4 && "discover"@.len() == 8 && "resolve"@.len() == 7);
    assert(0x10u64 | 0x20u64 | 0x40u64 | 0x80u64 == 0xf0u64) by (bit_vector);
    assert((0x10u64 | 0x20u64 | 0x40u64 | 0x80u64) | 0x1_0000u64 == 0x1_00f0u64) by (bit_vector);
    assert(trace_mask(false) == 0xf0);
    assert(trace_mask(true) == 0x1_00f0);
}

// ---- principals -----------------------------------------------------------

/// The class of an account. `from` is where the name begins behind the last backslash.
/// Nothing, and `<unknown>`, are unknown. The SIDs of the system, of the two services and
/// of anonymous logons go by their first characters. Of the others the name decides,
/// whatever domain stands before it: a well-known one in any case, a computer's by its
/// `$`, and any other is a person's.
pub proof fn law_principal_classes(account: Seq<char>, from: int)
    requires
        0 <= from <= account.len(),
        from > 0 ==> account[from - 1] == '\\',
        forall|i: int| from <= i < account.len() ==> account[i] != '\\',
    ensures
        ({
            let c = class_of(account);
            let begins = |w: Seq<char>|
                w.len() <= account.len() && account.take(w.len() as int) == w;
            let named = |w: Seq<char>|
                {
                    &&& account.len() - from == w.len()
                    &&& forall|i: int|
                        #![trigger w[i]]
                        0 <= i < w.len() ==> account[from + i] == w[i] || ('a' <= account[from + i]
                            <= 'z' && account[from + i] as int - 32 == w[i] as int)
                };
            let sid = begins("S-1-5-18"@) || begins("S-1-5-19"@) || begins("S-1-5-20"@) || begins(
                "S-1-5-7"@,
            );
            let unknown = account.len() == 0 || account == "<unknown>"@;
            let system = named("SYSTEM"@) || named("ANONYMOUS LOGON"@);
            let service = named("LOCAL SERVICE"@) || named("NETWORK SERVICE"@);
            &&& unknown ==> c == PrincipalClass::Unknown
            &&& !unknown && (begins("S-1-5-18"@) || begins("S-1-5-7"@)) ==> c
                == PrincipalClass::System
            &&& !unknown && (begins("S-1-5-19"@) || begins("S-1-5-20"@)) ==> c
                == PrincipalClass::Service
            &&& !unknown && !sid && system ==> c == PrincipalClass::System
            &&& !unknown && !sid && !system && service ==> c == PrincipalClass::Service
            &&& !unknown && !sid && !system && !service ==> c == if from < account.len()
                && account.last() == '$' {
                PrincipalClass::Machine
            } else {
                PrincipalClass::Human
            }
        }),
{
    lemma_bare_name(account, from);
    let bare = account.skip(from);
    lemma_sids(account);
    lemma_upper(account, from, "SYSTEM"@);
    lemma_upper(account, from, "ANONYMOUS LOGON"@);
    lemma_upper(account, from, "LOCAL SERVICE"@);
    lemma_upper(account, from, "NETWORK SERVICE"@);
    lemma_capitals();
    if from < account.len() {
        assert(bare.last() == account.last());
    }
}

/// No account begins with two of the SIDs.
proof fn lemma_sids(account: Seq<char>)
    ensures
        crate::text::starts_with(account, "S-1-5-7"@) ==> !crate::text::starts_with(
            account,
            "S-1-5-19"@,
        ) && !crate::text::starts_with(account, "S-1-5-20"@),
        crate::text::starts_with(account, "S-1-5-18"@) ==> !crate::text::starts_with(
            account,
            "S-1-5-19"@,
        ) && !crate::text::starts_with(account, "S-1-5-20"@),
{
    reveal_strlit("S-1-5-18");
    reveal_strlit("S-1-5-19");
    reveal_strlit("S-1-5-20");
    reveal_strlit("S-1-5-7");
    if crate::text::starts_with(account, "S-1-5-7"@) {
        assert(account.take(7)[6] == '7');
    }
    if crate::text::starts_with(account, "S-1-5-18"@) {
        assert(account.take(8)[6] == '1' && account.take(8)[7] == '8');
    }
    if crate::text::starts_with(account, "S-1-5-19"@) {
        assert(account.take(8)[6] == '1' && account.take(8)[7] == '9');
    }
    if crate::text::starts_with(account, "S-1-5-20"@) {
        assert(account.take(8)[6] == '2');
    }
}

proof fn lemma_capitals()
    ensures
        forall|i: int| 0 <= i < "SYSTEM"@.len() ==> #[trigger] "SYSTEM"@[i] < 'a',
        forall|i: int| 0 <= i < "ANONYMOUS LOGON"@.len() ==> #[trigger] "ANONYMOUS LOGON"@[i] < 'a',
        forall|i: int| 0 <= i < "LOCAL SERVICE"@.len() ==> #[trigger] "LOCAL SERVICE"@[i] < 'a',
        forall|i: int| 0 <= i < "NETWORK SERVICE"@.len() ==> #[trigger] "NETWORK SERVICE"@[i] < 'a',
{
    reveal_strlit("SYSTEM");
    reveal_strlit("ANONYMOUS LOGON");
    reveal_strlit("LOCAL SERVICE");
    reveal_strlit("NETWORK SERVICE");
}

proof fn lemma_upper_char(c: char, w: char)
    requires
        w < 'a',
    ensures
        crate::text::ascii_upper(c) == w <==> c == w || ('a' <= c <= 'z' && c as int - 32
            == w as int),
{
}

proof fn lemma_upper(account: Seq<char>, from: int, w: Seq<char>)
    requires
        0 <= from <= account.len(),
        w == "SYSTEM"@ || w == "ANONYMOUS LOGON"@ || w == "LOCAL SERVICE"@ || w
            == "NETWORK SERVICE"@,
    ensures
        upper_case(account.skip(from)) == w <==> {
            &&& account.len() - from == w.len()
            &&& forall|i: int|
                #![trigger w[i]]
                0 <= i < w.len() ==> account[from + i] == w[i] || ('a' <= account[from + i] <= 'z'
                    && account[from + i] as int - 32 == w[i] as int)
        },
{
    lemma_capitals();
    let u = upper_case(account.skip(from));
    assert forall|i: int| 0 <= i < w.len() implies #[trigger] w[i] < 'a' by {}
    if u == w {
        assert forall|i: int| #![trigger w[i]] 0 <= i < w.len() implies account[from + i] == w[i]
            || ('a' <= account[from + i] <= 'z' && account[from + i] as int - 32 == w[i] as int) by {
            assert(u[i] == crate::text::ascii_upper(account[from + i]));
            lemma_upper_char(account[from + i], w[i]);
        }
    }
    if account.len() - from == w.len() && forall|i: int|
        #![trigger w[i]]
        0 <= i < w.len() ==> account[from + i] == w[i] || ('a' <= account[from + i] <= 'z'
            && account[from + i] as int - 32 == w[i] as int) {
        assert forall|i: int| 0 <= i < w.len() implies u[i] == #[trigger] w[i] by {
            assert(u[i] == crate::text::ascii_upper(account[from + i]));
            lemma_upper_char(account[from + i], w[i]);
        }
        assert(u =~= w);
    }
}

// ---- records --------------------------------------------------------------

/// A property is the first one of its name.
pub proof fn law_first_property(record: Seq<Property>, name: Seq<char>, i: int)
    requires
        0 <= i <= record.len(),
        forall|j: int| 0 <= j < i ==> (#[trigger] record[j]).name@ != name,
        i < record.len() ==> record[i].name@ == name,
    ensures
        property(record, name) == if i < record.len() { Some(record[i]) } else { None },
    decreases record.len(),
{
    if i > 0 {
        let rest = record.drop_first();
        assert(record[0].name@ != name);
        assert forall|j: int| 0 <= j < i - 1 implies (#[trigger] rest[j]).name@ != name by {
            assert(rest[j] == record[j + 1]);
        }
        law_first_property(rest, name, i - 1);
    }
}

/// What a property gives for each kind of value: a number in the widest form that
/// parses, an address as it is written, a GUID as its 128 bits.
pub proof fn law_property_values(record: Seq<Property>, name: Seq<char>)
    ensures
        property(record, name) is None ==> text_at(record, name) is None && guid_at(
            record,
            name,
        ) is None && number_at(record, name) is None && address_at(record, name) is None,
        property(record, name) is Some ==> {
            let p = property(record, name)->0;
            &&& text_at(record, name) is Some <==> p.text is Some
            &&& p.text is Some ==> text_at(record, name)->0 == p.text->0@
            &&& guid_at(record, name) is Some <==> p.guid is Some
            &&& p.guid is Some ==> guid_at(record, name)->0 == guid_value(p.guid->0)
            &&& number_at(record, name) is Some <==> p.quad is Some || p.dword is Some
                || p.word is Some
            &&& p.quad is Some ==> number_at(record, name)->0 == p.quad->0
            &&& p.quad is None && p.dword is Some ==> number_at(record, name)->0 == p.dword->0
            &&& p.quad is None && p.dword is None && p.word is Some ==> number_at(record, name)->0
                == p.word->0
            &&& address_at(record, name) is Some <==> p.bytes is Some
            &&& p.bytes is Some ==> address_at(record, name)->0 == socket_address_text(p.bytes->0@)
        },
{
}

/// Of several names the first that gives something counts.
pub proof fn law_first_of_names<A>(
    names: Seq<&str>,
    read: spec_fn(Seq<char>) -> Option<A>,
    i: int,
)
    requires
        0 <= i <= names.len(),
        forall|j: int| 0 <= j < i ==> read((#[trigger] names[j])@) is None,
        i < names.len() ==> read(names[i]@) is Some,
    ensures
        first_of(names, read) == if i < names.len() { read(names[i]@) } else { None },
    decreases names.len(),
{
    if i > 0 {
        let rest = names.drop_first();
        assert(read(names[0]@) is None);
        assert forall|j: int| 0 <= j < i - 1 implies read((#[trigger] rest[j])@) is None by {
            assert(rest[j] == names[j + 1]);
        }
        law_first_of_names(rest, read, i - 1);
    }
}

proof fn lemma_one_name<A>(names: Seq<&str>, read: spec_fn(Seq<char>) -> Option<A>)
    requires
        names.len() == 1,
    ensures
        first_of(names, read) == read(names[0]@),
{
    if read(names[0]@) is None {
        law_first_of_names(names, read, 1);
    } else {
        law_first_of_names(names, read, 0);
    }
}

/// Event 600 is a tree connect: it needs its share's GUID, and its share's name is empty
/// where it is not there.
pub proof fn law_tree_connects(record: Seq<Property>)
    ensures
        ({
            let e = event_of(600, record);
            let guid = guid_at(record, "ShareGUID"@);
            let name = text_at(record, "ShareName"@);
            &&& e is Some <==> guid is Some
            &&& guid is Some ==> e == Some(
                EventView::TreeConnect {
                    share_guid: guid->0,
                    share: if name is Some { name->0 } else { Seq::empty() },
                },
            )
        }),
{
    lemma_one_name(crate::events::P_SHARE_GUID@, |n: Seq<char>| guid_at(record, n));
    lemma_one_name(crate::events::P_SHARE_NAME@, |n: Seq<char>| text_at(record, n));
}

/// Event 650 is an open: it needs its own GUID; the share's is carried if it is there,
/// the tree's is zero if it is not, the path is empty if it is not, and the access mask
/// is the low 32 bits of what was recorded, none if nothing was.
pub proof fn law_opens(record: Seq<Property>)
    ensures
        ({
            let e = event_of(650, record);
            let open = guid_at(record, "OpenGUID"@);
            let tree = guid_at(record, "TreeConnectGUID"@);
            let path = text_at(record, "Name"@);
            let access = number_at(record, "DesiredAccess"@);
            &&& e is Some <==> open is Some
            &&& open is Some ==> match e->0 {
                EventView::Open { open: o, tree: t, share_guid: g, path: p, access: a } => {
                    &&& o == open->0
                    &&& t == if tree is Some { tree->0 } else { 0 }
                    &&& g == guid_at(record, "ShareGUID"@)
                    &&& p == if path is Some { path->0 } else { Seq::empty() }
                    &&& a as int == if access is Some { access->0 % 0x1_0000_0000 } else { 0 }
                },
                _ => false,
            }
        }),
{
    lemma_one_name(crate::events::P_OPEN_GUID@, |n: Seq<char>| guid_at(record, n));
    lemma_one_name(crate::events::P_TREE_GUID@, |n: Seq<char>| guid_at(record, n));
    lemma_one_name(crate::events::P_SHARE_GUID@, |n: Seq<char>| guid_at(record, n));
    lemma_one_name(crate::events::P_FILE_NAME@, |n: Seq<char>| text_at(record, n));
    lemma_one_name(crate::events::P_DESIRED_ACCESS@, |n: Seq<char>| number_at(record, n));
}

/// No other event is modelled.
pub proof fn law_other_events(id: u16, record: Seq<Property>)
    requires
        id != 600,
        id != 650,
    ensures
        event_of(id, record) is None,
{
}

// ---- lifecycle ------------------------------------------------------------

/// Which lifecycle event an id stands for, and what it needs: 500, 501 and 502 a
/// connection, 552, 554 and 555 a session, 600, 601 and 602 a tree connect, and 650
/// nothing. No other id stands for one.
pub proof fn law_lifecycle_events(id: u16, record: Seq<Property>)
    ensures
        ({
            let e = lifecycle_of(id, record);
            let number = |n: Seq<char>| number_at(record, n);
            let text = |n: Seq<char>| text_at(record, n);
            let conn = first_of(crate::lifecycle::P_CONN_ID@, number);
            let session = first_of(crate::lifecycle::P_SESSION_ID@, number);
            let tree = first_of(crate::lifecycle::P_TREE_ID@, number);
            let user = first_of(crate::lifecycle::P_USER_NAME@, text);
            let sid = first_of(crate::lifecycle::P_USER_SID@, text);
            let share = first_of(crate::lifecycle::P_SHARE_NAME@, text);
            let path = first_of(crate::lifecycle::P_FILE_NAME@, text);
            let client = first_of(crate::lifecycle::P_CLIENT_ADDR@, text);
            let none = Seq::<char>::empty();
            &&& id == 500 ==> e == if conn is Some {
                Some(
                    LifecycleView::ConnAccept {
                        conn_id: conn->0,
                        client: if client is Some { client->0 } else { none },
                    },
                )
            } else {
                None
            }
            &&& id == 501 || id == 502 ==> e == if conn is Some {
                Some(LifecycleView::ConnEnd { conn_id: conn->0 })
            } else {
                None
            }
            &&& id == 552 ==> e == if session is Some {
                Some(
                    LifecycleView::SessionAuth {
                        session_id: session->0,
                        conn_id: conn,
                        user: if user is Some {
                            user->0
                        } else if sid is Some {
                            sid->0
                        } else {
                            "<unknown>"@
                        },
                    },
                )
            } else {
                None
            }
            &&& id == 554 || id == 555 ==> e == if session is Some {
                Some(LifecycleView::SessionEnd { session_id: session->0 })
            } else {
                None
            }
            &&& id == 600 ==> e == if tree is Some {
                Some(
                    LifecycleView::TreeConnect {
                        tree_id: tree->0,
                        session_id: if session is Some { session->0 } else { 0 },
                        share: if share is Some { share->0 } else { none },
                    },
                )
            } else {
                None
            }
            &&& id == 601 || id == 602 ==> e == if tree is Some {
                Some(LifecycleView::TreeEnd { tree_id: tree->0 })
            } else {
                None
            }
            &&& id == 650 ==> e == Some(
                LifecycleView::Open {
                    session_id: session,
                    tree_id: tree,
                    path: if path is Some { path->0 } else { none },
                },
            )
            &&& e is Some ==> id == 500 || id == 501 || id == 502 || id == 552 || id == 554 || id
                == 555 || id == 600 || id == 601 || id == 602 || id == 650
        }),
{
}

/// The names that are tried for each value, in their order.
pub proof fn law_candidate_names()
    ensures
        crate::lifecycle::P_CONN_ID@ == seq!["ConnectionId", "ConnId", "Connection"],
        crate::lifecycle::P_SESSION_ID@ == seq!["SessionId", "SmbSessionId", "SessId"],
        crate::lifecycle::P_TREE_ID@ == seq!["TreeConnectId", "TreeId", "TreeConnect"],
        crate::lifecycle::P_USER_NAME@ == seq!["UserName", "User", "Account", "AccountName"],
        crate::lifecycle::P_USER_SID@ == seq!["UserSid", "Sid", "SidString", "SecurityId"],
        crate::lifecycle::P_SHARE_NAME@ == seq!["ShareName", "Share"],
        crate::lifecycle::P_FILE_NAME@ == seq![
            "FileName",
            "Name",
            "RelativeTargetName",
            "FilePath",
        ],
        crate::lifecycle::P_CLIENT_ADDR@ == seq!["ClientAddress", "Address", "ClientName"],
{
    assert(crate::lifecycle::P_CONN_ID@ =~= seq!["ConnectionId", "ConnId", "Connection"]);
    assert(crate::lifecycle::P_SESSION_ID@ =~= seq!["SessionId", "SmbSessionId", "SessId"]);
    assert(crate::lifecycle::P_TREE_ID@ =~= seq!["TreeConnectId", "TreeId", "TreeConnect"]);
    assert(crate::lifecycle::P_USER_NAME@ =~= seq!["UserName", "User", "Account", "AccountName"]);
    assert(crate::lifecycle::P_USER_SID@ =~= seq!["UserSid", "Sid", "SidString", "SecurityId"]);
    assert(crate::lifecycle::P_SHARE_NAME@ =~= seq!["ShareName", "Share"]);
    assert(crate::lifecycle::P_FILE_NAME@ =~= seq![
        "FileName",
        "Name",
        "RelativeTargetName",
        "FilePath",
    ]);
    assert(crate::lifecycle::P_CLIENT_ADDR@ =~= seq!["ClientAddress", "Address", "ClientName"]);
}

// ---- discover mode --------------------------------------------------------

/// The ids that the discover mode prints.
pub proof fn law_discover_targets(id: u16)
    ensures
        DISCOVER_TARGETS@.contains(id) <==> id == 108 || id == 500 || id == 501 || id == 502 || id
            == 550 || id == 552 || id == 554 || id == 555 || id == 600 || id == 601 || id == 602
            || id == 650 || id == 654 || id == 3004 || id == 3005 || id == 3006,
{
    let t = DISCOVER_TARGETS@;
    assert(t.len() == 16);
    assert(t[0] == 500 && t[1] == 501 && t[2] == 502 && t[3] == 550 && t[4] == 552 && t[5] == 554
        && t[6] == 555 && t[7] == 600 && t[8] == 601 && t[9] == 602 && t[10] == 650 && t[11] == 654
        && t[12] == 108 && t[13] == 3004 && t[14] == 3005 && t[15] == 3006);
}

/// The fields of an open: its file, its identifiers and its access mask.
pub proof fn law_open_fields(record: Seq<Property>)
    ensures
        ({
            let f = discover_fields(650, record);
            &&& f.len() == 5
            &&& f[0] == match text_at(record, "Name"@) {
                Some(t) => Some("Name"@ + "="@ + t),
                None => None,
            }
            &&& f[1] == match guid_at(record, "OpenGUID"@) {
                Some(k) => Some("OpenGUID"@ + "="@ + guid_text(k, true)),
                None => None,
            }
            &&& f[2] == match guid_at(record, "ShareGUID"@) {
                Some(k) => Some("ShareGUID"@ + "="@ + guid_text(k, true)),
                None => None,
            }
            &&& f[3] == match guid_at(record, "TreeConnectGUID"@) {
                Some(k) => Some("TreeConnectGUID"@ + "="@ + guid_text(k, true)),
                None => None,
            }
            &&& f[4] == match number_at(record, "DesiredAccess"@) {
                Some(v) => Some("DesiredAccess"@ + "="@ + ("0x"@ + hex(v % 0x1_0000_0000, 8, true))),
                None => None,
            }
        }),
{
    lemma_one_name(crate::events::P_OPEN_GUID@, |n: Seq<char>| guid_at(record, n));
    lemma_one_name(crate::events::P_SHARE_GUID@, |n: Seq<char>| guid_at(record, n));
    lemma_one_name(crate::events::P_TREE_GUID@, |n: Seq<char>| guid_at(record, n));
    lemma_one_name(crate::events::P_FILE_NAME@, |n: Seq<char>| text_at(record, n));
    lemma_one_name(crate::events::P_DESIRED_ACCESS@, |n: Seq<char>| number_at(record, n));
}

/// The fields of a tree connect: its share and its identifiers.
pub proof fn law_tree_fields(record: Seq<Property>)
    ensures
        ({
            let f = discover_fields(600, record);
            &&& f.len() == 3
            &&& f[0] == match text_at(record, "ShareName"@) {
                Some(t) => Some("ShareName"@ + "="@ + t),
                None => None,
            }
            &&& f[1] == match guid_at(record, "ShareGUID"@) {
                Some(k) => Some("ShareGUID"@ + "="@ + guid_text(k, true)),
                None => None,
            }
            &&& f[2] == match guid_at(record, "TreeConnectGUID"@) {
                Some(k) => Some("TreeConnectGUID"@ + "="@ + guid_text(k, true)),
                None => None,
            }
        }),
{
    lemma_one_name(crate::events::P_SHARE_GUID@, |n: Seq<char>| guid_at(record, n));
    lemma_one_name(crate::events::P_TREE_GUID@, |n: Seq<char>| guid_at(record, n));
    lemma_one_name(crate::events::P_SHARE_NAME@, |n: Seq<char>| text_at(record, n));
}

/// The fields of every other event: whatever is known of it.
pub proof fn law_other_fields(id: u16, record: Seq<Property>)
    requires
        id != 600,
        id != 650,
    ensures
        ({
            let f = discover_fields(id, record);
            &&& f.len() == 13
            &&& f[0] == match guid_at(record, "ConnectionGUID"@) {
                Some(k) => Some("ConnectionGUID"@ + "="@ + guid_text(k, true)),
                None => None,
            }
            &&& f[1] == match guid_at(record, "SessionGUID"@) {
                Some(k) => Some("SessionGUID"@ + "="@ + guid_text(k, true)),
                None => None,
            }
            &&& f[2] == match guid_at(record, "TreeConnectGUID"@) {
                Some(k) => Some("TreeConnectGUID"@ + "="@ + guid_text(k, true)),
                None => None,
            }
            &&& f[3] == match guid_at(record, "ShareGUID"@) {
                Some(k) => Some("ShareGUID"@ + "="@ + guid_text(k, true)),
                None => None,
            }
            &&& f[4] == match guid_at(record, "OpenGUID"@) {
                Some(k) => Some("OpenGUID"@ + "="@ + guid_text(k, true)),
                None => None,
            }
            &&& f[5] == match text_at(record, "UserName"@) {
                Some(t) => Some("UserName"@ + "="@ + t),
                None => None,
            }
            &&& f[6] == match text_at(record, "DomainName"@) {
                Some(t) => Some("DomainName"@ + "="@ + t),
                None => None,
            }
            &&& f[7] == match text_at(record, "ShareName"@) {
                Some(t) => Some("ShareName"@ + "="@ + t),
                None => None,
            }
            &&& f[8] == match text_at(record, "ScopeName"@) {
                Some(t) => Some("ScopeName"@ + "="@ + t),
                None => None,
            }
            &&& f[9] == match text_at(record, "Name"@) {
                Some(t) => Some("Name"@ + "="@ + t),
                None => None,
            }
            &&& f[10] == match text_at(record, "TransportName"@) {
                Some(t) => Some("TransportName"@ + "="@ + t),
                None => None,
            }
            &&& f[11] == match address_at(record, "Address"@) {
                Some(t) => Some("Address"@ + "="@ + t),
                None => None,
            }
            &&& f[12] == match number_at(record, "DesiredAccess"@) {
                Some(v) => Some("DesiredAccess"@ + "="@ + ("0x"@ + hex(v % 0x1_0000_0000, 8, true))),
                None => None,
            }
        }),
{
    lemma_one_name(crate::events::P_CONN_GUID@, |n: Seq<char>| guid_at(record, n));
    lemma_one_name(crate::events::P_SESSION_GUID@, |n: Seq<char>| guid_at(record, n));
    lemma_one_name(crate::events::P_TREE_GUID@, |n: Seq<char>| guid_at(record, n));
    lemma_one_name(crate::events::P_SHARE_GUID@, |n: Seq<char>| guid_at(record, n));
    lemma_one_name(crate::events::P_OPEN_GUID@, |n: Seq<char>| guid_at(record, n));
    lemma_one_name(crate::events::P_USER_NAME@, |n: Seq<char>| text_at(record, n));
    lemma_one_name(crate::events::P_DOMAIN_NAME@, |n: Seq<char>| text_at(record, n));
    lemma_one_name(crate::events::P_SHARE_NAME@, |n: Seq<char>| text_at(record, n));
    lemma_one_name(crate::events::P_SCOPE_NAME@, |n: Seq<char>| text_at(record, n));
    lemma_one_name(crate::events::P_FILE_NAME@, |n: Seq<char>| text_at(record, n));
    lemma_one_name(crate::events::P_TRANSPORT@, |n: Seq<char>| text_at(record, n));
    lemma_one_name(crate::events::P_ADDRESS@, |n: Seq<char>| address_at(record, n));
    lemma_one_name(crate::events::P_DESIRED_ACCESS@, |n: Seq<char>| number_at(record, n));
}

/// The fields that are there stand in their order with two blanks between them.
pub proof fn law_fields_are_joined(
    fields: Seq<Option<Seq<char>>>,
    f: Seq<char>,
    parts: Seq<Seq<char>>,
    sep: Seq<char>,
)
    ensures
        present(Seq::empty()).len() == 0,
        present(fields.push(None)) == present(fields),
        present(fields.push(Some(f))) == present(fields).push(f),
        joined(Seq::empty(), sep).len() == 0,
        joined(seq![f], sep) == f,
        parts.len() > 0 ==> joined(parts.push(f), sep) == joined(parts, sep) + sep + f,
{
    assert(fields.push(None).drop_last() =~= fields);
    assert(fields.push(Some(f)).drop_last() =~= fields);
    assert(parts.push(f).drop_last() =~= parts);
    assert(seq![f][0] == f);
}

} // verus!
