//! Lifecycle events by integer ids: connections, sessions, tree connects and opens,
//! with the property names tried in turn. The names are candidates, to be trimmed to
//! those that parse on a live server.

use crate::events::{
    first_of, first_str, first_u64, number_at, text_at, E_CONN_ACCEPT, E_CONN_DISC, E_CONN_TERM,
    E_OPEN, E_SESS_AUTH, E_SESS_CLOSE, E_SESS_TERM, E_TREE_ALLOC, E_TREE_DISC, E_TREE_TERM,
    Property,
};
use vstd::prelude::*;

verus! {

pub const P_CONN_ID: [&'static str; 3] = ["ConnectionId", "ConnId", "Connection"];

pub const P_SESSION_ID: [&'static str; 3] = ["SessionId", "SmbSessionId", "SessId"];

pub const P_TREE_ID: [&'static str; 3] = ["TreeConnectId", "TreeId", "TreeConnect"];

pub const P_USER_NAME: [&'static str; 4] = ["UserName", "User", "Account", "AccountName"];

pub const P_USER_SID: [&'static str; 4] = ["UserSid", "Sid", "SidString", "SecurityId"];

pub const P_SHARE_NAME: [&'static str; 2] = ["ShareName", "Share"];

pub const P_FILE_NAME: [&'static str; 4] = ["FileName", "Name", "RelativeTargetName", "FilePath"];

pub const P_CLIENT_ADDR: [&'static str; 3] = ["ClientAddress", "Address", "ClientName"];

/// A normalized lifecycle event.
#[derive(Debug, Clone)]
pub enum SmbEvent {
    ConnAccept { conn_id: u64, client: String },
    ConnEnd { conn_id: u64 },
    SessionAuth { session_id: u64, conn_id: Option<u64>, user: String },
    SessionEnd { session_id: u64 },
    TreeConnect { tree_id: u64, session_id: u64, share: String },
    TreeEnd { tree_id: u64 },
    Open { session_id: Option<u64>, tree_id: Option<u64>, path: String },
}

/// The mathematical value of a lifecycle event.
pub enum EventView {
    ConnAccept { conn_id: nat, client: Seq<char> },
    ConnEnd { conn_id: nat },
    SessionAuth { session_id: nat, conn_id: Option<nat>, user: Seq<char> },
    SessionEnd { session_id: nat },
    TreeConnect { tree_id: nat, session_id: nat, share: Seq<char> },
    TreeEnd { tree_id: nat },
    Open { session_id: Option<nat>, tree_id: Option<nat>, path: Seq<char> },
}

/// An optional id as a number.
pub open spec fn opt_id(v: Option<u64>) -> Option<nat> {
    match v {
        Some(n) => Some(n as nat),
        None => None,
    }
}

impl View for SmbEvent {
    type V = EventView;

    open spec fn view(&self) -> EventView {
        match self {
            SmbEvent::ConnAccept { conn_id, client } => EventView::ConnAccept {
                conn_id: *conn_id as nat,
                client: client@,
            },
            SmbEvent::ConnEnd { conn_id } => EventView::ConnEnd { conn_id: *conn_id as nat },
            SmbEvent::SessionAuth { session_id, conn_id, user } => EventView::SessionAuth {
                session_id: *session_id as nat,
                conn_id: opt_id(*conn_id),
                user: user@,
            },
            SmbEvent::SessionEnd { session_id } => EventView::SessionEnd {
                session_id: *session_id as nat,
            },
            SmbEvent::TreeConnect { tree_id, session_id, share } => EventView::TreeConnect {
                tree_id: *tree_id as nat,
                session_id: *session_id as nat,
                share: share@,
            },
            SmbEvent::TreeEnd { tree_id } => EventView::TreeEnd { tree_id: *tree_id as nat },
            SmbEvent::Open { session_id, tree_id, path } => EventView::Open {
                session_id: opt_id(*session_id),
                tree_id: opt_id(*tree_id),
                path: path@,
            },
        }
    }
}

/// A record's number under the first of `names` that parses.
pub open spec fn id_in(record: Seq<Property>, names: Seq<&str>) -> Option<nat> {
    first_of(names, |n: Seq<char>| number_at(record, n))
}

/// A record's text under the first of `names` that parses.
pub open spec fn text_in(record: Seq<Property>, names: Seq<&str>) -> Option<Seq<char>> {
    first_of(names, |n: Seq<char>| text_at(record, n))
}

/// A text or, without one, another.
pub open spec fn text_or(t: Option<Seq<char>>, other: Seq<char>) -> Seq<char> {
    match t {
        Some(s) => s,
        None => other,
    }
}

/// The event that a record stands for. Every event but an open needs its own id; a
/// user without a name is known by its SID, or else not at all.
pub open spec fn lifecycle_of(event_id: u16, record: Seq<Property>) -> Option<EventView> {
    let conn = id_in(record, P_CONN_ID@);
    let session = id_in(record, P_SESSION_ID@);
    let tree = id_in(record, P_TREE_ID@);
    if event_id == E_CONN_ACCEPT {
        match conn {
            Some(conn_id) => Some(
                EventView::ConnAccept {
                    conn_id,
                    client: text_or(text_in(record, P_CLIENT_ADDR@), Seq::empty()),
                },
            ),
            None => None,
        }
    } else if event_id == E_CONN_DISC || event_id == E_CONN_TERM {
        match conn {
            Some(conn_id) => Some(EventView::ConnEnd { conn_id }),
            None => None,
        }
    } else if event_id == E_SESS_AUTH {
        match session {
            Some(session_id) => Some(
                EventView::SessionAuth {
                    session_id,
                    conn_id: conn,
                    user: text_or(
                        text_in(record, P_USER_NAME@),
                        text_or(text_in(record, P_USER_SID@), "<unknown>"@),
                    ),
                },
            ),
            None => None,
        }
    } else if event_id == E_SESS_TERM || event_id == E_SESS_CLOSE {
        match session {
            Some(session_id) => Some(EventView::SessionEnd { session_id }),
            None => None,
        }
    } else if event_id == E_TREE_ALLOC {
        match tree {
            Some(tree_id) => Some(
                EventView::TreeConnect {
                    tree_id,
                    session_id: match session {
                        Some(s) => s,
                        None => 0,
                    },
                    share: text_or(text_in(record, P_SHARE_NAME@), Seq::empty()),
                },
            ),
            None => None,
        }
    } else if event_id == E_TREE_DISC || event_id == E_TREE_TERM {
        match tree {
            Some(tree_id) => Some(EventView::TreeEnd { tree_id }),
            None => None,
        }
    } else if event_id == E_OPEN {
        Some(
            EventView::Open {
                session_id: session,
                tree_id: tree,
                path: text_or(text_in(record, P_FILE_NAME@), Seq::empty()),
            },
        )
    } else {
        None
    }
}

fn or_else(s: Option<String>, other: String) -> (r: String)
    ensures
        r@ == text_or(crate::text::opt_text(s), other@),
{
    match s {
        Some(t) => t,
        None => other,
    }
}

/// Map a record to a lifecycle event; nothing for an event id that is not modelled,
/// or where a required id is missing.
pub fn parse_event(event_id: u16, record: &[Property]) -> (r: Option<SmbEvent>)
    ensures
        match r {
            Some(ev) => lifecycle_of(event_id, record@) == Some(ev@),
            None => lifecycle_of(event_id, record@) is None,
        },
{
    if event_id == E_CONN_ACCEPT {
        match first_u64(record, &P_CONN_ID) {
            Some(conn_id) => {
                let client = or_else(first_str(record, &P_CLIENT_ADDR), String::new());
                Some(SmbEvent::ConnAccept { conn_id, client })
            },
            None => None,
        }
    } else if event_id == E_CONN_DISC || event_id == E_CONN_TERM {
        match first_u64(record, &P_CONN_ID) {
            Some(conn_id) => Some(SmbEvent::ConnEnd { conn_id }),
            None => None,
        }
    } else if event_id == E_SESS_AUTH {
        match first_u64(record, &P_SESSION_ID) {
            Some(session_id) => {
                let conn_id = first_u64(record, &P_CONN_ID);
                let sid = or_else(first_str(record, &P_USER_SID), "<unknown>".to_owned());
                let user = or_else(first_str(record, &P_USER_NAME), sid);
                Some(SmbEvent::SessionAuth { session_id, conn_id, user })
            },
            None => None,
        }
    } else if event_id == E_SESS_TERM || event_id == E_SESS_CLOSE {
        match first_u64(record, &P_SESSION_ID) {
            Some(session_id) => Some(SmbEvent::SessionEnd { session_id }),
            None => None,
        }
    } else if event_id == E_TREE_ALLOC {
        match first_u64(record, &P_TREE_ID) {
            Some(tree_id) => {
                let session_id: u64 = match first_u64(record, &P_SESSION_ID) {
                    Some(s) => s,
                    None => 0,
                };
                let share = or_else(first_str(record, &P_SHARE_NAME), String::new());
                Some(SmbEvent::TreeConnect { tree_id, session_id, share })
            },
            None => None,
        }
    } else if event_id == E_TREE_DISC || event_id == E_TREE_TERM {
        match first_u64(record, &P_TREE_ID) {
            Some(tree_id) => Some(SmbEvent::TreeEnd { tree_id }),
            None => None,
        }
    } else if event_id == E_OPEN {
        let session_id = first_u64(record, &P_SESSION_ID);
        let tree_id = first_u64(record, &P_TREE_ID);
        let path = or_else(first_str(record, &P_FILE_NAME), String::new());
        Some(SmbEvent::Open { session_id, tree_id, path })
    } else {
        None
    }
}

} // verus!
