//! Decoding one protocol line against per-connection session state.
//!
//! A line holding the `->` delimiter is a directed message, accepted only
//! once this session has logged in; a bare alphanumeric line is a login,
//! case-folded to lowercase; anything else is noise and decodes to
//! [`Event::Empty`].  The name a decode consults is scoped to the one
//! session passed in, never shared between connections.

use vstd::prelude::*;

use crate::text::all_alnum;
use crate::text::check_all_alnum;
use crate::text::find_arrow;
use crate::text::lower_of;
use crate::text::recipients_of;
use crate::text::spec_find_arrow;
use crate::text::split_and_trim;
use crate::text::trim_of;
use crate::text::trim_str;

verus! {

/// State of one accepted connection: an opaque connection identifier and
/// the display name this connection last logged in under.
pub struct SessionState {
    pub conn: u64,
    pub name: Option<String>,
}

/// Mathematical view of a session: its connection identifier and its
/// display name as a character sequence, if one is set.
pub struct SessionV {
    pub conn: u64,
    pub name: Option<Seq<char>>,
}

impl View for SessionState {
    type V = SessionV;

    open spec fn view(&self) -> SessionV {
        SessionV {
            conn: self.conn,
            name: match self.name {
                Some(n) => Some(n@),
                None => None,
            },
        }
    }
}

impl SessionState {
    /// A fresh session for a newly accepted connection: no name yet.
    pub fn new(conn: u64) -> (s: SessionState)
        ensures
            s@ == (SessionV { conn, name: None }),
    {
        SessionState { conn, name: None }
    }

    /// The logout event a session submits when its stream ends: the last
    /// name it held, or the empty name if it never logged in.
    pub fn logout_event(&self) -> (ev: Event)
        ensures
            ev@ == (EventV::Logout { name: logout_name(self@) }),
    {
        match &self.name {
            Some(n) => Event::Logout { name: n.clone() },
            None => Event::Logout { name: String::new() },
        }
    }
}

/// The name a session's final logout carries: the last login name, or the
/// empty name if the session never logged in.
pub open spec fn logout_name(sess: SessionV) -> Seq<char> {
    match sess.name {
        Some(n) => n,
        None => Seq::empty(),
    }
}

/// One decoded protocol event, consumed exactly once by the dispatcher.
pub enum Event {
    Login { name: String, conn: u64 },
    Message { from: String, to: Vec<String>, msg: String },
    Logout { name: String },
    Empty,
}

/// Mathematical view of an [`Event`], over character sequences.
pub enum EventV {
    Login { name: Seq<char>, conn: u64 },
    Message { from: Seq<char>, to: Seq<Seq<char>>, msg: Seq<char> },
    Logout { name: Seq<char> },
    Empty,
}

impl View for Event {
    type V = EventV;

    open spec fn view(&self) -> EventV {
        match self {
            Event::Login { name, conn } => EventV::Login { name: name@, conn: *conn },
            Event::Message { from, to, msg } => EventV::Message {
                from: from@,
                to: to.deep_view(),
                msg: msg@,
            },
            Event::Logout { name } => EventV::Logout { name: name@ },
            Event::Empty => EventV::Empty,
        }
    }
}

/// The trimmed line is made of alphanumeric characters only and holds no
/// `->` delimiter: it logs this session in under the lowercased name.
pub open spec fn is_login_line(line: Seq<char>) -> bool {
    spec_find_arrow(line) is None && all_alnum(trim_of(line))
}

/// The event one line decodes to, given the session's current state.
pub open spec fn decode_spec(line: Seq<char>, sess: SessionV) -> EventV {
    match spec_find_arrow(line) {
        Some(i) => match sess.name {
            Some(n) => EventV::Message {
                from: n,
                to: recipients_of(line.subrange(0, i)),
                msg: trim_of(line.subrange(i + 2, line.len() as int)),
            },
            None => EventV::Empty,
        },
        None => if all_alnum(trim_of(line)) {
            EventV::Login { name: lower_of(trim_of(line)), conn: sess.conn }
        } else {
            EventV::Empty
        },
    }
}

/// The session state after one line is decoded: a login line overwrites the
/// session's name; every other line leaves the session unchanged.
pub open spec fn session_after(line: Seq<char>, sess: SessionV) -> SessionV {
    if is_login_line(line) {
        SessionV { conn: sess.conn, name: Some(lower_of(trim_of(line))) }
    } else {
        sess
    }
}

/// Decodes one line against this session's own state.
///
/// A `recipients -> body` line yields a message from the session's login
/// name (or `Empty` if the session has not logged in); a bare alphanumeric
/// line logs in, lowercased; any other line yields `Empty`.
pub fn decode(line: &str, session: &mut SessionState) -> (ev: Event)
    ensures
        ev@ == decode_spec(line@, old(session)@),
        final(session)@ == session_after(line@, old(session)@),
{
    match find_arrow(line) {
        Some(i) => {
            let from = match &session.name {
                Some(n) => n.clone(),
                None => {
                    return Event::Empty;
                },
            };
            let n = line.unicode_len();
            let list = line.substring_char(0, i);
            let body = line.substring_char(i + 2, n);
            let to = split_and_trim(list);
            let msg = trim_str(body).to_owned();
            Event::Message { from, to, msg }
        },
        None => {
            let t = trim_str(line);
            if check_all_alnum(t) {
                let name = t.to_lowercase();
                session.name = Some(name.clone());
                Event::Login { name, conn: session.conn }
            } else {
                Event::Empty
            }
        },
    }
}

/// A message line decoded before any login on its session yields `Empty`:
/// no session ever produces a `Message` event while its name is unset.
pub proof fn lemma_no_message_before_login(line: Seq<char>, sess: SessionV)
    requires
        sess.name is None,
    ensures
        !(decode_spec(line, sess) is Message),
{
}

} // verus!
