//! Sessions: what a visitor has stored, found again by an identifier, and forgotten after
//! half an hour without use.
//!
//! Points in time are nanoseconds since some fixed origin.
use std::collections::hash_map::DefaultHasher;
use std::hash::Hasher;
use vstd::bytes::{spec_u128_to_le_bytes, u128_to_le_bytes};
use vstd::prelude::*;
use vstd::std_specs::hash::DefaultHasherAdditionalSpecFns;

use crate::numbers::{hexadecimal, write_hexadecimal};
use crate::table::{kept, TextMap};

verus! {

/// How long a session lives without being used: half an hour, in nanoseconds.
pub const SESSION_TIMEOUT: u128 = 1_800_000_000_000;

/// The name of the cookie that carries the identifier of a session.
pub const COOKIE_NAME: &'static str = "RUSTSESSIONID";

/// What a session holds.
#[verifier::ext_equal]
pub struct SessionView {
    pub id: Seq<char>,
    pub data: Map<Seq<char>, Seq<char>>,
    pub last_accessed: u128,
}

/// A session.
pub struct Session {
    pub id: String,
    pub data: TextMap<String>,
    pub last_accessed: u128,
}

impl View for Session {
    type V = SessionView;

    open spec fn view(&self) -> SessionView {
        SessionView { id: self.id@, data: self.data@, last_accessed: self.last_accessed }
    }
}

/// A session with nothing stored in it.
pub open spec fn fresh_session(id: Seq<char>, now: u128) -> SessionView {
    SessionView { id, data: Map::empty(), last_accessed: now }
}

/// The session after a use at `now`.
pub open spec fn touched(s: SessionView, now: u128) -> SessionView {
    SessionView { last_accessed: now, ..s }
}

/// The session was used less than the time limit ago.
pub open spec fn is_live(s: SessionView, now: u128) -> bool {
    now - s.last_accessed < SESSION_TIMEOUT
}

/// Every session stands under its own identifier.
pub open spec fn keyed_by_id(sessions: Map<Seq<char>, SessionView>) -> bool {
    forall|k: Seq<char>| #[trigger] sessions.contains_key(k) ==> sessions[k].id == k
}

impl Session {
    /// A session with nothing stored in it.
    pub fn new(id: String, now: u128) -> (r: Session)
        ensures
            r@ == fresh_session(id@, now),
    {
        Session { id, data: TextMap::new(), last_accessed: now }
    }

    /// Notes a use of the session.
    pub fn update_access_time(&mut self, now: u128)
        ensures
            final(self)@ == touched(old(self)@, now),
    {
        self.last_accessed = now;
    }
}

/// The number that a `DefaultHasher` makes of a number, fed to it as its sixteen bytes, the
/// lowest first.
pub open spec fn default_hash(value: u128) -> u64 {
    DefaultHasher::spec_finish(seq![spec_u128_to_le_bytes(value)])
}

/// Hashes a number.
fn hash_number(value: u128) -> (r: u64)
    ensures
        r == default_hash(value),
{
    let bytes = u128_to_le_bytes(value);
    let mut hasher = DefaultHasher::new();
    hasher.write(bytes.as_slice());
    assert(hasher@ =~= seq![spec_u128_to_le_bytes(value)]);
    hasher.finish()
}

/// The point in time at which a request is handled, with the number from which the
/// identifier of a session opened then is made.
#[derive(Debug, PartialEq, Eq, Copy, Clone, Structural)]
pub struct Moment {
    pub now: u128,
    pub number: u64,
}

impl Moment {
    /// The point `now`, at which the wall clock shows `unix_nanos` nanoseconds since the
    /// beginning of 1970.
    pub fn new(now: u128, unix_nanos: u128) -> (r: Moment)
        ensures
            r.now == now,
            r.number == default_hash(unix_nanos),
    {
        Moment { now, number: hash_number(unix_nanos) }
    }
}

/// The identifier of a session opened at a moment: its number in hexadecimal.
pub open spec fn session_id(moment: Moment) -> Seq<char> {
    hexadecimal(moment.number as nat)
}

/// The sessions that the server knows.
pub struct SessionManager {
    pub sessions: TextMap<Session>,
}

impl View for SessionManager {
    type V = Map<Seq<char>, SessionView>;

    open spec fn view(&self) -> Map<Seq<char>, SessionView> {
        self.sessions@
    }
}

impl SessionManager {
    /// A manager that knows no session.
    pub fn new() -> (r: SessionManager)
        ensures
            r@ == Map::<Seq<char>, SessionView>::empty(),
    {
        SessionManager { sessions: TextMap::new() }
    }

    /// Opens a session. A session that stood under the same identifier is replaced.
    pub fn create_session(&mut self, moment: Moment) -> (id: String)
        ensures
            id@ == session_id(moment),
            final(self)@ == old(self)@.insert(id@, fresh_session(id@, moment.now)),
    {
        let id = write_hexadecimal(moment.number);
        self.sessions.insert(id.clone(), Session::new(id.clone(), moment.now));
        id
    }

    /// The session under an identifier, with the use at `now` noted in it.
    pub fn get_session(&mut self, session_id: &str, now: u128) -> (r: Option<&mut Session>)
        ensures
            match r {
                Some(s) => {
                    &&& old(self)@.contains_key(session_id@)
                    &&& s@ == touched(old(self)@[session_id@], now)
                    &&& final(self)@ == old(self)@.insert(session_id@, final(s)@)
                },
                None => !old(self)@.contains_key(session_id@) && *final(self) == *old(self),
            },
    {
        match self.sessions.get_mut(session_id) {
            Some(session) => {
                session.update_access_time(now);
                Some(session)
            },
            None => None,
        }
    }

    /// Forgets the sessions that have not been used for the time limit.
    pub fn cleanup_expired_sessions(&mut self, now: u128)
        ensures
            final(self)@ == kept(
                old(self)@,
                |s: SessionView| is_live(s, now),
            ),
    {
        let keep = |s: &Session| -> (b: bool)
            ensures
                b == is_live(s@, now),
            { s.last_accessed > now || now - s.last_accessed < SESSION_TIMEOUT };
        self.sessions.retain(keep, Ghost(|s: SessionView| is_live(s, now)));
    }
}

} // verus!
