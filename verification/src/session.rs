//! Sessions: random identifiers handed out in cookies, each marked as
//! authenticated or not.
use vstd::prelude::*;
use vstd::hash_map::StringHashMap;
use std::time::Duration;
use std::time::Instant;

verus! {

#[verifier::external_type_specification]
#[verifier::external_body]
pub struct ExInstant(Instant);

/// Calls `Instant::now`. The clock's reading is not stated.
#[verifier::external_body]
fn instant_now() -> Instant {
    Instant::now()
}

/// Calls `Instant::checked_add`. Whether the sum fits and what it is are
/// not stated: `Instant` is opaque here.
#[verifier::external_body]
fn instant_checked_add(i: Instant, d: Duration) -> Option<Instant> {
    i.checked_add(d)
}

/// Calls `uuid::Uuid::new_v4` and formats the identifier with
/// `to_string`. The identifier is random; its text is the hyphenated form,
/// 36 characters long, as the `Display` impl of `Uuid` writes it.
#[verifier::external_body]
fn random_session_id() -> (r: String)
    ensures
        r@.len() == 36,
{
    uuid::Uuid::new_v4().to_string()
}

pub struct Session {
    pub id: String,
    pub authenticated: bool,
    pub expiry: Instant,
}

/// The sessions once `id` is marked authenticated: unchanged when no
/// session has that identifier.
pub open spec fn with_authenticated(sessions: Map<Seq<char>, Session>, id: Seq<char>) -> Map<Seq<char>, Session> {
    if sessions.contains_key(id) {
        sessions.insert(id, Session { id: sessions[id].id, authenticated: true, expiry: sessions[id].expiry })
    } else {
        sessions
    }
}

/// `id` names a session that is authenticated.
pub open spec fn authenticated_in(sessions: Map<Seq<char>, Session>, id: Seq<char>) -> bool {
    sessions.contains_key(id) && sessions[id].authenticated
}

pub struct SessionManager {
    sessions: StringHashMap<Session>,
    session_duration: Duration,
}

impl SessionManager {
    /// The sessions, by identifier.
    pub closed spec fn sessions(&self) -> Map<Seq<char>, Session> {
        self.sessions@
    }

    pub closed spec fn duration(&self) -> Duration {
        self.session_duration
    }

    pub fn new(session_duration: Duration) -> (r: Self)
        ensures
            r.sessions() == Map::<Seq<char>, Session>::empty(),
            r.duration() == session_duration,
    {
        SessionManager { sessions: StringHashMap::new(), session_duration }
    }

    /// Starts a session under a fresh random identifier, not authenticated,
    /// expiring after the manager's duration; returns the identifier.
    pub fn create_session(&mut self) -> (r: String)
        ensures
            r@.len() == 36,
            final(self).duration() == old(self).duration(),
            final(self).sessions().dom() == old(self).sessions().dom().insert(r@),
            final(self).sessions()[r@].id@ == r@,
            !final(self).sessions()[r@].authenticated,
            forall|k: Seq<char>|
                #![auto]
                k != r@ && old(self).sessions().contains_key(k) ==> (final(self).sessions()[k]
                    == old(self).sessions()[k]),
    {
        let session_id = random_session_id();
        let now = instant_now();
        let expiry = match instant_checked_add(now, self.session_duration) {
            Some(t) => t,
            None => now,
        };
        let session = Session { id: session_id.clone(), authenticated: false, expiry };
        self.sessions.insert(session_id.clone(), session);
        session_id
    }

    /// Marks a known session as authenticated; does nothing for an unknown
    /// identifier.
    pub fn authenticate(&mut self, session_id: &str)
        ensures
            final(self).duration() == old(self).duration(),
            final(self).sessions() == with_authenticated(old(self).sessions(), session_id@),
    {
        let updated = match self.sessions.get(session_id) {
            Some(s) => Some(Session { id: s.id.clone(), authenticated: true, expiry: s.expiry }),
            None => None,
        };
        match updated {
            Some(s) => {
                self.sessions.insert(String::from_str(session_id), s);
                assert(final(self).sessions() =~= with_authenticated(old(self).sessions(), session_id@));
            },
            None => {
                assert(old(self).sessions() =~= with_authenticated(old(self).sessions(), session_id@));
            },
        }
    }

    /// Whether `session_id` names an authenticated session.
    pub fn is_authenticated(&self, session_id: &str) -> (r: bool)
        ensures
            r == authenticated_in(self.sessions(), session_id@),
    {
        match self.sessions.get(session_id) {
            Some(s) => s.authenticated,
            None => false,
        }
    }
}

/// Authenticating a known session makes it authenticated; an unknown
/// identifier stays unauthenticated.
pub proof fn law_authenticate_grants(sessions: Map<Seq<char>, Session>, id: Seq<char>)
    ensures
        authenticated_in(with_authenticated(sessions, id), id) == sessions.contains_key(id),
{
}

/// Authenticating one session leaves every other session as it was.
pub proof fn law_authenticate_only_target(sessions: Map<Seq<char>, Session>, id: Seq<char>, other: Seq<char>)
    requires
        other != id,
    ensures
        authenticated_in(with_authenticated(sessions, id), other) == authenticated_in(sessions, other),
        with_authenticated(sessions, id).contains_key(other) == sessions.contains_key(other),
{
}

/// A new session is known and not yet authenticated; authenticating it
/// then makes it authenticated.
pub proof fn law_new_session_then_authenticate(
    before: Map<Seq<char>, Session>,
    after: Map<Seq<char>, Session>,
    id: Seq<char>,
)
    requires
        after.dom() == before.dom().insert(id),
        !after[id].authenticated,
    ensures
        !authenticated_in(after, id),
        authenticated_in(with_authenticated(after, id), id),
{
}

} // verus!
