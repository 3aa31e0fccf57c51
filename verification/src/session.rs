//! The session table: an ephemeral store of session records keyed by an
//! unguessable identifier.  A session lives a fixed lifetime from its
//! creation; activity is recorded on it but never extends its expiry, which
//! is absolute.

use vstd::prelude::*;

use crate::store::EphemeralStore;
use crate::text::str_eq;

verus! {

/// How long a session lives, in seconds, from its creation.
pub const SESSION_LIFETIME_SECONDS: u64 = 24 * 3600;

/// One login's state: who owns it, when it was created and expires, when it
/// was last seen, and where it came from.
pub struct Session {
    pub session_id: String,
    pub user_id: String,
    pub created_at: u64,
    pub expires_at: u64,
    pub last_activity: u64,
    pub ip_address: String,
    pub user_agent: String,
}

/// The session no longer counts at instant `now`; expiry is absolute and
/// strict, so a session is still valid at its own `expires_at`.
pub open spec fn spec_expired(s: Session, now: u64) -> bool {
    now > s.expires_at
}

/// The table maps `k` to a session that a lookup at `now` still returns.
pub open spec fn active(m: Map<Seq<char>, Session>, k: Seq<char>, now: u64) -> bool {
    m.contains_key(k) && !spec_expired(m[k], now)
}

/// Relies on uuid::Uuid::new_v4 and its Display form: a fresh random
/// version-4 identifier, rendered as 36 characters of hyphenated lower-case
/// hex.  Nothing but its length can be promised of a random identifier.
#[verifier::external_body]
fn fresh_session_id() -> (r: String)
    ensures
        r@.len() == 36,
{
    uuid::Uuid::new_v4().to_string()
}

impl Session {
    /// A fresh session for `user_id`, created at `now` with the fixed
    /// lifetime, under a newly generated unguessable identifier.
    pub fn new(user_id: String, ip_address: String, user_agent: String, now: u64) -> (r: Session)
        requires
            now + SESSION_LIFETIME_SECONDS <= u64::MAX,
        ensures
            r.session_id@.len() == 36,
            r.user_id == user_id,
            r.created_at == now,
            r.expires_at == now + SESSION_LIFETIME_SECONDS,
            r.last_activity == now,
            r.ip_address == ip_address,
            r.user_agent == user_agent,
    {
        Session {
            session_id: fresh_session_id(),
            user_id,
            created_at: now,
            expires_at: now + SESSION_LIFETIME_SECONDS,
            last_activity: now,
            ip_address,
            user_agent,
        }
    }

    /// The session no longer counts at instant `now`.
    pub fn is_expired(&self, now: u64) -> (r: bool)
        ensures
            r == spec_expired(*self, now),
    {
        now > self.expires_at
    }

    /// Records activity at instant `now`; nothing else changes, in
    /// particular not the expiry.
    pub fn update_activity(&mut self, now: u64)
        ensures
            final(self).last_activity == now,
            final(self).session_id == old(self).session_id,
            final(self).user_id == old(self).user_id,
            final(self).created_at == old(self).created_at,
            final(self).expires_at == old(self).expires_at,
            final(self).ip_address == old(self).ip_address,
            final(self).user_agent == old(self).user_agent,
    {
        self.last_activity = now;
    }

    /// A field-for-field copy.
    pub fn duplicate(&self) -> (r: Session)
        ensures
            r == *self,
    {
        Session {
            session_id: self.session_id.clone(),
            user_id: self.user_id.clone(),
            created_at: self.created_at,
            expires_at: self.expires_at,
            last_activity: self.last_activity,
            ip_address: self.ip_address.clone(),
            user_agent: self.user_agent.clone(),
        }
    }
}

/// An ephemeral store of sessions, each visible exactly through its own
/// `expires_at` instant and keyed by its own identifier.
pub struct SessionTable {
    store: EphemeralStore<Session>,
}

impl View for SessionTable {
    type V = Map<Seq<char>, Session>;

    closed spec fn view(&self) -> Map<Seq<char>, Session> {
        Map::new(
            |k: Seq<char>| self.store@.contains_key(k),
            |k: Seq<char>| self.store@[k].0,
        )
    }
}

impl SessionTable {
    /// Every entry sits under its session's own identifier, and its store
    /// expiry makes the entry visible exactly while the session is unexpired:
    /// through `expires_at` itself, strictly after it no more.
    pub closed spec fn wf(&self) -> bool {
        &&& self.store.wf()
        &&& forall|k: Seq<char>| #[trigger] self.store@.contains_key(k)
            ==> self.store@[k].0.session_id@ == k && self.store@[k].1 == self.store@[
                k
            ].0.expires_at + 1
    }

    /// An empty table.
    pub fn new() -> (r: Self)
        ensures
            r.wf(),
            r@ == Map::<Seq<char>, Session>::empty(),
    {
        let r = SessionTable { store: EphemeralStore::new() };
        proof {
            assert(r@ =~= Map::<Seq<char>, Session>::empty());
        }
        r
    }
}

/// Creates a session for `user_id` at instant `now` and files it under its
/// fresh identifier; the caller gets the session back, identifier included.
pub fn create_session(
    table: &mut SessionTable,
    user_id: String,
    ip_address: String,
    user_agent: String,
    now: u64,
) -> (r: Session)
    requires
        old(table).wf(),
        now + SESSION_LIFETIME_SECONDS < u64::MAX,
    ensures
        final(table).wf(),
        r.session_id@.len() == 36,
        r.user_id == user_id,
        r.created_at == now,
        r.expires_at == now + SESSION_LIFETIME_SECONDS,
        r.last_activity == now,
        r.ip_address == ip_address,
        r.user_agent == user_agent,
        final(table)@ == old(table)@.insert(r.session_id@, r),
{
    let s = Session::new(user_id, ip_address, user_agent, now);
    let copy = s.duplicate();
    let expiry = s.expires_at + 1;
    table.store.put_until(s.session_id.as_str(), copy, expiry);
    proof {
        assert(table@ =~= old(table)@.insert(s.session_id@, s));
    }
    s
}

/// The session under `session_id`, while it is unexpired at `now`; an
/// expired one is evicted on the way and reported absent, exactly as a
/// missing one is.
pub fn get_session(table: &mut SessionTable, session_id: &str, now: u64) -> (r: Option<Session>)
    requires
        old(table).wf(),
    ensures
        final(table).wf(),
        active(old(table)@, session_id@, now) ==> final(table)@ == old(table)@ && (r matches Some(
            s,
        ) && s == old(table)@[session_id@]),
        !active(old(table)@, session_id@, now) ==> r is None && final(table)@ == old(
            table,
        )@.remove(session_id@),
{
    let r = match table.store.get(session_id, now) {
        Some(s) => Some(s.duplicate()),
        None => None,
    };
    proof {
        if active(old(table)@, session_id@, now) {
            assert(table@ =~= old(table)@);
        } else {
            assert(table@ =~= old(table)@.remove(session_id@));
        }
    }
    r
}

/// Records activity at `now` on the session under `session_id`: its
/// `last_activity` becomes `now` and nothing else changes — in particular
/// the expiry is not extended.  A missing or expired session is left absent.
pub fn update_session_activity(table: &mut SessionTable, session_id: &str, now: u64)
    requires
        old(table).wf(),
    ensures
        final(table).wf(),
        active(old(table)@, session_id@, now) ==> final(table)@ == old(table)@.insert(
            session_id@,
            Session { last_activity: now, ..old(table)@[session_id@] },
        ),
        !active(old(table)@, session_id@, now) ==> final(table)@ == old(table)@.remove(
            session_id@,
        ),
{
    match table.store.take(session_id, now) {
        Some((mut s, expiry)) => {
            s.update_activity(now);
            table.store.put_until(session_id, s, expiry);
            proof {
                assert(table@ =~= old(table)@.insert(
                    session_id@,
                    Session { last_activity: now, ..old(table)@[session_id@] },
                ));
            }
        },
        None => {
            proof {
                assert(table@ =~= old(table)@.remove(session_id@));
            }
        },
    }
}

/// Removes the session under `session_id`; a no-op when it is absent.
pub fn remove_session(table: &mut SessionTable, session_id: &str)
    requires
        old(table).wf(),
    ensures
        final(table).wf(),
        final(table)@ == old(table)@.remove(session_id@),
{
    table.store.delete(session_id);
    proof {
        assert(table@ =~= old(table)@.remove(session_id@));
    }
}

/// Removes every session that is expired at `now`, looked up or not.
pub fn cleanup_expired_sessions(table: &mut SessionTable, now: u64)
    requires
        old(table).wf(),
    ensures
        final(table).wf(),
        forall|k: Seq<char>| final(table)@.contains_key(k) == (old(table)@.contains_key(k)
            && !spec_expired(old(table)@[k], now)),
        forall|k: Seq<char>| #[trigger] final(table)@.contains_key(k) ==> final(table)@[k] == old(
            table,
        )@[k],
{
    table.store.sweep(now);
    proof {
        assert forall|k: Seq<char>| table@.contains_key(k) == (old(table)@.contains_key(k)
            && !spec_expired(old(table)@[k], now)) by {
            if old(table)@.contains_key(k) {
                assert(old(table).store@[k].1 == old(table).store@[k].0.expires_at + 1);
            }
        }
        assert forall|k: Seq<char>| #[trigger] table@.contains_key(k) implies table@[k] == old(
            table,
        )@[k] by {
            assert(table.store@[k] == old(table).store@[k]);
        }
    }
}

/// Every session of `user_id` that is unexpired at `now`: one consistent
/// snapshot, each session exactly once, expired and foreign sessions left
/// out.  Nothing is evicted on the way.
#[verifier::rlimit(30)]
pub fn get_active_sessions(table: &SessionTable, user_id: &str, now: u64) -> (r: Vec<Session>)
    requires
        table.wf(),
    ensures
        forall|j: int| 0 <= j < r@.len() ==> table@.contains_key(#[trigger] r@[j].session_id@)
            && r@[j] == table@[r@[j].session_id@] && r@[j].user_id@ == user_id@ && !spec_expired(
            r@[j],
            now,
        ),
        forall|k: Seq<char>| table@.contains_key(k) && table@[k].user_id@ == user_id@
            && !spec_expired(table@[k], now) ==> exists|j: int|
            0 <= j < r@.len() && #[trigger] r@[j].session_id@ == k,
        forall|j1: int, j2: int| 0 <= j1 < j2 < r@.len() ==> r@[j1].session_id@ != r@[
            j2
        ].session_id@,
{
    let keys = table.store.keys();
    let mut r: Vec<Session> = Vec::new();
    let mut i: usize = 0;
    while i < keys.len()
        invariant
            table.wf(),
            0 <= i <= keys@.len(),
            forall|j: int| 0 <= j < keys@.len() ==> table@.contains_key(#[trigger] keys@[j]@),
            forall|k: Seq<char>| table@.contains_key(k) ==> exists|j: int|
                0 <= j < keys@.len() && #[trigger] keys@[j]@ == k,
            forall|j1: int, j2: int| 0 <= j1 < j2 < keys@.len() ==> keys@[j1]@ != keys@[j2]@,
            forall|j: int| 0 <= j < r@.len() ==> exists|m: int|
                0 <= m < i && #[trigger] r@[j].session_id@ == keys@[m]@,
            forall|j: int| 0 <= j < r@.len() ==> table@.contains_key(
                #[trigger] r@[j].session_id@,
            ) && r@[j] == table@[r@[j].session_id@] && r@[j].user_id@ == user_id@ && !spec_expired(
                r@[j],
                now,
            ),
            forall|m: int| 0 <= m < i && table@[#[trigger] keys@[m]@].user_id@ == user_id@
                && !spec_expired(table@[keys@[m]@], now) ==> exists|j: int|
                0 <= j < r@.len() && #[trigger] r@[j].session_id@ == keys@[m]@,
            forall|j1: int, j2: int| 0 <= j1 < j2 < r@.len() ==> r@[j1].session_id@ != r@[
                j2
            ].session_id@,
        decreases keys@.len() - i,
    {
        let ghost k_i = keys@[i as int]@;
        match table.store.read(keys[i].as_str()) {
            Some((s, _)) => {
                proof {
                    assert(s.session_id@ == k_i);
                }
                if str_eq(s.user_id.as_str(), user_id) && !s.is_expired(now) {
                    let ghost r0 = r@;
                    proof {
                        assert forall|j: int| 0 <= j < r0.len() implies r0[j].session_id@
                            != k_i by {
                            let m = choose|m: int|
                                0 <= m < i && #[trigger] r0[j].session_id@ == keys@[m]@;
                            assert(keys@[m]@ != keys@[i as int]@);
                        }
                    }
                    r.push(s.duplicate());
                    proof {
                        assert(r@ == r0.push(r@[r0.len() as int]));
                        assert(r@[r0.len() as int].session_id@ == k_i);
                        assert forall|m: int| 0 <= m < i + 1 && table@[
                            #[trigger] keys@[m]@
                        ].user_id@ == user_id@ && !spec_expired(table@[keys@[m]@], now) implies exists|j: int|
                            0 <= j < r@.len() && #[trigger] r@[j].session_id@ == keys@[m]@ by {
                            if m < i {
                                let j = choose|j: int|
                                    0 <= j < r0.len() && #[trigger] r0[j].session_id@ == keys@[m]@;
                                assert(r@[j].session_id@ == keys@[m]@);
                            } else {
                                assert(r@[r0.len() as int].session_id@ == keys@[m]@);
                            }
                        }
                    }
                }
            },
            None => {},
        }
        i = i + 1;
    }
    proof {
        assert forall|k: Seq<char>| table@.contains_key(k) && table@[k].user_id@ == user_id@
            && !spec_expired(table@[k], now) implies exists|j: int|
            0 <= j < r@.len() && #[trigger] r@[j].session_id@ == k by {
            // every key of the table occurs in the snapshot the loop walked
            let m = choose|m: int| 0 <= m < keys@.len() && #[trigger] keys@[m]@ == k;
            assert(table@[keys@[m]@] == table@[k]);
        }
    }
    r
}

} // verus!
