//! The response cache: an ephemeral store of opaque payload bytes with one
//! fixed time-to-live chosen at construction, plus the convention-based key
//! builders (`kind:id:suffix`) that let a whole family of keys be invalidated
//! by prefix.
//!
//! The cache holds already-encoded bytes; encoding and decoding of richer
//! values is the caller's concern, and a failed encoding is reported by the
//! caller before anything reaches the cache.

use vstd::prelude::*;

use crate::store::EphemeralStore;
use crate::store::live;

verus! {

/// An ephemeral store of payload bytes whose entries all live for the same
/// fixed number of seconds from their insertion.
pub struct Cache {
    ttl: u64,
    store: EphemeralStore<Vec<u8>>,
}

impl View for Cache {
    type V = Map<Seq<char>, (Seq<u8>, u64)>;

    closed spec fn view(&self) -> Map<Seq<char>, (Seq<u8>, u64)> {
        Map::new(
            |k: Seq<char>| self.store@.contains_key(k),
            |k: Seq<char>| (self.store@[k].0@, self.store@[k].1),
        )
    }
}

/// A duplicate of the given bytes.
fn copy_bytes(v: &Vec<u8>) -> (r: Vec<u8>)
    ensures
        r@ == v@,
{
    let mut r: Vec<u8> = Vec::new();
    let mut i: usize = 0;
    while i < v.len()
        invariant
            0 <= i <= v@.len(),
            r@ == v@.subrange(0, i as int),
        decreases v@.len() - i,
    {
        r.push(v[i]);
        proof {
            assert(r@ =~= v@.subrange(0, i + 1));
        }
        i = i + 1;
    }
    proof {
        assert(r@ =~= v@);
    }
    r
}

impl Cache {
    /// The inner store never carries a key twice.
    pub closed spec fn wf(&self) -> bool {
        self.store.wf()
    }

    /// The fixed lifetime, in seconds, of every entry this cache writes.
    pub closed spec fn spec_ttl(&self) -> u64 {
        self.ttl
    }

    /// An empty cache whose entries will each live `ttl_seconds` from their
    /// insertion.
    pub fn new(ttl_seconds: u64) -> (r: Self)
        ensures
            r.wf(),
            r.spec_ttl() == ttl_seconds,
            r@ == Map::<Seq<char>, (Seq<u8>, u64)>::empty(),
    {
        let r = Cache { ttl: ttl_seconds, store: EphemeralStore::new() };
        proof {
            assert(r@ =~= Map::<Seq<char>, (Seq<u8>, u64)>::empty());
        }
        r
    }

    /// Inserts or overwrites `key` with the payload bytes, to live for the
    /// cache's fixed time-to-live from `now`.  Always succeeds.
    pub fn set(&mut self, key: &str, value: Vec<u8>, now: u64)
        requires
            old(self).wf(),
            now + old(self).spec_ttl() <= u64::MAX,
        ensures
            final(self).wf(),
            final(self).spec_ttl() == old(self).spec_ttl(),
            final(self)@ == old(self)@.insert(
                key@,
                (value@, (now + old(self).spec_ttl()) as u64),
            ),
    {
        let ttl = self.ttl;
        self.store.put(key, value, now, ttl);
        proof {
            assert(self@ =~= old(self)@.insert(key@, (value@, (now + old(self).spec_ttl()) as u64)));
        }
    }

    /// Looks `key` up at instant `now`: the payload while the entry is live;
    /// absence, with the expired entry evicted, otherwise.
    pub fn get(&mut self, key: &str, now: u64) -> (r: Option<Vec<u8>>)
        requires
            old(self).wf(),
        ensures
            final(self).wf(),
            final(self).spec_ttl() == old(self).spec_ttl(),
            live(old(self)@, key@, now) ==> final(self)@ == old(self)@ && (r matches Some(v) && v@
                == old(self)@[key@].0),
            !live(old(self)@, key@, now) ==> r is None && final(self)@ == old(self)@.remove(key@),
    {
        let r = match self.store.get(key, now) {
            Some(v) => Some(copy_bytes(v)),
            None => None,
        };
        proof {
            if live(old(self)@, key@, now) {
                assert(self@ =~= old(self)@);
            } else {
                assert(self@ =~= old(self)@.remove(key@));
            }
        }
        r
    }

    /// Removes `key`; a no-op when it is absent.
    pub fn delete(&mut self, key: &str)
        requires
            old(self).wf(),
        ensures
            final(self).wf(),
            final(self).spec_ttl() == old(self).spec_ttl(),
            final(self)@ == old(self)@.remove(key@),
    {
        self.store.delete(key);
        proof {
            assert(self@ =~= old(self)@.remove(key@));
        }
    }

    /// Removes every entry whose lifetime has run out at `now`, looked up or
    /// not.
    pub fn clear_expired(&mut self, now: u64)
        requires
            old(self).wf(),
        ensures
            final(self).wf(),
            final(self).spec_ttl() == old(self).spec_ttl(),
            forall|k: Seq<char>| final(self)@.contains_key(k) == (old(self)@.contains_key(k)
                && old(self)@[k].1 > now),
            forall|k: Seq<char>| #[trigger] final(self)@.contains_key(k) ==> final(self)@[k]
                == old(self)@[k],
    {
        self.store.sweep(now);
    }

    /// Returns the cached payload when `key` is live at `now`; otherwise runs
    /// `producer` and, only on its success, stores the produced bytes under
    /// `key` with the cache's fixed time-to-live.  The producer's failure is
    /// handed back unchanged and writes nothing.
    pub fn get_or_insert<E, F: FnOnce() -> Result<Vec<u8>, E>>(
        &mut self,
        key: &str,
        now: u64,
        producer: F,
    ) -> (r: Result<Vec<u8>, E>)
        requires
            old(self).wf(),
            now + old(self).spec_ttl() <= u64::MAX,
            call_requires(producer, ()),
        ensures
            final(self).wf(),
            final(self).spec_ttl() == old(self).spec_ttl(),
            live(old(self)@, key@, now) ==> final(self)@ == old(self)@ && (r matches Ok(v) && v@
                == old(self)@[key@].0),
            !live(old(self)@, key@, now) ==> match r {
                Ok(v) => (exists|w: Vec<u8>|
                    call_ensures(producer, (), Result::Ok(w)) && w@ == v@) && final(self)@ == old(
                    self,
                )@.insert(key@, (v@, (now + old(self).spec_ttl()) as u64)),
                Err(e) => call_ensures(producer, (), Result::Err(e)) && final(self)@ == old(
                    self,
                )@.remove(key@),
            },
    {
        if let Some(v) = self.store.get(key, now) {
            let out = copy_bytes(v);
            proof {
                assert(self@ =~= old(self)@);
            }
            return Ok(out);
        }
        proof {
            assert(self@ =~= old(self)@.remove(key@));
        }
        match producer() {
            Ok(v) => {
                let out = copy_bytes(&v);
                let ttl = self.ttl;
                self.store.put(key, v, now, ttl);
                proof {
                    assert(self@ =~= old(self)@.insert(
                        key@,
                        (out@, (now + old(self).spec_ttl()) as u64),
                    ));
                }
                Ok(out)
            },
            Err(e) => Err(e),
        }
    }

    /// Removes every entry whose key starts with `prefix` — one entity's
    /// whole family of cached derivatives — leaving all other entries
    /// untouched.
    pub fn invalidate_by_prefix(&mut self, prefix: &str)
        requires
            old(self).wf(),
        ensures
            final(self).wf(),
            final(self).spec_ttl() == old(self).spec_ttl(),
            forall|k: Seq<char>| final(self)@.contains_key(k) == (old(self)@.contains_key(k)
                && !prefix@.is_prefix_of(k)),
            forall|k: Seq<char>| #[trigger] final(self)@.contains_key(k) ==> final(self)@[k]
                == old(self)@[k],
    {
        self.store.delete_by_prefix(prefix);
        proof {
            assert forall|k: Seq<char>| self@.contains_key(k) == (old(self)@.contains_key(k)
                && !prefix@.is_prefix_of(k)) by {
                assert(self.store@.contains_key(k) == (old(self).store@.contains_key(k)
                    && !prefix@.is_prefix_of(k)));
            }
            assert forall|k: Seq<char>| #[trigger] self@.contains_key(k) implies self@[k] == old(
                self,
            )@[k] by {
                assert(self.store@[k] == old(self).store@[k]);
            }
        }
    }

    /// One consistent snapshot of the keys that start with `prefix`, each
    /// exactly once.
    pub fn get_keys_by_prefix(&self, prefix: &str) -> (r: Vec<String>)
        requires
            self.wf(),
        ensures
            forall|j: int| 0 <= j < r@.len() ==> self@.contains_key(#[trigger] r@[j]@)
                && prefix@.is_prefix_of(r@[j]@),
            forall|k: Seq<char>| self@.contains_key(k) && prefix@.is_prefix_of(k) ==> exists|j: int|
                0 <= j < r@.len() && #[trigger] r@[j]@ == k,
            forall|j1: int, j2: int| 0 <= j1 < j2 < r@.len() ==> r@[j1]@ != r@[j2]@,
    {
        self.store.keys_by_prefix(prefix)
    }
}

/// The cache-key convention: the parts joined with one colon between each
/// neighbouring pair.
pub open spec fn spec_join_keys(parts: Seq<Seq<char>>) -> Seq<char>
    decreases parts.len(),
{
    if parts.len() == 0 {
        Seq::empty()
    } else if parts.len() == 1 {
        parts[0]
    } else {
        spec_join_keys(parts.drop_last()) + seq![':'] + parts.last()
    }
}

/// The characters of each part, in order.
pub open spec fn views_of(parts: Seq<&str>) -> Seq<Seq<char>> {
    parts.map_values(|p: &str| p@)
}

/// The conventional cache key built from `parts`: the parts joined with
/// colons, so that one entity's keys form one prefix family.
pub fn create_cache_key(parts: &[&str]) -> (r: String)
    ensures
        r@ == spec_join_keys(views_of(parts@)),
{
    let ghost v = views_of(parts@);
    let mut r = String::new();
    let mut i: usize = 0;
    while i < parts.len()
        invariant
            v == views_of(parts@),
            v.len() == parts@.len(),
            0 <= i <= parts@.len(),
            r@ == spec_join_keys(v.subrange(0, i as int)),
        decreases parts@.len() - i,
    {
        proof {
            reveal_strlit(":");
            assert(":"@ =~= seq![':']);
            assert(v.subrange(0, i + 1).drop_last() =~= v.subrange(0, i as int));
            assert(v.subrange(0, i + 1).last() == parts@[i as int]@);
        }
        if i > 0 {
            r.append(":");
        } else {
            proof {
                assert(v.subrange(0, 1) =~= seq![v[0]]);
            }
        }
        r.append(parts[i]);
        proof {
            assert(r@ =~= spec_join_keys(v.subrange(0, i + 1)));
        }
        i = i + 1;
    }
    proof {
        assert(v.subrange(0, v.len() as int) =~= v);
    }
    r
}

/// The conventional key for one user's cached derivative: the `user`
/// namespace, the user's identifier and a suffix, joined with colons.
pub fn create_user_cache_key(user_id: &str, suffix: &str) -> (r: String)
    ensures
        r@ == spec_join_keys(seq!["user"@, user_id@, suffix@]),
{
    let mut r = String::from_str("user");
    r.append(":");
    r.append(user_id);
    r.append(":");
    r.append(suffix);
    proof {
        reveal_strlit(":");
        assert(":"@ =~= seq![':']);
        let parts = seq!["user"@, user_id@, suffix@];
        assert(parts.drop_last() =~= seq!["user"@, user_id@]);
        assert(seq!["user"@, user_id@].drop_last() =~= seq!["user"@]);
        assert(spec_join_keys(seq!["user"@]) == "user"@);
        assert(spec_join_keys(seq!["user"@, user_id@]) == "user"@ + seq![':'] + user_id@);
        assert(r@ =~= spec_join_keys(parts));
    }
    r
}

/// The conventional key for one link's cached derivative: the `link`
/// namespace and the link's identifier, joined with a colon.
pub fn create_link_cache_key(link_id: &str) -> (r: String)
    ensures
        r@ == spec_join_keys(seq!["link"@, link_id@]),
{
    let mut r = String::from_str("link");
    r.append(":");
    r.append(link_id);
    proof {
        reveal_strlit(":");
        assert(":"@ =~= seq![':']);
        let parts = seq!["link"@, link_id@];
        assert(parts.drop_last() =~= seq!["link"@]);
        assert(spec_join_keys(seq!["link"@]) == "link"@);
        assert(r@ =~= spec_join_keys(parts));
    }
    r
}

/// After a miss at `now` whose producer succeeded with payload `v` under a
/// time-to-live of `t` seconds, the entry is live at every instant strictly
/// before `now + t` and still carries `v`: a second `get_or_insert` there
/// takes the cached branch and returns the stored bytes, so a producer that
/// succeeded once is not consulted again while its result lives.
pub proof fn lemma_computed_value_stays_cached(
    m: Map<Seq<char>, (Seq<u8>, u64)>,
    k: Seq<char>,
    v: Seq<u8>,
    now: u64,
    t: u64,
    now2: u64,
)
    requires
        now + t <= u64::MAX,
        now2 < now + t,
    ensures
        live(m.insert(k, (v, (now + t) as u64)), k, now2),
        m.insert(k, (v, (now + t) as u64))[k].0 == v,
{
}

} // verus!

