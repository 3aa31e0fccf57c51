//! The generic ephemeral store: a mapping from string key to a payload and an
//! absolute expiry instant, with insert, lookup, delete, prefix-delete and
//! full-sweep operations.
//!
//! A lookup treats an entry whose expiry has passed as absent and removes it
//! (lazy eviction); a sweep removes every expired entry at once.  Entries that
//! are expired but not yet observed may linger: that is a memory cost, never
//! a correctness violation, because every operation takes the current instant
//! and decides liveness from it.
//!
//! The store is modelled as a `Map` from the key's characters to the pair of
//! payload and expiry instant.  Internally it is an association list with
//! pairwise-distinct keys.

use vstd::prelude::*;

use crate::text::str_eq;
use crate::text::str_has_prefix;

verus! {

/// One stored payload together with the instant (seconds since the Unix
/// epoch) at which it ceases to be visible.
pub struct StoreEntry<V> {
    pub value: V,
    pub expiry: u64,
}

/// A mapping from string key to `StoreEntry`, owned by one logical store
/// instance.  The caller serializes access (one coarse lock per instance);
/// within that discipline every operation is atomic.
pub struct EphemeralStore<V> {
    entries: Vec<(String, StoreEntry<V>)>,
}

/// No two positions of the association list carry the same key.
spec fn distinct_keys<V>(s: Seq<(String, StoreEntry<V>)>) -> bool {
    forall|i: int, j: int| 0 <= i < j < s.len() ==> s[i].0@ != s[j].0@
}

/// Some position of the association list carries the key `k`.
spec fn seq_has_key<V>(s: Seq<(String, StoreEntry<V>)>, k: Seq<char>) -> bool {
    exists|i: int| 0 <= i < s.len() && s[i].0@ == k
}

/// The position that carries the key `k` (meaningful under `distinct_keys`
/// when `seq_has_key` holds).
spec fn seq_key_index<V>(s: Seq<(String, StoreEntry<V>)>, k: Seq<char>) -> int {
    choose|i: int| 0 <= i < s.len() && s[i].0@ == k
}

/// The association list read as a map from key to payload and expiry.
spec fn seq_as_map<V>(s: Seq<(String, StoreEntry<V>)>) -> Map<Seq<char>, (V, u64)> {
    Map::new(
        |k: Seq<char>| seq_has_key(s, k),
        |k: Seq<char>|
            (s[seq_key_index(s, k)].1.value, s[seq_key_index(s, k)].1.expiry),
    )
}

/// The key `k` maps to an entry that a lookup at instant `now` observes.
pub open spec fn live<V>(m: Map<Seq<char>, (V, u64)>, k: Seq<char>, now: u64) -> bool {
    m.contains_key(k) && m[k].1 > now
}

/// What a lookup at instant `now` returns: the payload while the entry is
/// live, absence otherwise.
pub open spec fn lookup<V>(m: Map<Seq<char>, (V, u64)>, k: Seq<char>, now: u64) -> Option<V> {
    if live(m, k, now) {
        Some(m[k].0)
    } else {
        None
    }
}

proof fn lemma_map_at<V>(s: Seq<(String, StoreEntry<V>)>, i: int)
    requires
        distinct_keys(s),
        0 <= i < s.len(),
    ensures
        seq_as_map(s).contains_key(s[i].0@),
        seq_as_map(s)[s[i].0@] == (s[i].1.value, s[i].1.expiry),
{
    let k = s[i].0@;
    assert(seq_has_key(s, k));
    let j = seq_key_index(s, k);
    if j < i {
        assert(s[j].0@ != s[i].0@);
    } else if i < j {
        assert(s[i].0@ != s[j].0@);
    }
    assert(j == i);
}

proof fn lemma_map_push<V>(s: Seq<(String, StoreEntry<V>)>, p: (String, StoreEntry<V>))
    requires
        distinct_keys(s),
        !seq_has_key(s, p.0@),
    ensures
        distinct_keys(s.push(p)),
        seq_as_map(s.push(p)) == seq_as_map(s).insert(p.0@, (p.1.value, p.1.expiry)),
{
    let t = s.push(p);
    assert forall|i: int, j: int| 0 <= i < j < t.len() implies t[i].0@ != t[j].0@ by {
        if j < s.len() {
            assert(s[i].0@ != s[j].0@);
        } else {
            assert(!(0 <= i < s.len() && s[i].0@ == p.0@));
        }
    }
    assert forall|k: Seq<char>| #[trigger] seq_has_key(t, k) && k != p.0@ implies seq_has_key(
        s,
        k,
    ) by {
        let i = choose|i: int| 0 <= i < t.len() && t[i].0@ == k;
        assert(0 <= i < s.len() && s[i].0@ == k);
    }
    assert forall|k: Seq<char>| #[trigger] seq_has_key(s, k) implies seq_has_key(t, k) by {
        let i = choose|i: int| 0 <= i < s.len() && s[i].0@ == k;
        assert(t[i].0@ == k);
    }
    assert(seq_has_key(t, p.0@)) by {
        assert(t[s.len() as int].0@ == p.0@);
    }
    assert forall|k: Seq<char>| #[trigger] seq_has_key(t, k) implies seq_as_map(t)[k]
        == seq_as_map(s).insert(p.0@, (p.1.value, p.1.expiry))[k] by {
        if k == p.0@ {
            lemma_map_at(t, s.len() as int);
        } else {
            let i = choose|i: int| 0 <= i < s.len() && s[i].0@ == k;
            lemma_map_at(s, i);
            lemma_map_at(t, i);
        }
    }
    assert(seq_as_map(t) =~= seq_as_map(s).insert(p.0@, (p.1.value, p.1.expiry)));
}

proof fn lemma_map_remove<V>(s: Seq<(String, StoreEntry<V>)>, i: int)
    requires
        distinct_keys(s),
        0 <= i < s.len(),
    ensures
        distinct_keys(s.remove(i)),
        seq_as_map(s.remove(i)) == seq_as_map(s).remove(s[i].0@),
{
    let t = s.remove(i);
    assert forall|a: int, b: int| 0 <= a < b < t.len() implies t[a].0@ != t[b].0@ by {
        let a2 = if a < i { a } else { a + 1 };
        let b2 = if b < i { b } else { b + 1 };
        assert(t[a] == s[a2] && t[b] == s[b2]);
        assert(s[a2].0@ != s[b2].0@);
    }
    assert forall|k: Seq<char>| #[trigger] seq_has_key(t, k) implies seq_has_key(s, k) && k != s[i].0@ by {
        let a = choose|a: int| 0 <= a < t.len() && t[a].0@ == k;
        let a2 = if a < i { a } else { a + 1 };
        assert(t[a] == s[a2]);
        assert(s[a2].0@ == k);
        if a2 < i {
            assert(s[a2].0@ != s[i].0@);
        } else {
            assert(s[i].0@ != s[a2].0@);
        }
    }
    assert forall|k: Seq<char>| #[trigger] seq_has_key(s, k) && k != s[i].0@ implies seq_has_key(
        t,
        k,
    ) by {
        let a2 = choose|a2: int| 0 <= a2 < s.len() && s[a2].0@ == k;
        let a = if a2 < i { a2 } else { a2 - 1 };
        assert(a2 != i);
        assert(t[a] == s[a2]);
        assert(t[a].0@ == k);
    }
    assert forall|k: Seq<char>| #[trigger] seq_has_key(t, k) implies seq_as_map(t)[k]
        == seq_as_map(s)[k] by {
        let a = choose|a: int| 0 <= a < t.len() && t[a].0@ == k;
        let a2 = if a < i { a } else { a + 1 };
        assert(t[a] == s[a2]);
        lemma_map_at(t, a);
        lemma_map_at(s, a2);
    }
    assert(seq_as_map(t) =~= seq_as_map(s).remove(s[i].0@));
}

impl<V> View for EphemeralStore<V> {
    type V = Map<Seq<char>, (V, u64)>;

    closed spec fn view(&self) -> Map<Seq<char>, (V, u64)> {
        seq_as_map(self.entries@)
    }
}

impl<V> EphemeralStore<V> {
    /// The association list never carries a key twice.
    pub closed spec fn wf(&self) -> bool {
        distinct_keys(self.entries@)
    }

    /// An empty store.
    pub fn new() -> (r: Self)
        ensures
            r.wf(),
            r@ == Map::<Seq<char>, (V, u64)>::empty(),
    {
        let r = EphemeralStore { entries: Vec::new() };
        proof {
            assert(r@ =~= Map::<Seq<char>, (V, u64)>::empty());
        }
        r
    }

    /// The position of `key` in the association list, if any.
    fn find_index(&self, key: &str) -> (r: Option<usize>)
        ensures
            match r {
                Some(i) => i < self.entries@.len() && self.entries@[i as int].0@ == key@,
                None => !seq_has_key(self.entries@, key@),
            },
    {
        let mut i: usize = 0;
        while i < self.entries.len()
            invariant
                0 <= i <= self.entries@.len(),
                forall|j: int| 0 <= j < i ==> self.entries@[j].0@ != key@,
            decreases self.entries@.len() - i,
        {
            if str_eq(self.entries[i].0.as_str(), key) {
                return Some(i);
            }
            i = i + 1;
        }
        None
    }

    /// Inserts or overwrites `key` with `value`, visible until the absolute
    /// instant `expiry`.
    pub fn put_until(&mut self, key: &str, value: V, expiry: u64)
        requires
            old(self).wf(),
        ensures
            final(self).wf(),
            final(self)@ == old(self)@.insert(key@, (value, expiry)),
    {
        self.delete(key);
        let pair = (key.to_owned(), StoreEntry { value, expiry });
        proof {
            if seq_has_key(self.entries@, key@) {
                let i = choose|i: int|
                    0 <= i < self.entries@.len() && self.entries@[i].0@ == key@;
                lemma_map_at(self.entries@, i);
            }
            assert(!seq_has_key(self.entries@, key@));
            lemma_map_push(self.entries@, pair);
        }
        self.entries.push(pair);
        proof {
            assert(self@ =~= old(self)@.insert(key@, (pair.1.value, expiry)));
        }
    }

    /// Inserts or overwrites `key` with `value`, to live for `ttl` seconds
    /// from `now`.
    pub fn put(&mut self, key: &str, value: V, now: u64, ttl: u64)
        requires
            old(self).wf(),
            now + ttl <= u64::MAX,
        ensures
            final(self).wf(),
            final(self)@ == old(self)@.insert(key@, (value, (now + ttl) as u64)),
    {
        self.put_until(key, value, now + ttl);
    }

    /// Removes `key`; a no-op when it is absent.
    pub fn delete(&mut self, key: &str)
        requires
            old(self).wf(),
        ensures
            final(self).wf(),
            final(self)@ == old(self)@.remove(key@),
    {
        match self.find_index(key) {
            Some(i) => {
                proof {
                    lemma_map_remove(self.entries@, i as int);
                }
                self.entries.remove(i);
            },
            None => {
                proof {
                    assert(self@ =~= old(self)@.remove(key@));
                }
            },
        }
    }

    /// Looks `key` up at instant `now`.  A live entry is returned unchanged;
    /// an expired one is removed on the way (lazy eviction) and reported
    /// absent, exactly as a missing one is.
    pub fn get<'a>(&'a mut self, key: &str, now: u64) -> (r: Option<&'a V>)
        requires
            old(self).wf(),
        ensures
            final(self).wf(),
            live(old(self)@, key@, now) ==> final(self)@ == old(self)@ && (r matches Some(v)
                && *v == old(self)@[key@].0),
            !live(old(self)@, key@, now) ==> r is None && final(self)@ == old(self)@.remove(key@),
            r matches Some(v) ==> lookup(old(self)@, key@, now) == Some(*v),
            r is None ==> lookup(old(self)@, key@, now) is None,
    {
        match self.find_index(key) {
            Some(i) => {
                proof {
                    lemma_map_at(self.entries@, i as int);
                }
                if self.entries[i].1.expiry > now {
                    Some(&self.entries[i].1.value)
                } else {
                    proof {
                        lemma_map_remove(self.entries@, i as int);
                    }
                    self.entries.remove(i);
                    None
                }
            },
            None => {
                proof {
                    assert(self@ =~= old(self)@.remove(key@));
                }
                None
            },
        }
    }

    /// Reads `key` without judging or evicting anything: the raw entry, with
    /// its expiry instant, whether or not it has expired.
    pub fn read<'a>(&'a self, key: &str) -> (r: Option<(&'a V, u64)>)
        requires
            self.wf(),
        ensures
            r matches Some(p) ==> self@.contains_key(key@) && *p.0 == self@[key@].0 && p.1
                == self@[key@].1,
            r is None ==> !self@.contains_key(key@),
    {
        match self.find_index(key) {
            Some(i) => {
                proof {
                    lemma_map_at(self.entries@, i as int);
                }
                Some((&self.entries[i].1.value, self.entries[i].1.expiry))
            },
            None => None,
        }
    }

    /// True when a lookup at `now` would observe `key`; evicts nothing.
    pub fn contains_live(&self, key: &str, now: u64) -> (r: bool)
        requires
            self.wf(),
        ensures
            r == live(self@, key@, now),
    {
        match self.read(key) {
            Some(p) => p.1 > now,
            None => false,
        }
    }

    /// Removes the live entry at `key` and hands it out, payload and expiry;
    /// an expired entry is evicted and reported absent.
    pub fn take(&mut self, key: &str, now: u64) -> (r: Option<(V, u64)>)
        requires
            old(self).wf(),
        ensures
            final(self).wf(),
            final(self)@ == old(self)@.remove(key@),
            live(old(self)@, key@, now) ==> (r matches Some(p) && p.0 == old(self)@[key@].0 && p.1
                == old(self)@[key@].1),
            !live(old(self)@, key@, now) ==> r is None,
    {
        match self.find_index(key) {
            Some(i) => {
                proof {
                    lemma_map_at(self.entries@, i as int);
                    lemma_map_remove(self.entries@, i as int);
                }
                let pair = self.entries.remove(i);
                if pair.1.expiry > now {
                    Some((pair.1.value, pair.1.expiry))
                } else {
                    None
                }
            },
            None => {
                proof {
                    assert(self@ =~= old(self)@.remove(key@));
                }
                None
            },
        }
    }

    /// Removes every entry whose expiry is at or before `now`, whether or not
    /// it was ever looked up.
    pub fn sweep(&mut self, now: u64)
        requires
            old(self).wf(),
        ensures
            final(self).wf(),
            forall|k: Seq<char>| final(self)@.contains_key(k) == (old(self)@.contains_key(k)
                && old(self)@[k].1 > now),
            forall|k: Seq<char>| #[trigger] final(self)@.contains_key(k) ==> final(self)@[k]
                == old(self)@[k],
    {
        let ghost m0 = self@;
        let mut i: usize = 0;
        while i < self.entries.len()
            invariant
                self.wf(),
                0 <= i <= self.entries@.len(),
                forall|j: int| 0 <= j < i ==> self.entries@[j].1.expiry > now,
                forall|k: Seq<char>| #[trigger] self@.contains_key(k) ==> m0.contains_key(k)
                    && self@[k] == m0[k],
                forall|k: Seq<char>| m0.contains_key(k) && m0[k].1 > now
                    ==> #[trigger] self@.contains_key(k),
            decreases self.entries@.len() - i,
        {
            let ghost prev = self.entries@;
            proof {
                assert(self@ == seq_as_map(prev));
                lemma_map_at(prev, i as int);
            }
            if self.entries[i].1.expiry <= now {
                proof {
                    lemma_map_remove(prev, i as int);
                }
                self.entries.remove(i);
            } else {
                i = i + 1;
            }
        }
        proof {
            assert forall|k: Seq<char>| #[trigger] self@.contains_key(k) implies self@[k].1
                > now by {
                let a = seq_key_index(self.entries@, k);
                lemma_map_at(self.entries@, a);
            }
        }
    }

    /// Removes every entry whose key starts with `prefix`, leaving all other
    /// entries untouched.
    pub fn delete_by_prefix(&mut self, prefix: &str)
        requires
            old(self).wf(),
        ensures
            final(self).wf(),
            forall|k: Seq<char>|
                #![trigger final(self)@.contains_key(k)]
                #![trigger old(self)@.contains_key(k)]
                final(self)@.contains_key(k) == (old(self)@.contains_key(k)
                    && !prefix@.is_prefix_of(k)),
            forall|k: Seq<char>| #[trigger] final(self)@.contains_key(k) ==> final(self)@[k]
                == old(self)@[k],
    {
        let ghost m0 = self@;
        let mut i: usize = 0;
        while i < self.entries.len()
            invariant
                self.wf(),
                0 <= i <= self.entries@.len(),
                forall|j: int| 0 <= j < i ==> !prefix@.is_prefix_of(self.entries@[j].0@),
                forall|k: Seq<char>| #[trigger] self@.contains_key(k) ==> m0.contains_key(k)
                    && self@[k] == m0[k],
                forall|k: Seq<char>| m0.contains_key(k) && !prefix@.is_prefix_of(k)
                    ==> #[trigger] self@.contains_key(k),
            decreases self.entries@.len() - i,
        {
            let ghost prev = self.entries@;
            proof {
                assert(self@ == seq_as_map(prev));
                lemma_map_at(prev, i as int);
            }
            if str_has_prefix(self.entries[i].0.as_str(), prefix) {
                proof {
                    lemma_map_remove(prev, i as int);
                }
                self.entries.remove(i);
            } else {
                i = i + 1;
            }
        }
        proof {
            assert forall|k: Seq<char>| #[trigger] self@.contains_key(k) implies !prefix@.is_prefix_of(
                k,
            ) by {
                let a = seq_key_index(self.entries@, k);
                lemma_map_at(self.entries@, a);
            }
        }
    }

    /// One consistent snapshot of the keys that start with `prefix`,
    /// expired entries included, each exactly once.
    pub fn keys_by_prefix(&self, prefix: &str) -> (r: Vec<String>)
        requires
            self.wf(),
        ensures
            forall|j: int| 0 <= j < r@.len() ==> self@.contains_key(#[trigger] r@[j]@)
                && prefix@.is_prefix_of(r@[j]@),
            forall|k: Seq<char>| self@.contains_key(k) && prefix@.is_prefix_of(k) ==> exists|j: int|
                0 <= j < r@.len() && #[trigger] r@[j]@ == k,
            forall|j1: int, j2: int| 0 <= j1 < j2 < r@.len() ==> r@[j1]@ != r@[j2]@,
    {
        let mut r: Vec<String> = Vec::new();
        let mut i: usize = 0;
        while i < self.entries.len()
            invariant
                self.wf(),
                0 <= i <= self.entries@.len(),
                forall|j: int| 0 <= j < r@.len() ==> exists|m: int|
                    0 <= m < i && #[trigger] r@[j]@ == self.entries@[m].0@,
                forall|j: int| 0 <= j < r@.len() ==> self@.contains_key(#[trigger] r@[j]@)
                    && prefix@.is_prefix_of(r@[j]@),
                forall|m: int| 0 <= m < i && prefix@.is_prefix_of(#[trigger] self.entries@[m].0@)
                    ==> exists|j: int| 0 <= j < r@.len() && #[trigger] r@[j]@
                    == self.entries@[m].0@,
                forall|j1: int, j2: int| 0 <= j1 < j2 < r@.len() ==> r@[j1]@ != r@[j2]@,
            decreases self.entries@.len() - i,
        {
            let ghost k_i = self.entries@[i as int].0@;
            if str_has_prefix(self.entries[i].0.as_str(), prefix) {
                let ghost r0 = r@;
                proof {
                    lemma_map_at(self.entries@, i as int);
                    assert forall|j: int| 0 <= j < r0.len() implies r0[j]@ != k_i by {
                        let m = choose|m: int| 0 <= m < i && #[trigger] r0[j]@ == self.entries@[m].0@;
                        assert(self.entries@[m].0@ != self.entries@[i as int].0@);
                    }
                }
                r.push(self.entries[i].0.clone());
                proof {
                    assert(r@ == r0.push(r@[r0.len() as int]));
                    assert(r@[r0.len() as int]@ == k_i);
                    assert forall|m: int| 0 <= m < i + 1 && prefix@.is_prefix_of(
                        #[trigger] self.entries@[m].0@,
                    ) implies exists|j: int| 0 <= j < r@.len() && #[trigger] r@[j]@
                        == self.entries@[m].0@ by {
                        if m < i {
                            let j = choose|j: int|
                                0 <= j < r0.len() && #[trigger] r0[j]@ == self.entries@[m].0@;
                            assert(r@[j]@ == self.entries@[m].0@);
                        } else {
                            assert(r@[r0.len() as int]@ == self.entries@[m].0@);
                        }
                    }
                }
            }
            i = i + 1;
        }
        proof {
            assert forall|k: Seq<char>| self@.contains_key(k) && prefix@.is_prefix_of(k) implies exists|j: int|
                0 <= j < r@.len() && #[trigger] r@[j]@ == k by {
            let a = seq_key_index(self.entries@, k);
                lemma_map_at(self.entries@, a);
            }
        }
        r
    }

    /// Returns a borrow of the stored payload when `key` is live at `now`;
    /// otherwise evicts whatever lingered there, runs `producer`, and stores
    /// its payload on success, to live for `ttl` seconds from `now`.  The
    /// producer's failure is handed back unchanged and nothing is written.
    pub fn get_or_compute<'a, E, F: FnOnce() -> Result<V, E>>(
        &'a mut self,
        key: &str,
        now: u64,
        ttl: u64,
        producer: F,
    ) -> (r: Result<&'a V, E>)
        requires
            old(self).wf(),
            now + ttl <= u64::MAX,
            call_requires(producer, ()),
        ensures
            final(self).wf(),
            live(old(self)@, key@, now) ==> final(self)@ == old(self)@ && (r matches Ok(v) && *v
                == old(self)@[key@].0),
            !live(old(self)@, key@, now) ==> match r {
                Ok(v) => (exists|w: V| call_ensures(producer, (), Result::Ok(w)) && w == *v)
                    && final(self)@ == old(self)@.insert(key@, (*v, (now + ttl) as u64)),
                Err(e) => call_ensures(producer, (), Result::Err(e)) && final(self)@ == old(
                    self,
                )@.remove(key@),
            },
    {
        if !self.contains_live(key, now) {
            self.delete(key);
            match producer() {
                Err(e) => {
                    return Err(e);
                },
                Ok(v) => {
                    self.put(key, v, now, ttl);
                },
            }
        }
        match self.read(key) {
            Some(p) => Ok(p.0),
            None => unreached(),
        }
    }

    /// One consistent snapshot of every key, expired entries included, each
    /// exactly once.
    pub fn keys(&self) -> (r: Vec<String>)
        requires
            self.wf(),
        ensures
            forall|j: int| 0 <= j < r@.len() ==> self@.contains_key(#[trigger] r@[j]@),
            forall|k: Seq<char>| self@.contains_key(k) ==> exists|j: int|
                0 <= j < r@.len() && #[trigger] r@[j]@ == k,
            forall|j1: int, j2: int| 0 <= j1 < j2 < r@.len() ==> r@[j1]@ != r@[j2]@,
    {
        let mut r: Vec<String> = Vec::new();
        let mut i: usize = 0;
        while i < self.entries.len()
            invariant
                self.wf(),
                0 <= i <= self.entries@.len(),
                r@.len() == i,
                forall|j: int| 0 <= j < i ==> #[trigger] r@[j]@ == self.entries@[j].0@,
            decreases self.entries@.len() - i,
        {
            r.push(self.entries[i].0.clone());
            i = i + 1;
        }
        proof {
            assert forall|j: int| 0 <= j < r@.len() implies self@.contains_key(
                #[trigger] r@[j]@,
            ) by {
                lemma_map_at(self.entries@, j);
            }
            assert forall|k: Seq<char>| self@.contains_key(k) implies exists|j: int|
                0 <= j < r@.len() && #[trigger] r@[j]@ == k by {
                let a = seq_key_index(self.entries@, k);
                lemma_map_at(self.entries@, a);
                assert(r@[a]@ == k);
            }
        }
        r
    }

    /// Removes every entry at once, expired or not.
    pub fn clear(&mut self)
        ensures
            final(self).wf(),
            final(self)@ == Map::<Seq<char>, (V, u64)>::empty(),
    {
        self.entries.clear();
        proof {
            assert(self@ =~= Map::<Seq<char>, (V, u64)>::empty());
        }
    }
}

/// A value stored under `k` with absolute expiry `e` is observed by every
/// lookup strictly before `e`, and by none at `e` or after: the payload
/// neither decays early nor outlives its deadline.
pub proof fn lemma_store_ttl<V>(m: Map<Seq<char>, (V, u64)>, k: Seq<char>, v: V, e: u64, now: u64)
    ensures
        now < e ==> lookup(m.insert(k, (v, e)), k, now) == Some(v),
        now >= e ==> lookup(m.insert(k, (v, e)), k, now) is None,
{
}

} // verus!
