//! The sliding-window rate limiter: per client key, an ephemeral store holds
//! the instants of the client's admitted requests within the trailing window.
//! A decision prunes the stale instants, counts what is left against the
//! configured quota, and records the request only when it is admitted.
//!
//! The prune-count-append sequence is one store operation under the caller's
//! lock, so two concurrent requests cannot both slip under the quota.

use vstd::prelude::*;

use crate::store::EphemeralStore;

verus! {

/// The length, in seconds, of the trailing window a decision looks back over.
pub const WINDOW_SECONDS: u64 = 60;

/// Admits or rejects requests per client key, against a fixed quota of
/// requests within the trailing window.
pub struct RateLimiter {
    pub requests_per_minute: u32,
    store: EphemeralStore<Vec<u64>>,
}

/// The request instant `t` still counts at instant `now`: it is not in the
/// future and lies within the trailing window.
pub open spec fn in_window(t: u64, now: u64) -> bool {
    t <= now && now - t < WINDOW_SECONDS
}

/// The instants of `ts` that still count at instant `now`, in order.
pub open spec fn pruned(ts: Seq<u64>, now: u64) -> Seq<u64>
    decreases ts.len(),
{
    if ts.len() == 0 {
        Seq::empty()
    } else if in_window(ts.last(), now) {
        pruned(ts.drop_last(), now).push(ts.last())
    } else {
        pruned(ts.drop_last(), now)
    }
}

/// Every instant the pruning keeps still counts at `now`.
proof fn lemma_pruned_counts(ts: Seq<u64>, now: u64)
    ensures
        forall|j: int| 0 <= j < pruned(ts, now).len() ==> in_window(
            #[trigger] pruned(ts, now)[j],
            now,
        ),
    decreases ts.len(),
{
    if ts.len() > 0 {
        lemma_pruned_counts(ts.drop_last(), now);
        let p = pruned(ts, now);
        let q = pruned(ts.drop_last(), now);
        assert forall|j: int| 0 <= j < p.len() implies in_window(p[j], now) by {
            if in_window(ts.last(), now) {
                if j < q.len() {
                    assert(p[j] == q[j]);
                } else {
                    assert(p[j] == ts.last());
                }
            } else {
                assert(p[j] == q[j]);
            }
        }
    }
}

/// The window sequence recorded for `k` — empty when no entry exists.
pub open spec fn window_of(m: Map<Seq<char>, Seq<u64>>, k: Seq<char>) -> Seq<u64> {
    if m.contains_key(k) {
        m[k]
    } else {
        Seq::empty()
    }
}

impl View for RateLimiter {
    type V = Map<Seq<char>, Seq<u64>>;

    closed spec fn view(&self) -> Map<Seq<char>, Seq<u64>> {
        Map::new(
            |k: Seq<char>| self.store@.contains_key(k),
            |k: Seq<char>| self.store@[k].0@,
        )
    }
}

/// When every instant of `ts` lies at least a whole window before `now`,
/// nothing of `ts` counts any more.
proof fn lemma_all_stale_prunes_to_empty(ts: Seq<u64>, now: u64)
    requires
        forall|j: int| 0 <= j < ts.len() ==> !in_window(#[trigger] ts[j], now),
    ensures
        pruned(ts, now) == Seq::<u64>::empty(),
    decreases ts.len(),
{
    if ts.len() > 0 {
        assert(forall|j: int| 0 <= j < ts.drop_last().len() ==> !in_window(
            #[trigger] ts.drop_last()[j],
            now,
        ));
        lemma_all_stale_prunes_to_empty(ts.drop_last(), now);
        assert(!in_window(ts[ts.len() - 1], now));
    }
}

/// The instants of `ts` that still count at `now`, as an owned vector.
fn prune(ts: &Vec<u64>, now: u64) -> (r: Vec<u64>)
    ensures
        r@ == pruned(ts@, now),
{
    let mut r: Vec<u64> = Vec::new();
    let mut i: usize = 0;
    while i < ts.len()
        invariant
            0 <= i <= ts@.len(),
            r@ == pruned(ts@.subrange(0, i as int), now),
        decreases ts@.len() - i,
    {
        let t = ts[i];
        proof {
            assert(ts@.subrange(0, i + 1).drop_last() =~= ts@.subrange(0, i as int));
            assert(ts@.subrange(0, i + 1).last() == ts@[i as int]);
        }
        if t <= now && now - t < WINDOW_SECONDS {
            r.push(t);
        }
        i = i + 1;
    }
    proof {
        assert(ts@.subrange(0, ts@.len() as int) =~= ts@);
    }
    r
}

impl RateLimiter {
    /// The configured quota: how many requests may count inside one window.
    pub closed spec fn spec_quota(&self) -> u32 {
        self.requests_per_minute
    }

    /// The inner store never carries a key twice, and every recorded instant
    /// stops counting no later than its entry stops being visible: a lingering
    /// expired entry holds nothing that a fresh decision would count.
    pub closed spec fn wf(&self) -> bool {
        &&& self.store.wf()
        &&& forall|k: Seq<char>| #[trigger] self.store@.contains_key(k) ==> forall|j: int|
            0 <= j < self.store@[k].0@.len() ==> #[trigger] self.store@[k].0@[j]
                + WINDOW_SECONDS <= self.store@[k].1
    }

    /// A limiter that admits at most `requests_per_minute` requests per
    /// client key within the trailing window, starting with no history.
    pub fn new(requests_per_minute: u32) -> (r: Self)
        ensures
            r.wf(),
            r.spec_quota() == requests_per_minute,
            r@ == Map::<Seq<char>, Seq<u64>>::empty(),
    {
        let r = RateLimiter { requests_per_minute, store: EphemeralStore::new() };
        proof {
            assert(r@ =~= Map::<Seq<char>, Seq<u64>>::empty());
        }
        r
    }

    /// Decides one request from `client_key` at instant `now`.  The client's
    /// recorded instants are pruned to those still counting; if as many as
    /// the quota remain the request is rejected and not recorded, otherwise
    /// it is admitted and `now` is appended to the client's window.
    pub fn allow(&mut self, client_key: &str, now: u64) -> (r: bool)
        requires
            old(self).wf(),
            now + WINDOW_SECONDS <= u64::MAX,
        ensures
            final(self).wf(),
            final(self).spec_quota() == old(self).spec_quota(),
            r == (pruned(window_of(old(self)@, client_key@), now).len() < old(
                self,
            ).spec_quota()),
            r ==> final(self)@ == old(self)@.insert(
                client_key@,
                pruned(window_of(old(self)@, client_key@), now).push(now),
            ),
            !r ==> final(self)@ == old(self)@.insert(
                client_key@,
                pruned(window_of(old(self)@, client_key@), now),
            ),
    {
        let ghost m0 = self@;
        let ghost w0 = window_of(m0, client_key@);
        let mut ts: Vec<u64> = match self.store.get(client_key, now) {
            Some(v) => {
                proof {
                    assert(m0.contains_key(client_key@) && m0[client_key@] == v@);
                }
                prune(v, now)
            },
            None => {
                proof {
                    if m0.contains_key(client_key@) {
                        // the entry lingered past its expiry: everything in it
                        // is at least a whole window old
                        assert(old(self).store@[client_key@].1 <= now);
                        assert(forall|j: int| 0 <= j < w0.len() ==> !in_window(
                            #[trigger] w0[j],
                            now,
                        ));
                        lemma_all_stale_prunes_to_empty(w0, now);
                    } else {
                        assert(pruned(w0, now) =~= Seq::<u64>::empty());
                    }
                }
                Vec::new()
            },
        };
        proof {
            assert(ts@ == pruned(w0, now));
        }
        let quota = self.requests_per_minute;
        let admitted = ts.len() < quota as usize;
        if admitted {
            ts.push(now);
        }
        proof {
            lemma_pruned_counts(w0, now);
            assert(forall|j: int| 0 <= j < ts@.len() ==> #[trigger] ts@[j] <= now);
        }
        self.store.put(client_key, ts, now, WINDOW_SECONDS);
        proof {
            assert forall|k: Seq<char>| #[trigger] self.store@.contains_key(k) implies forall|
                j: int,
            |
                0 <= j < self.store@[k].0@.len() ==> #[trigger] self.store@[k].0@[j]
                    + WINDOW_SECONDS <= self.store@[k].1 by {
                if k != client_key@ {
                    assert(old(self).store@.contains_key(k));
                    assert(self.store@[k] == old(self).store@[k]);
                }
            }
            if admitted {
                assert(self@ =~= m0.insert(client_key@, pruned(w0, now).push(now)));
            } else {
                assert(self@ =~= m0.insert(client_key@, pruned(w0, now)));
            }
        }
        admitted
    }

}

/// Forgets every client's history at once: an administrative reset.
pub fn cleanup_rate_limiter(limiter: &mut RateLimiter)
    ensures
        final(limiter).wf(),
        final(limiter).spec_quota() == old(limiter).spec_quota(),
        final(limiter)@ == Map::<Seq<char>, Seq<u64>>::empty(),
{
    limiter.store.clear();
    proof {
        assert(limiter@ =~= Map::<Seq<char>, Seq<u64>>::empty());
    }
}

/// Once every instant a client has on record lies at least a whole window in
/// the past, nothing of its history counts any more: the next decision sees
/// an empty pruned sequence, so a previously blocked client is admitted again
/// whenever the quota is positive.
pub proof fn lemma_window_elapsed_readmits(ts: Seq<u64>, now: u64)
    requires
        forall|j: int| 0 <= j < ts.len() ==> #[trigger] ts[j] + WINDOW_SECONDS <= now,
    ensures
        pruned(ts, now).len() == 0,
{
    assert(forall|j: int| 0 <= j < ts.len() ==> !in_window(#[trigger] ts[j], now));
    lemma_all_stale_prunes_to_empty(ts, now);
}

} // verus!
