//! The token revocation set: a degenerate ephemeral store whose payload is
//! unit — presence alone is the information.  A token, once revoked, stays
//! revoked until the set is administratively cleared; entries never expire on
//! their own.
//!
//! Whoever verifies a bearer token must consult this set before trusting the
//! token's own claims: a structurally valid, unexpired token that is present
//! here has to be rejected as unauthenticated.

use vstd::prelude::*;

use crate::store::EphemeralStore;

verus! {

/// The set of token identifiers (or raw token strings) that are invalid
/// regardless of their embedded expiry.
pub struct RevocationSet {
    store: EphemeralStore<()>,
}

impl View for RevocationSet {
    type V = Set<Seq<char>>;

    closed spec fn view(&self) -> Set<Seq<char>> {
        self.store@.dom()
    }
}

impl RevocationSet {
    /// The inner store never carries a token twice.
    pub closed spec fn wf(&self) -> bool {
        self.store.wf()
    }

    /// An empty set: no token is revoked.
    pub fn new() -> (r: Self)
        ensures
            r.wf(),
            r@ == Set::<Seq<char>>::empty(),
    {
        let r = RevocationSet { store: EphemeralStore::new() };
        proof {
            assert(r@ =~= Set::<Seq<char>>::empty());
        }
        r
    }
}

/// Marks `token` as revoked; revoking an already-revoked token changes
/// nothing.
pub fn revoke_token(set: &mut RevocationSet, token: &str)
    requires
        old(set).wf(),
    ensures
        final(set).wf(),
        final(set)@ == old(set)@.insert(token@),
{
    set.store.put_until(token, (), u64::MAX);
    proof {
        assert(set@ =~= old(set)@.insert(token@));
    }
}

/// True exactly when `token` has been revoked and not cleared since.
pub fn is_token_blacklisted(set: &RevocationSet, token: &str) -> (r: bool)
    requires
        set.wf(),
    ensures
        r == set@.contains(token@),
{
    set.store.read(token).is_some()
}

/// Forgets every revocation at once: an administrative reset.
pub fn cleanup_blacklist(set: &mut RevocationSet)
    ensures
        final(set).wf(),
        final(set)@ == Set::<Seq<char>>::empty(),
{
    set.store.clear();
    proof {
        assert(set@ =~= Set::<Seq<char>>::empty());
    }
}

/// Revoking `t` makes `t` revoked; it leaves every other token `u` exactly
/// as it was, so an unrevoked token stays unrevoked; and the cleared set
/// holds no token at all.
pub proof fn lemma_revocation_exact(s: Set<Seq<char>>, t: Seq<char>, u: Seq<char>)
    requires
        u != t,
    ensures
        s.insert(t).contains(t),
        s.insert(t).contains(u) == s.contains(u),
        !Set::<Seq<char>>::empty().contains(u),
{
}

} // verus!
