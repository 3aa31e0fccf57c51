use ephemeral_store::revocation::cleanup_blacklist;
use ephemeral_store::revocation::is_token_blacklisted;
use ephemeral_store::revocation::revoke_token;
use ephemeral_store::revocation::RevocationSet;

#[test]
fn revoked_token_is_blacklisted_and_others_are_not() {
    let mut set = RevocationSet::new();
    revoke_token(&mut set, "token-a");
    assert!(is_token_blacklisted(&set, "token-a"));
    assert!(!is_token_blacklisted(&set, "token-b"));
}

#[test]
fn revoking_twice_changes_nothing() {
    let mut set = RevocationSet::new();
    revoke_token(&mut set, "t");
    revoke_token(&mut set, "t");
    assert!(is_token_blacklisted(&set, "t"));
}

#[test]
fn cleanup_resets_every_token_to_unrevoked() {
    let mut set = RevocationSet::new();
    revoke_token(&mut set, "a");
    revoke_token(&mut set, "b");
    cleanup_blacklist(&mut set);
    assert!(!is_token_blacklisted(&set, "a"));
    assert!(!is_token_blacklisted(&set, "b"));
}

#[test]
fn fresh_set_revokes_nothing() {
    let set = RevocationSet::new();
    assert!(!is_token_blacklisted(&set, "anything"));
}
