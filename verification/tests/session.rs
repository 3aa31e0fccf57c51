use ephemeral_store::session::cleanup_expired_sessions;
use ephemeral_store::session::create_session;
use ephemeral_store::session::get_active_sessions;
use ephemeral_store::session::get_session;
use ephemeral_store::session::remove_session;
use ephemeral_store::session::update_session_activity;
use ephemeral_store::session::Session;
use ephemeral_store::session::SessionTable;
use ephemeral_store::session::SESSION_LIFETIME_SECONDS;

#[test]
fn create_then_get_returns_the_owner() {
    let mut table = SessionTable::new();
    let s = create_session(
        &mut table,
        "alice".to_string(),
        "10.0.0.1".to_string(),
        "agent/1.0".to_string(),
        1000,
    );
    assert_eq!(s.user_id, "alice");
    assert_eq!(s.created_at, 1000);
    assert_eq!(s.expires_at, 1000 + SESSION_LIFETIME_SECONDS);
    assert_eq!(s.last_activity, 1000);
    assert_eq!(s.session_id.len(), 36);
    let got = get_session(&mut table, &s.session_id, 1000).expect("fresh session");
    assert_eq!(got.user_id, "alice");
    assert_eq!(got.ip_address, "10.0.0.1");
    assert_eq!(got.user_agent, "agent/1.0");
}

#[test]
fn expired_session_is_gone_after_sweep() {
    let mut table = SessionTable::new();
    let s = create_session(
        &mut table,
        "alice".to_string(),
        "ip".to_string(),
        "ua".to_string(),
        0,
    );
    let after_expiry = s.expires_at + 1;
    cleanup_expired_sessions(&mut table, after_expiry);
    assert!(get_session(&mut table, &s.session_id, after_expiry).is_none());
}

#[test]
fn session_is_valid_through_its_own_expiry_instant() {
    let mut table = SessionTable::new();
    let s = create_session(&mut table, "u".to_string(), "ip".to_string(), "ua".to_string(), 0);
    assert!(get_session(&mut table, &s.session_id, s.expires_at).is_some());
    assert!(get_session(&mut table, &s.session_id, s.expires_at + 1).is_none());
}

#[test]
fn touch_updates_activity_but_never_the_expiry() {
    let mut table = SessionTable::new();
    let s = create_session(&mut table, "u".to_string(), "ip".to_string(), "ua".to_string(), 100);
    update_session_activity(&mut table, &s.session_id, 500);
    let got = get_session(&mut table, &s.session_id, 500).expect("still live");
    assert_eq!(got.last_activity, 500);
    assert_eq!(got.expires_at, s.expires_at);
    assert_eq!(got.created_at, 100);
}

#[test]
fn touch_of_a_missing_session_is_a_noop() {
    let mut table = SessionTable::new();
    update_session_activity(&mut table, "no-such-session", 500);
    assert!(get_session(&mut table, "no-such-session", 500).is_none());
}

#[test]
fn removed_session_is_absent() {
    let mut table = SessionTable::new();
    let s = create_session(&mut table, "u".to_string(), "ip".to_string(), "ua".to_string(), 0);
    remove_session(&mut table, &s.session_id);
    assert!(get_session(&mut table, &s.session_id, 0).is_none());
}

#[test]
fn active_sessions_filter_by_owner_and_expiry() {
    let mut table = SessionTable::new();
    let old_alice = create_session(
        &mut table,
        "alice".to_string(),
        "ip1".to_string(),
        "ua".to_string(),
        0,
    );
    let now = old_alice.expires_at + 10;
    let fresh_alice = create_session(
        &mut table,
        "alice".to_string(),
        "ip2".to_string(),
        "ua".to_string(),
        now,
    );
    let _bob = create_session(&mut table, "bob".to_string(), "ip3".to_string(), "ua".to_string(), now);
    let active: Vec<Session> = get_active_sessions(&table, "alice", now);
    assert_eq!(active.len(), 1);
    assert_eq!(active[0].session_id, fresh_alice.session_id);
    assert_eq!(active[0].user_id, "alice");
}

#[test]
fn two_sessions_get_distinct_identifiers() {
    let mut table = SessionTable::new();
    let a = create_session(&mut table, "u".to_string(), "ip".to_string(), "ua".to_string(), 0);
    let b = create_session(&mut table, "u".to_string(), "ip".to_string(), "ua".to_string(), 0);
    assert_ne!(a.session_id, b.session_id);
    assert_eq!(get_active_sessions(&table, "u", 0).len(), 2);
}
