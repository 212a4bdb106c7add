use std::collections::HashSet;

use rouille::session::{generate_session_id, SessionsManager};

#[test]
fn create_returns_fresh_identifier() {
    let mut mgr = SessionsManager::new(3600);
    let s = mgr.get_or_create(None, 1000);
    assert_eq!(s.id.len(), 32);
    assert!(s.values.is_empty());
    assert!(s.id.chars().all(|c| c.is_ascii_alphanumeric()));
}

#[test]
fn created_session_is_found_again() {
    let mut mgr = SessionsManager::new(3600);
    let s = mgr.get_or_create(None, 1000);
    let id = s.id.clone();
    let again = mgr.get_or_create(Some(&id), 1000);
    assert_eq!(again.id, id);
    let fetched = mgr.get(&id, 1000).expect("session should be live");
    assert_eq!(fetched.id, id);
}

#[test]
fn values_round_trip_through_the_store() {
    let mut mgr = SessionsManager::new(3600);
    let s = mgr.get_or_create(None, 0);
    let id = s.id.clone();
    assert!(mgr.set_value(&id, "user", "alice"));
    let fetched = mgr.get(&id, 0).unwrap();
    assert_eq!(fetched.get_value("user").unwrap(), "alice");
    assert!(fetched.get_value("missing").is_none());
}

#[test]
fn newer_binding_shadows_older() {
    let mut mgr = SessionsManager::new(3600);
    let s = mgr.get_or_create(None, 0);
    let id = s.id.clone();
    assert!(mgr.set_value(&id, "k", "one"));
    assert!(mgr.set_value(&id, "k", "two"));
    let fetched = mgr.get(&id, 0).unwrap();
    assert_eq!(fetched.get_value("k").unwrap(), "two");
}

#[test]
fn set_value_on_unknown_id_reports_absence() {
    let mut mgr = SessionsManager::new(3600);
    assert!(!mgr.set_value(&String::from("nope"), "k", "v"));
}

#[test]
fn destroyed_session_is_gone() {
    let mut mgr = SessionsManager::new(3600);
    let s = mgr.get_or_create(None, 0);
    let id = s.id.clone();
    mgr.destroy(&id);
    assert!(mgr.get(&id, 0).is_none());
    let fresh = mgr.get_or_create(Some(&id), 0);
    assert_ne!(fresh.id, id);
    assert!(fresh.values.is_empty());
}

#[test]
fn expired_session_is_never_returned() {
    let mut mgr = SessionsManager::new(10);
    let s = mgr.get_or_create(None, 100);
    let id = s.id.clone();
    assert!(mgr.get(&id, 110).is_some());
    assert!(mgr.get(&id, 111).is_none());
    let replacement = mgr.get_or_create(Some(&id), 111);
    assert_ne!(replacement.id, id);
}

#[test]
fn get_does_not_extend_life_but_get_or_create_does() {
    let mut mgr = SessionsManager::new(10);
    let s = mgr.get_or_create(None, 0);
    let id = s.id.clone();
    assert!(mgr.get(&id, 5).is_some());
    assert!(mgr.get(&id, 11).is_none());

    let mut mgr2 = SessionsManager::new(10);
    let s2 = mgr2.get_or_create(None, 0);
    let id2 = s2.id.clone();
    let _ = mgr2.get_or_create(Some(&id2), 8);
    assert!(mgr2.get(&id2, 15).is_some());
}

#[test]
fn many_creations_yield_distinct_sessions() {
    let mut mgr = SessionsManager::new(3600);
    let mut ids = HashSet::new();
    for _ in 0..200 {
        let s = mgr.get_or_create(None, 0);
        assert!(ids.insert(s.id.clone()), "identifier reused");
    }
    assert_eq!(ids.len(), 200);
}

#[test]
fn ten_thousand_generated_identifiers_collide_never() {
    let mut seen = HashSet::new();
    for _ in 0..10_000 {
        let id = generate_session_id();
        assert_eq!(id.len(), 32);
        assert!(seen.insert(id), "identifier collision");
    }
}

#[test]
fn sweep_keeps_exactly_the_live_sessions() {
    let mut mgr = SessionsManager::new(10);
    let a = mgr.get_or_create(None, 0).id;
    let b = mgr.get_or_create(None, 5).id;
    let c = mgr.get_or_create(None, 20).id;
    mgr.purge_expired(20);
    assert!(mgr.get(&a, 20).is_none());
    assert!(mgr.get(&b, 20).is_none());
    assert!(mgr.get(&c, 20).is_some());
    assert!(mgr.get_or_create(Some(&b), 20).id != b);
}

#[test]
fn session_duplicate_is_equal() {
    let mut mgr = SessionsManager::new(3600);
    let s = mgr.get_or_create(None, 0);
    let id = s.id.clone();
    assert!(mgr.set_value(&id, "a", "1"));
    let fetched = mgr.get(&id, 0).unwrap();
    let copy = fetched.duplicate();
    assert_eq!(copy.id, fetched.id);
    assert_eq!(copy.get_value("a").unwrap(), "1");
}
