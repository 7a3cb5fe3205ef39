use session_guard::errors::StoreError;
use session_guard::session::SessionState;
use session_guard::store::{SessionStore, SWEEP_INTERVAL_SECONDS};

const UUID_TEXT: &[u8] = b"f47ac10b-58cc-4372-a567-0e02b2c3d479";

fn state_with(entries: &[(&[u8], &[u8])]) -> SessionState {
    let mut state = SessionState::new();
    for (k, v) in entries {
        state.set(k.to_vec(), v.to_vec());
    }
    state
}

#[test]
fn save_then_load_within_ttl_returns_saved_state() {
    let mut store = SessionStore::new();
    let state = state_with(&[(b"theme", b"dark"), (b"lang", b"fi")]);
    let key = store.save(state, 3600, 1000).expect("save failed");

    let loaded = store.load(&key, 2000).expect("load within the window returned nothing");
    assert_eq!(loaded.get(b"theme").map(|v| v.clone()), Some(b"dark".to_vec()));
    assert_eq!(loaded.get(b"lang").map(|v| v.clone()), Some(b"fi".to_vec()));
    assert!(loaded.get(b"missing").is_none());
}

#[test]
fn load_after_expiry_returns_none_before_any_sweep() {
    let mut store = SessionStore::new();
    let key = store.save(state_with(&[(b"a", b"1")]), 100, 1000).expect("save failed");

    assert!(store.load(&key, 1099).is_some());
    // at the expiry instant and after it, the record is logically absent
    assert!(store.load(&key, 1100).is_none());
    assert!(store.load(&key, 5000).is_none());
    // though still physically present until swept
    assert!(store.contains(&key));
}

#[test]
fn save_denormalizes_user_id_and_rejects_corrupt_one() {
    let mut store = SessionStore::new();
    let state = state_with(&[(b"user_id", UUID_TEXT)]);
    let key = store.save(state, 3600, 0).expect("save failed");
    assert!(store.load(&key, 10).is_some());

    let corrupt = state_with(&[(b"user_id", b"not-a-uuid")]);
    assert_eq!(store.save(corrupt, 3600, 0).unwrap_err(), StoreError::Serialize);
}

#[test]
fn update_on_live_key_preserves_key_and_overwrites() {
    let mut store = SessionStore::new();
    let key = store.save(state_with(&[(b"n", b"1")]), 1000, 0).expect("save failed");

    let new_key = store
        .update(&key, state_with(&[(b"n", b"2")]), 1000, 500)
        .expect("update failed");
    assert!(key.key_eq(&new_key), "update of a live record must keep the key");

    let loaded = store.load(&key, 600).expect("updated record unreadable");
    assert_eq!(loaded.get(b"n").map(|v| v.clone()), Some(b"2".to_vec()));
    // the TTL was refreshed: readable past the first expiry
    assert!(store.load(&key, 1400).is_some());
    assert!(store.load(&key, 1500).is_none());
}

#[test]
fn update_on_absent_key_returns_fresh_key() {
    let mut store = SessionStore::new();
    let ghost_key = session_guard::keys::generate();

    let new_key = store
        .update(&ghost_key, state_with(&[(b"x", b"y")]), 1000, 0)
        .expect("fallback save failed");
    let loaded = store.load(&new_key, 10).expect("fallback record unreadable");
    assert_eq!(loaded.get(b"x").map(|v| v.clone()), Some(b"y".to_vec()));
}

#[test]
fn update_on_expired_key_rotates_key_and_data_moves() {
    let mut store = SessionStore::new();
    let key = store.save(state_with(&[(b"x", b"old")]), 100, 0).expect("save failed");

    // past the expiry the update falls back to a fresh save
    let new_key = store
        .update(&key, state_with(&[(b"x", b"new")]), 1000, 200)
        .expect("fallback save failed");
    assert!(!key.key_eq(&new_key), "update of an expired record must rotate the key");

    // retrievable under the new key only
    let loaded = store.load(&new_key, 300).expect("rotated record unreadable");
    assert_eq!(loaded.get(b"x").map(|v| v.clone()), Some(b"new".to_vec()));
    assert!(store.load(&key, 300).is_none());
}

#[test]
fn refresh_ttl_extends_without_touching_data() {
    let mut store = SessionStore::new();
    let key = store.save(state_with(&[(b"k", b"v")]), 100, 0).expect("save failed");

    store.refresh_ttl(&key, 1000, 50);
    let loaded = store.load(&key, 900).expect("refreshed record unreadable");
    assert_eq!(loaded.get(b"k").map(|v| v.clone()), Some(b"v".to_vec()));
    assert!(store.load(&key, 1050).is_none());

    // refreshing an absent key is a no-op, not an error
    let stranger = session_guard::keys::generate();
    store.refresh_ttl(&stranger, 1000, 50);
    assert!(store.load(&stranger, 60).is_none());
}

#[test]
fn delete_is_idempotent() {
    let mut store = SessionStore::new();
    let key = store.save(state_with(&[(b"k", b"v")]), 100, 0).expect("save failed");
    assert!(store.contains(&key));

    store.delete(&key);
    assert!(!store.contains(&key));
    store.delete(&key);
    assert!(!store.contains(&key));
}

#[test]
fn sweep_removes_lapsed_records_and_keeps_live_ones() {
    let mut store = SessionStore::new();
    let dead = store.save(state_with(&[(b"d", b"1")]), 100, 0).expect("save failed");
    let live = store.save(state_with(&[(b"l", b"2")]), 10_000, 0).expect("save failed");

    // the lapsed record is hidden from loads even before the sweep runs
    assert!(store.load(&dead, 5000).is_none());
    assert!(store.contains(&dead));

    store.sweep(5000);
    assert!(!store.contains(&dead), "sweep must physically remove lapsed records");
    assert!(store.contains(&live));
    assert!(store.load(&live, 5000).is_some());
}

#[test]
fn sweep_interval_is_two_hours() {
    assert_eq!(SWEEP_INTERVAL_SECONDS, 7200);
}
