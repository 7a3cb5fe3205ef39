use session_guard::framing::{decode_entries, decode_state, encode_entries, encode_state};
use session_guard::session::SessionState;

#[test]
fn known_framing_of_two_entries() {
    let entries = vec![
        (b"user_id".to_vec(), b"42".to_vec()),
        (b"csrf".to_vec(), b"abc".to_vec()),
    ];
    let blob = encode_entries(&entries);
    assert_eq!(blob, b"7:user_id2:424:csrf3:abc".to_vec());
}

#[test]
fn empty_list_frames_to_empty_blob() {
    let entries: Vec<(Vec<u8>, Vec<u8>)> = Vec::new();
    assert_eq!(encode_entries(&entries), Vec::<u8>::new());
    assert_eq!(decode_entries(b""), Some(Vec::new()));
}

#[test]
fn entries_round_trip_through_the_blob() {
    let entries = vec![
        (b"a".to_vec(), Vec::new()),
        (Vec::new(), b"value with spaces and :: colons".to_vec()),
        (b"k".repeat(300), b"v".to_vec()),
    ];
    let blob = encode_entries(&entries);
    let back = decode_entries(&blob).expect("own framing refused");
    assert_eq!(back, entries);
}

#[test]
fn malformed_blobs_are_refused() {
    assert_eq!(decode_entries(b"x"), None, "no digit run");
    assert_eq!(decode_entries(b"3:abc"), None, "a key without a value");
    assert_eq!(decode_entries(b"5:abc1:d"), None, "length past the end");
    assert_eq!(decode_entries(b"03:abc1:d"), None, "leading zero is not canonical");
    assert_eq!(decode_entries(b"3abc1:d"), None, "missing colon");
    assert_eq!(decode_entries(b"3:"), None, "truncated field");
    assert_eq!(decode_entries(b"1:a1:b2:cd"), None, "trailing half entry");
}

#[test]
fn state_round_trips_through_the_blob() {
    let mut state = SessionState::new();
    state.set(b"user_id".to_vec(), b"f47ac10b-58cc-4372-a567-0e02b2c3d479".to_vec());
    state.set(b"csrf".to_vec(), b"SGVsbG8=".to_vec());
    state.set(b"theme".to_vec(), b"dark".to_vec());

    let blob = encode_state(&state);
    let back = decode_state(&blob).expect("own framing refused");
    assert_eq!(back.get(b"user_id"), state.get(b"user_id"));
    assert_eq!(back.get(b"csrf"), state.get(b"csrf"));
    assert_eq!(back.get(b"theme"), state.get(b"theme"));
    assert_eq!(back.entries().len(), state.entries().len());
}

#[test]
fn duplicate_keys_in_a_blob_are_refused() {
    // a structurally well-formed framing whose key repeats is not a state
    let blob = b"1:a1:x1:a1:y".to_vec();
    assert!(decode_entries(&blob).is_some());
    assert!(decode_state(&blob).is_none());
}
