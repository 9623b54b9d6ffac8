use watermark_gateway::fingerprint::{decode_fingerprint, fingerprint};
use watermark_gateway::session::{SessionRegistry, SessionStatus};
use watermark_gateway::store::{sq_dist, VideoRecord, VideoStore};
use watermark_gateway::textfmt::{
    content_disposition, dec_string, filename_component, json_escape_str, manifest_definition,
    processed_video_path,
};

fn soft(vals: &[u32]) -> Vec<u32> {
    vals.to_vec()
}

fn record(path: &str, bits: &[u32]) -> VideoRecord {
    VideoRecord { path: path.to_string(), message_bits: bits.to_vec() }
}

#[test]
fn fingerprint_is_deterministic() {
    let bits = soft(&[900_000, 100_000, 800_000, 200_000]);
    assert_eq!(fingerprint(&bits), fingerprint(&bits));
    assert_eq!(fingerprint(&bits), "a000");
}

#[test]
fn fingerprint_separates_different_bits() {
    let a = soft(&[900_000, 100_000, 800_000, 200_000]);
    let b = soft(&[100_000, 100_000, 800_000, 200_000]);
    assert_ne!(fingerprint(&a), fingerprint(&b));
}

#[test]
fn fingerprint_threshold_is_at_one_half() {
    // 0.5 itself counts as a 1-bit.
    let exact_half = soft(&[500_000]);
    let below_half = soft(&[499_999]);
    assert_eq!(fingerprint(&exact_half), "8000");
    assert_eq!(fingerprint(&below_half), "0000");
}

#[test]
fn fingerprint_without_padding_byte() {
    // Eight bits pack into one byte and need no extra zero byte.
    let bits = soft(&[
        900_000, 100_000, 800_000, 200_000, 900_000, 100_000, 800_000, 900_000,
    ]);
    assert_eq!(fingerprint(&bits), "ab");
}

#[test]
fn fingerprint_of_empty_vector() {
    let bits: Vec<u32> = Vec::new();
    assert_eq!(fingerprint(&bits), "");
}

#[test]
fn decode_recovers_thresholded_bits_with_padding() {
    let bits = soft(&[900_000, 100_000, 800_000, 200_000]);
    let fp = fingerprint(&bits);
    let decoded = decode_fingerprint(&fp).expect("a fingerprint is valid hex");
    let mut expected = vec![true, false, true, false];
    expected.extend(std::iter::repeat(false).take(12));
    assert_eq!(decoded, expected);
}

#[test]
fn decode_rejects_bad_hex() {
    assert!(decode_fingerprint("xyz").is_none());
    assert!(decode_fingerprint("a00").is_none());
    assert!(decode_fingerprint("A000").is_some());
}

#[test]
fn squared_distance_exact_value() {
    let stored = soft(&[900_000, 100_000, 800_000, 200_000]);
    let probe = soft(&[910_000, 120_000, 790_000, 180_000]);
    assert_eq!(sq_dist(&stored, &probe), 1_000_000_000);
    assert_eq!(sq_dist(&stored, &stored), 0);
}

#[test]
fn nearest_finds_exact_probe_at_distance_zero() {
    let mut store = VideoStore::new();
    store.insert_record(record("./data/processed/a.mp4", &[900_000, 100_000, 800_000, 200_000]));
    store.insert_record(record("./data/processed/b.mp4", &[100_000, 900_000, 200_000, 800_000]));
    let probe = soft(&[900_000, 100_000, 800_000, 200_000]);
    let hit = store.nearest(&probe).expect("the exact vector is stored");
    assert_eq!(hit.path, "./data/processed/a.mp4");
    assert_eq!(hit.message_bits, probe);
}

#[test]
fn nearest_on_empty_store_is_none() {
    let store = VideoStore::new();
    assert!(store.nearest(&soft(&[900_000])).is_none());
}

#[test]
fn nearest_skips_records_of_other_lengths() {
    let mut store = VideoStore::new();
    store.insert_record(record("long.mp4", &[900_000, 100_000, 800_000, 200_000]));
    store.insert_record(record("short.mp4", &[900_000, 100_000, 800_000]));
    let probe = soft(&[100_000, 100_000, 100_000]);
    let hit = store.nearest(&probe).expect("one record is length-compatible");
    assert_eq!(hit.path, "short.mp4");
    assert!(store.nearest(&soft(&[1, 2])).is_none());
}

#[test]
fn nearest_tie_breaks_on_first_record() {
    let mut store = VideoStore::new();
    store.insert_record(record("first.mp4", &[510_000]));
    store.insert_record(record("second.mp4", &[490_000]));
    let hit = store.nearest(&soft(&[500_000])).expect("both are compatible");
    assert_eq!(hit.path, "first.mp4");
}

#[test]
fn insert_overwrites_colliding_fingerprint() {
    let mut store = VideoStore::new();
    store.insert_record(record("old.mp4", &[900_000, 100_000, 800_000, 200_000]));
    // The same thresholded bits, so the same fingerprint: last write wins.
    store.insert_record(record("new.mp4", &[950_000, 200_000, 700_000, 100_000]));
    assert_eq!(store.record_count(), 1);
    let hit = store.nearest(&soft(&[950_000, 200_000, 700_000, 100_000])).unwrap();
    assert_eq!(hit.path, "new.mp4");
}

#[test]
fn snapshot_restore_round_trips() {
    let mut store = VideoStore::new();
    store.insert_record(record("a.mp4", &[900_000, 100_000, 800_000, 200_000]));
    store.insert_record(record("b.mp4", &[100_000, 900_000, 200_000, 800_000]));
    let snap = store.snapshot();
    assert_eq!(snap.len(), 2);
    assert_eq!(snap[0].key, "a000");
    let restored = VideoStore::restore(&snap);
    assert_eq!(restored.record_count(), 2);
    let again = restored.snapshot();
    for (a, b) in snap.iter().zip(again.iter()) {
        assert_eq!(a.key, b.key);
        assert_eq!(a.record.path, b.record.path);
        assert_eq!(a.record.message_bits, b.record.message_bits);
    }
}

#[test]
fn session_transitions_only_move_forward() {
    let mut reg = SessionRegistry::new();
    reg.create("s1".to_string());
    let id = "s1".to_string();
    assert_eq!(reg.get(&id).unwrap().status, SessionStatus::Uploading);

    // Skipping ahead from uploading is not admitted.
    reg.advance(&id, SessionStatus::Completed, None);
    assert_eq!(reg.get(&id).unwrap().status, SessionStatus::Uploading);

    reg.advance(&id, SessionStatus::Processing, None);
    assert_eq!(reg.get(&id).unwrap().status, SessionStatus::Processing);

    reg.advance(&id, SessionStatus::Completed, None);
    assert_eq!(reg.get(&id).unwrap().status, SessionStatus::Completed);

    // Terminal states never regress.
    reg.advance(&id, SessionStatus::Processing, None);
    assert_eq!(reg.get(&id).unwrap().status, SessionStatus::Completed);
    reg.advance(&id, SessionStatus::Failed, Some("late".to_string()));
    assert_eq!(reg.get(&id).unwrap().status, SessionStatus::Completed);
}

#[test]
fn unknown_session_reports_not_found() {
    let reg = SessionRegistry::new();
    let (status, error) = reg.status_report(&"missing".to_string());
    assert_eq!(status, "not_found");
    assert_eq!(error.as_deref(), Some("Session not found"));
}

#[test]
fn concurrent_sessions_do_not_interfere() {
    let mut reg = SessionRegistry::new();
    let a = "session-a".to_string();
    let b = "session-b".to_string();
    reg.create(a.clone());
    reg.create(b.clone());
    reg.advance(&a, SessionStatus::Processing, None);
    reg.advance(&b, SessionStatus::Processing, None);
    reg.advance(&a, SessionStatus::Completed, None);
    reg.advance(&b, SessionStatus::Failed, Some("backend down".to_string()));
    let ra = reg.get(&a).unwrap();
    let rb = reg.get(&b).unwrap();
    assert_eq!(ra.status, SessionStatus::Completed);
    assert_eq!(ra.error, None);
    assert_eq!(rb.status, SessionStatus::Failed);
    assert_eq!(rb.error.as_deref(), Some("backend down"));
}

#[test]
fn decimal_rendering_exact() {
    assert_eq!(dec_string(0), "0");
    assert_eq!(dec_string(503), "503");
    assert_eq!(dec_string(1_234_567), "1234567");
}

#[test]
fn filename_component_exact() {
    assert_eq!(filename_component("./data/processed/abc.mp4"), "abc.mp4");
    assert_eq!(filename_component("video.mp4"), "video.mp4");
    assert_eq!(filename_component("dir/"), "");
    assert_eq!(filename_component(""), "");
}

#[test]
fn disposition_and_path_exact() {
    assert_eq!(
        content_disposition("abc.mp4"),
        "attachment; filename=\"abc.mp4\""
    );
    assert_eq!(processed_video_path("id-1"), "./data/processed/id-1.mp4");
}

#[test]
fn manifest_definition_exact() {
    let bits = soft(&[900_000, 100_000, 800_000, 200_000]);
    let json = manifest_definition("watermarked_video.mp4", "video/mp4", &bits);
    let expected = "{\"title\":\"watermarked_video.mp4\",\"format\":\"video/mp4\",\"claim_generator_info\":[{\"name\":\"C2PA Watermarking Service\",\"version\":\"1.0\"}],\"assertions\":[{\"label\":\"c2pa.watermark\",\"data\":{\"message_bits_hex\":\"a000\",\"message_bits_len\":4,\"action\":\"c2pa.watermarked\",\"softwareAgent\":{\"name\":\"C2PA Watermarking Service\",\"version\":\"1.0\"}}}]}";
    assert_eq!(json, expected);
    // The claim is well-formed JSON carrying the fingerprint and bit count.
    let parsed: serde_json::Value = serde_json::from_str(&json).unwrap();
    assert_eq!(
        parsed["assertions"][0]["data"]["message_bits_hex"],
        serde_json::Value::String("a000".to_string())
    );
    assert_eq!(parsed["assertions"][0]["data"]["message_bits_len"], 4);
}

#[test]
fn json_escaping_exact() {
    assert_eq!(json_escape_str("plain"), "plain");
    assert_eq!(json_escape_str("a\"b"), "a\\\"b");
    assert_eq!(json_escape_str("a\\b"), "a\\\\b");
    assert_eq!(json_escape_str("a\nb"), "a\\u000ab");
}

#[test]
fn manifest_escapes_title_and_format() {
    let bits = soft(&[900_000]);
    let title = "odd \"name\"\nwith \\ chars";
    let json = manifest_definition(title, "video/mp4", &bits);
    let parsed: serde_json::Value = serde_json::from_str(&json).unwrap();
    assert_eq!(parsed["title"], serde_json::Value::String(title.to_string()));
    assert_eq!(
        parsed["format"],
        serde_json::Value::String("video/mp4".to_string())
    );
}
