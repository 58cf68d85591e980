use base64::Engine;
use nabu::codec::{doc_from_json, doc_to_json};
use nabu::state::{Document, FileType};
use nabu::storage::{Storage, StorageError};

fn sample_doc() -> Document {
    Document {
        id: "11111111-2222-3333-4444-555555555555".to_string(),
        title: "T\u{ef}tle with \"quotes\" and \\ slashes".to_string(),
        author: Some("A. Author".to_string()),
        content: "Hello world \u{1f980} \u{6f22}\u{5b57}\nsecond line".to_string(),
        file_type: FileType::Md,
        progress: 37,
        last_position: 1234567890123,
        last_read: Some("2024-01-02T03:04:05+00:00".to_string()),
        created_at: "2024-01-01T00:00:00+00:00".to_string(),
        word_count: 5,
    }
}

#[test]
fn json_round_trip_preserves_every_field() {
    let d = sample_doc();
    let bytes = doc_to_json(&d);
    let back = doc_from_json(&bytes).expect("canonical encoding must parse");
    assert!(back == d);
    // The encoding is pure ASCII.
    assert!(bytes.iter().all(|b| *b < 0x80));
}

#[test]
fn json_rejects_junk() {
    assert!(doc_from_json(&b"not json at all".to_vec()).is_none());
    assert!(doc_from_json(&vec![]).is_none());
    let d = sample_doc();
    let mut bytes = doc_to_json(&d);
    bytes.push(b' ');
    assert!(doc_from_json(&bytes).is_none(), "trailing bytes must be rejected");
}

#[test]
fn save_then_get_returns_equal_document() {
    let (mut store, _persist) = Storage::new(None);
    let d = sample_doc();
    store.save_document(&d).expect("save");
    let got = store.get_document(&d.id).expect("get").expect("present");
    assert!(got == d);
}

#[test]
fn get_absent_is_none_not_error() {
    let (store, _persist) = Storage::new(None);
    let got = store.get_document("no-such-id").expect("get");
    assert!(got.is_none());
}

#[test]
fn tamper_detection_on_every_byte() {
    let (mut store, _persist) = Storage::new(None);
    let d = sample_doc();
    store.save_document(&d).expect("save");
    let raw = store.document_record(&d.id).expect("stored");
    let sealed = base64::engine::general_purpose::STANDARD
        .decode(&raw)
        .expect("stored record is base64");
    for i in 0..sealed.len() {
        let mut bad = sealed.clone();
        bad[i] ^= 0x01;
        let bad_b64 = base64::engine::general_purpose::STANDARD.encode(&bad);
        store.load_document_record(&d.id, &bad_b64);
        let r = store.get_document(&d.id);
        assert!(
            matches!(r, Err(StorageError::EncryptionError(_))),
            "flipping byte {} must fail decryption",
            i
        );
    }
}

#[test]
fn stored_record_is_sealed_not_plaintext() {
    let (mut store, _persist) = Storage::new(None);
    let d = sample_doc();
    store.save_document(&d).expect("save");
    let raw = store.document_record(&d.id).expect("stored");
    assert!(!raw.contains("Hello world"));
    let sealed = base64::engine::general_purpose::STANDARD
        .decode(&raw)
        .expect("base64");
    // Nonce plus tag overhead on top of the plaintext.
    assert_eq!(sealed.len(), doc_to_json(&d).len() + 28);
}

#[test]
fn two_saves_use_fresh_nonces() {
    let (mut store, _persist) = Storage::new(None);
    let d = sample_doc();
    store.save_document(&d).expect("save");
    let first = store.document_record(&d.id).expect("stored");
    store.save_document(&d).expect("save again");
    let second = store.document_record(&d.id).expect("stored");
    assert_ne!(first, second, "a fresh nonce must give a fresh ciphertext");
}

#[test]
fn get_all_skips_corrupted_record() {
    let (mut store, _persist) = Storage::new(None);
    let mut ids = Vec::new();
    for i in 0..3 {
        let mut d = sample_doc();
        d.id = format!("doc-{}", i);
        d.title = format!("title {}", i);
        store.save_document(&d).expect("save");
        ids.push(d.id.clone());
    }
    store.load_document_record("doc-bad", "@@not even base64@@");
    let all = store.get_all_documents().expect("scan");
    assert_eq!(all.len(), 3);
    let mut got: Vec<String> = all.iter().map(|d| d.id.clone()).collect();
    got.sort();
    assert_eq!(got, ids);
}

#[test]
fn get_all_skips_unauthentic_record() {
    let (mut store, _persist) = Storage::new(None);
    let d = sample_doc();
    store.save_document(&d).expect("save");
    let garbage = base64::engine::general_purpose::STANDARD.encode([0u8; 40]);
    store.load_document_record("doc-bad", &garbage);
    let all = store.get_all_documents().expect("scan");
    assert_eq!(all.len(), 1);
    assert!(all[0] == d);
}

#[test]
fn delete_is_idempotent() {
    let (mut store, _persist) = Storage::new(None);
    store.delete_document("ghost").expect("deleting an absent id succeeds");
    assert!(store.get_document("ghost").expect("get").is_none());
    let d = sample_doc();
    store.save_document(&d).expect("save");
    store.delete_document(&d.id).expect("delete");
    assert!(store.get_document(&d.id).expect("get").is_none());
    store.delete_document(&d.id).expect("second delete succeeds");
    assert!(store.get_document(&d.id).expect("get").is_none());
}

#[test]
fn key_slot_round_trip_across_stores() {
    let (mut first, persist) = Storage::new(None);
    let key_b64 = persist.expect("a fresh store returns its key to persist");
    let d = sample_doc();
    first.save_document(&d).expect("save");
    let raw = first.document_record(&d.id).expect("stored");

    let (mut second, persist2) = Storage::new(Some(&key_b64));
    assert!(persist2.is_none(), "a usable slot is reused, not replaced");
    second.load_document_record(&d.id, &raw);
    let got = second.get_document(&d.id).expect("get").expect("present");
    assert!(got == d);
}

#[test]
fn malformed_key_slot_gets_a_fresh_key() {
    let (_store, persist) = Storage::new(Some("@@@ not base64 @@@"));
    assert!(persist.is_some());
    let short = base64::engine::general_purpose::STANDARD.encode([1u8, 2, 3]);
    let (_store, persist) = Storage::new(Some(&short));
    assert!(persist.is_some(), "a wrong-length key is replaced");
}

#[test]
fn wrong_key_cannot_read_records() {
    let (mut first, _persist) = Storage::new(None);
    let d = sample_doc();
    first.save_document(&d).expect("save");
    let raw = first.document_record(&d.id).expect("stored");
    let (mut second, _persist2) = Storage::new(None);
    second.load_document_record(&d.id, &raw);
    let r = second.get_document(&d.id);
    assert!(matches!(r, Err(StorageError::EncryptionError(_))));
}

#[test]
fn settings_round_trip_plain() {
    let (mut store, _persist) = Storage::new(None);
    store.save_setting("theme", "\"dark\"").expect("save setting");
    store.save_setting("wpm", "300").expect("save setting");
    assert_eq!(store.get_setting("theme").expect("get"), Some("\"dark\"".to_string()));
    assert_eq!(store.get_setting("wpm").expect("get"), Some("300".to_string()));
    assert_eq!(store.get_setting("absent").expect("get"), None);
    store.save_setting("theme", "\"light\"").expect("overwrite");
    assert_eq!(store.get_setting("theme").expect("get"), Some("\"light\"".to_string()));
}

#[test]
fn storage_error_messages_name_the_layer() {
    let e = StorageError::EncryptionError("boom".to_string());
    assert_eq!(e.message(), "Encryption error: boom");
    let e = StorageError::SerializationError("bad".to_string());
    assert_eq!(e.message(), "Serialization error: bad");
}

#[test]
fn get_of_malformed_record_is_serialization_error() {
    let (mut store, _persist) = Storage::new(None);
    store.load_document_record("bad", "@@ not base64 @@");
    let r = store.get_document("bad");
    assert!(matches!(r, Err(StorageError::SerializationError(_))));
}
