use dabroke::errors::StoreError;
use dabroke::json::{voices_from_json, voices_to_json};
use dabroke::store::{delete_in_json, load_from_json, upsert_in_json};
use dabroke::voice::{delete, upsert, Voice};

fn mk(id: &str, name: &str) -> Voice {
    Voice {
        id: id.to_string(),
        name: name.to_string(),
        voice_id: format!("voice-of-{}", id),
        created_at: "2024-01-01T00:00:00Z".to_string(),
    }
}

fn assert_same(a: &Voice, b: &Voice) {
    assert_eq!(a.id, b.id);
    assert_eq!(a.name, b.name);
    assert_eq!(a.voice_id, b.voice_id);
    assert_eq!(a.created_at, b.created_at);
}

#[test]
fn upsert_new_on_empty_yields_singleton() {
    let mut voices: Vec<Voice> = Vec::new();
    upsert(&mut voices, mk("v1", "first"));
    assert_eq!(voices.len(), 1);
    assert_same(&voices[0], &mk("v1", "first"));
}

#[test]
fn upsert_replace_preserves_position() {
    let mut voices = vec![mk("a", "alpha"), mk("b", "beta"), mk("c", "gamma")];
    let mut b2 = mk("b", "beta prime");
    b2.voice_id = "changed".to_string();
    upsert(&mut voices, b2);
    assert_eq!(voices.len(), 3);
    assert_eq!(voices[0].id, "a");
    assert_eq!(voices[1].id, "b");
    assert_eq!(voices[1].name, "beta prime");
    assert_eq!(voices[1].voice_id, "changed");
    assert_eq!(voices[2].id, "c");
}

#[test]
fn upsert_appends_new_id_at_end() {
    let mut voices = vec![mk("a", "alpha"), mk("b", "beta")];
    upsert(&mut voices, mk("c", "gamma"));
    assert_eq!(voices.len(), 3);
    assert_eq!(voices[2].id, "c");
}

#[test]
fn upsert_replaces_only_the_first_match() {
    let mut voices = vec![mk("x", "one"), mk("y", "two"), mk("x", "three")];
    upsert(&mut voices, mk("x", "replaced"));
    assert_eq!(voices.len(), 3);
    assert_eq!(voices[0].name, "replaced");
    assert_eq!(voices[1].name, "two");
    assert_eq!(voices[2].name, "three");
}

#[test]
fn delete_missing_id_leaves_collection_unchanged() {
    let mut voices = vec![mk("a", "alpha"), mk("b", "beta")];
    delete(&mut voices, &"nonexistent".to_string());
    assert_eq!(voices.len(), 2);
    assert_same(&voices[0], &mk("a", "alpha"));
    assert_same(&voices[1], &mk("b", "beta"));
}

#[test]
fn delete_removes_every_match_keeping_order() {
    let mut voices = vec![mk("a", "one"), mk("b", "two"), mk("a", "three"), mk("c", "four")];
    delete(&mut voices, &"a".to_string());
    assert_eq!(voices.len(), 2);
    assert_eq!(voices[0].id, "b");
    assert_eq!(voices[1].id, "c");
}

#[test]
fn delete_on_missing_store_is_noop_and_writes_nothing() {
    let r = delete_in_json(None, &"anything".to_string());
    assert!(matches!(r, Ok(None)));
}

#[test]
fn round_trip_preserves_content_and_order() {
    let voices = vec![mk("v1", "plain"), mk("v2", "second"), mk("v3", "third")];
    let doc = voices_to_json(&voices);
    let back = voices_from_json(&doc).unwrap();
    assert_eq!(back.len(), 3);
    for i in 0..3 {
        assert_same(&back[i], &voices[i]);
    }
}

#[test]
fn round_trip_with_escapes_and_unicode() {
    let mut v = mk("id with \"quotes\"", "line\nbreak\tand\\slash");
    v.voice_id = "héllo ♫ voice".to_string();
    v.created_at = "ctrl\u{8}\u{c}\rchars".to_string();
    let voices = vec![v];
    let doc = voices_to_json(&voices);
    let back = voices_from_json(&doc).unwrap();
    assert_eq!(back.len(), 1);
    assert_eq!(back[0].id, "id with \"quotes\"");
    assert_eq!(back[0].name, "line\nbreak\tand\\slash");
    assert_eq!(back[0].voice_id, "héllo ♫ voice");
    assert_eq!(back[0].created_at, "ctrl\u{8}\u{c}\rchars");
}

#[test]
fn empty_collection_encodes_as_empty_array() {
    let voices: Vec<Voice> = Vec::new();
    assert_eq!(voices_to_json(&voices), "[]");
    let back = voices_from_json("[]").unwrap();
    assert_eq!(back.len(), 0);
    let spaced = voices_from_json("  [ \n ]  ").unwrap();
    assert_eq!(spaced.len(), 0);
}

#[test]
fn encoder_produces_pretty_document() {
    let voices = vec![mk("v1", "one")];
    let doc = voices_to_json(&voices);
    let expected = "[\n  {\n    \"id\": \"v1\",\n    \"name\": \"one\",\n    \"voice_id\": \"voice-of-v1\",\n    \"created_at\": \"2024-01-01T00:00:00Z\"\n  }\n]";
    assert_eq!(doc, expected);
}

#[test]
fn parser_accepts_compact_document() {
    let doc = "[{\"id\":\"x\",\"name\":\"n\",\"voice_id\":\"v\",\"created_at\":\"c\"}]";
    let back = voices_from_json(doc).unwrap();
    assert_eq!(back.len(), 1);
    assert_eq!(back[0].id, "x");
    assert_eq!(back[0].name, "n");
    assert_eq!(back[0].voice_id, "v");
    assert_eq!(back[0].created_at, "c");
}

#[test]
fn parser_accepts_members_in_any_order() {
    let doc = "[{\"name\":\"n\",\"id\":\"x\",\"voice_id\":\"v\",\"created_at\":\"c\"}]";
    let back = voices_from_json(doc).unwrap();
    assert_eq!(back.len(), 1);
    assert_eq!(back[0].id, "x");
    assert_eq!(back[0].name, "n");
    let doc2 = "[{\"created_at\":\"c\",\"voice_id\":\"v\",\"name\":\"n\",\"id\":\"x\"}]";
    let back2 = voices_from_json(doc2).unwrap();
    assert_eq!(back2[0].id, "x");
    assert_eq!(back2[0].created_at, "c");
}

#[test]
fn duplicate_member_is_a_parse_error() {
    let doc = "[{\"id\":\"a\",\"id\":\"b\",\"voice_id\":\"v\",\"created_at\":\"c\"}]";
    assert!(matches!(voices_from_json(doc), Err(StoreError::Parse)));
}

#[test]
fn parser_accepts_unicode_escapes() {
    let doc =
        "[{\"id\":\"\\u0041\\u00e9\",\"name\":\"\\u001F\",\"voice_id\":\"\\ud83d\\ude00\",\"created_at\":\"c\"}]";
    let back = voices_from_json(doc).unwrap();
    assert_eq!(back[0].id, "A\u{e9}");
    assert_eq!(back[0].name, "\u{1f}");
    assert_eq!(back[0].voice_id, "\u{1F600}");
}

#[test]
fn lone_surrogate_is_a_parse_error() {
    let doc = "[{\"id\":\"\\ud800\",\"name\":\"n\",\"voice_id\":\"v\",\"created_at\":\"c\"}]";
    assert!(matches!(voices_from_json(doc), Err(StoreError::Parse)));
    let doc2 = "[{\"id\":\"\\udc00\",\"name\":\"n\",\"voice_id\":\"v\",\"created_at\":\"c\"}]";
    assert!(matches!(voices_from_json(doc2), Err(StoreError::Parse)));
}

#[test]
fn control_chars_encode_as_unicode_escapes() {
    let mut v = mk("v1", "one");
    v.name = "a\u{1}b\u{1f}c".to_string();
    let doc = voices_to_json(&vec![v]);
    assert!(doc.contains("a\\u0001b\\u001fc"));
    let back = voices_from_json(&doc).unwrap();
    assert_eq!(back[0].name, "a\u{1}b\u{1f}c");
}

#[test]
fn malformed_json_is_a_parse_error_not_empty() {
    assert!(matches!(voices_from_json("{invalid"), Err(StoreError::Parse)));
    assert!(matches!(voices_from_json(""), Err(StoreError::Parse)));
    assert!(matches!(voices_from_json("[{}]"), Err(StoreError::Parse)));
    assert!(matches!(voices_from_json("[\"id\"]"), Err(StoreError::Parse)));
    // unterminated string
    assert!(matches!(voices_from_json("[{\"id\":\"x]"), Err(StoreError::Parse)));
    // trailing garbage after the array
    assert!(matches!(voices_from_json("[] x"), Err(StoreError::Parse)));
}

#[test]
fn schema_mismatch_is_a_parse_error() {
    // missing field
    let missing = "[{\"id\":\"x\",\"name\":\"n\",\"voice_id\":\"v\"}]";
    assert!(matches!(voices_from_json(missing), Err(StoreError::Parse)));
    // wrong type for a field
    let wrong_type = "[{\"id\":\"x\",\"name\":1,\"voice_id\":\"v\",\"created_at\":\"c\"}]";
    assert!(matches!(voices_from_json(wrong_type), Err(StoreError::Parse)));
}

#[test]
fn parse_error_message_text() {
    let e = voices_from_json("{oops").unwrap_err();
    assert_eq!(e.message(), "Failed to parse voices JSON");
}

#[test]
fn upsert_in_json_on_missing_store() {
    let doc = upsert_in_json(None, mk("v1", "first")).unwrap();
    let back = voices_from_json(&doc).unwrap();
    assert_eq!(back.len(), 1);
    assert_same(&back[0], &mk("v1", "first"));
}

#[test]
fn upsert_in_json_replaces_in_place() {
    let doc0 = voices_to_json(&vec![mk("a", "alpha"), mk("b", "beta"), mk("c", "gamma")]);
    let doc1 = upsert_in_json(Some(&doc0), mk("b", "better")).unwrap();
    let back = voices_from_json(&doc1).unwrap();
    assert_eq!(back.len(), 3);
    assert_eq!(back[0].id, "a");
    assert_eq!(back[1].id, "b");
    assert_eq!(back[1].name, "better");
    assert_eq!(back[2].id, "c");
}

#[test]
fn delete_in_json_rewrites_without_the_record() {
    let doc0 = voices_to_json(&vec![mk("a", "alpha"), mk("b", "beta")]);
    let doc1 = delete_in_json(Some(&doc0), &"a".to_string()).unwrap().unwrap();
    let back = voices_from_json(&doc1).unwrap();
    assert_eq!(back.len(), 1);
    assert_eq!(back[0].id, "b");
}

#[test]
fn load_from_json_missing_file_reads_empty() {
    let vs = load_from_json(None).unwrap();
    assert_eq!(vs.len(), 0);
}

#[test]
fn load_from_json_propagates_parse_error() {
    assert!(matches!(load_from_json(Some("not json")), Err(StoreError::Parse)));
}
