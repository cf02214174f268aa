use base64::Engine;
use dabroke::b64::decode_base64;
use dabroke::errors::StoreError;
use dabroke::naming::{pick_filename, timestamped_name};

#[test]
fn timestamp_is_spliced_before_the_extension() {
    assert_eq!(timestamped_name("clip.wav", 1700000000), "clip_1700000000.wav");
    assert_eq!(timestamped_name("a.b.c.ogg", 7), "a.b.c_7.ogg");
}

#[test]
fn name_without_dot_gets_default_mp3_extension() {
    assert_eq!(timestamped_name("clip", 5), "clip_5.mp3");
    assert_eq!(timestamped_name("", 12), "_12.mp3");
    assert_eq!(timestamped_name("a", 0), "a_0.mp3");
}

#[test]
fn timestamp_digits_render_exactly() {
    assert_eq!(timestamped_name("a", u64::MAX), format!("a_{}.mp3", u64::MAX));
    assert_eq!(timestamped_name("x.y", 1023), "x_1023.y");
}

#[test]
fn leading_dot_name_keeps_its_extension() {
    assert_eq!(timestamped_name(".wav", 3), "_3.wav");
}

#[test]
fn no_collision_keeps_the_timestamped_name() {
    let existing: Vec<String> = vec!["other.wav".to_string()];
    assert_eq!(pick_filename("clip.wav", 7, &existing), "clip_7.wav");
}

#[test]
fn collision_appends_counter_to_the_timestamped_name() {
    let existing = vec!["clip_7.wav".to_string()];
    assert_eq!(pick_filename("clip.wav", 7, &existing), "clip_7_1.wav");
    let existing2 = vec!["clip_7.wav".to_string(), "clip_7_1.wav".to_string()];
    assert_eq!(pick_filename("clip.wav", 7, &existing2), "clip_7_2.wav");
    let existing3 = vec![
        "clip_7.wav".to_string(),
        "clip_7_1.wav".to_string(),
        "clip_7_2.wav".to_string(),
    ];
    assert_eq!(pick_filename("clip.wav", 7, &existing3), "clip_7_3.wav");
}

#[test]
fn collision_counter_on_default_extension() {
    let existing = vec!["clip_5.mp3".to_string()];
    assert_eq!(pick_filename("clip", 5, &existing), "clip_5_1.mp3");
}

#[test]
fn base64_round_trip_recovers_the_bytes() {
    let bytes: Vec<u8> = vec![0u8, 1, 2, 250, 251, 252, 253, 254, 255, 73, 68, 51];
    let encoded = base64::engine::general_purpose::STANDARD.encode(&bytes);
    let decoded = decode_base64(&encoded).unwrap();
    assert_eq!(decoded, bytes);
}

#[test]
fn base64_known_value_decodes() {
    let decoded = decode_base64("aGVsbG8=").unwrap();
    assert_eq!(decoded, b"hello".to_vec());
    let empty = decode_base64("").unwrap();
    assert_eq!(empty.len(), 0);
}

#[test]
fn malformed_base64_is_a_decode_error() {
    assert!(matches!(decode_base64("!!!"), Err(StoreError::Decode)));
    // the standard engine requires canonical padding
    assert!(matches!(decode_base64("aGk"), Err(StoreError::Decode)));
    let e = decode_base64("????").unwrap_err();
    assert_eq!(e.message(), "Failed to decode base64");
}
