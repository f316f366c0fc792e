use mixengine::logging::{
    json_note, json_note_at, json_note_from, note_for, text_note, text_note_at, LogFormat,
    NOTE_MESSAGE, NOTE_TARGET,
};

#[test]
fn a_rotation_failure_reads_like_a_text_line() {
    let note = text_note("no space left on device");

    assert!(note.ends_with('\n'), "{note:?}");
    assert_eq!(note.lines().count(), 1, "{note:?}");
    assert!(note.contains("ERROR"), "{note}");
    assert!(note.contains(NOTE_TARGET), "{note}");
    assert!(note.contains(NOTE_MESSAGE), "{note}");
    assert!(note.contains("no space left on device"), "{note}");
    assert!(!note.contains('\u{1b}'), "{note:?}");
}

#[test]
fn the_text_note_has_the_shape_of_every_other_line() {
    assert_eq!(
        text_note_at("2024-01-02T03:04:05.000006Z", "denied"),
        "2024-01-02T03:04:05.000006Z ERROR mixengined::logging: log rotation failed; this file \
         will keep growing error=denied\n"
    );
}

#[test]
fn a_rotation_failure_stays_one_json_object_per_line() {
    let note = json_note("the file is held by another process");

    assert!(note.ends_with('\n'), "{note:?}");
    assert_eq!(note.lines().count(), 1, "{note:?}");

    let parsed: serde_json::Value = serde_json::from_str(&note).unwrap();
    assert_eq!(parsed["level"], "ERROR");
    assert_eq!(parsed["fields"]["message"], NOTE_MESSAGE);
    assert_eq!(
        parsed["fields"]["error"],
        "the file is held by another process"
    );
    assert_eq!(parsed["target"], NOTE_TARGET);
    assert!(parsed["timestamp"].is_string(), "{parsed}");
}

#[test]
fn an_error_with_quotes_and_line_breaks_is_escaped() {
    let note = json_note_at("t", "C:\\home\\\"x\"\nsecond line");
    assert_eq!(note.lines().count(), 1, "{note:?}");
    let parsed: serde_json::Value = serde_json::from_str(&note).unwrap();
    assert_eq!(parsed["fields"]["error"], "C:\\home\\\"x\"\nsecond line");
    assert_eq!(parsed["timestamp"], "t");
}

#[test]
fn the_json_note_is_framed_with_the_keys_in_order() {
    assert_eq!(
        json_note_from("\"t\"", "\"ERROR\"", "\"m\"", "\"e\"", "\"g\""),
        "{\"fields\":{\"error\":\"e\",\"message\":\"m\"},\"level\":\"ERROR\",\"target\":\"g\",\"timestamp\":\"t\"}\n"
    );
}

#[test]
fn the_note_follows_the_format() {
    let text = note_for(LogFormat::Text, "denied");
    assert!(text.contains(" ERROR mixengined::logging: "), "{text}");
    let json = note_for(LogFormat::Json, "denied");
    let parsed: serde_json::Value = serde_json::from_str(&json).unwrap();
    assert_eq!(parsed["fields"]["error"], "denied");
}

#[test]
fn each_character_json_escapes_is_written_as_serde_json_writes_it() {
    let note = json_note_at("t", "a\"b\\c\nd\u{1}e\tf\u{8}\u{c}\r\u{1f}é");
    assert_eq!(
        note,
        "{\"fields\":{\"error\":\"a\\\"b\\\\c\\nd\\u0001e\\tf\\b\\f\\r\\u001fé\",\"message\":\"log \
         rotation failed; this file will keep growing\"},\"level\":\"ERROR\",\"target\":\
         \"mixengined::logging\",\"timestamp\":\"t\"}\n"
    );
}

#[test]
fn the_clock_writes_digits_and_the_date_punctuation() {
    let note = text_note("x");
    let stamp = note.split(' ').next().unwrap();
    assert!(stamp.ends_with('Z'), "{stamp}");
    assert!(
        stamp.chars().all(|c| c.is_ascii_digit() || "+-:.TZ".contains(c)),
        "{stamp}"
    );
}
