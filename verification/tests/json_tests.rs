use image_gallery::json::{parse_images, serialize_images};
use image_gallery::record::ImageMeta;

fn rec(path: &str, title: &str, description: &str) -> ImageMeta {
    ImageMeta {
        path: path.to_string(),
        title: title.to_string(),
        description: description.to_string(),
    }
}

#[test]
fn empty_list_serializes_as_empty_array() {
    assert_eq!(serialize_images(&Vec::new()), "[]");
}

#[test]
fn one_record_pretty_printed() {
    let json = serialize_images(&vec![rec("/uploads/a.jpg", "hello", "world")]);
    let expected = "[\n  {\n    \"path\": \"/uploads/a.jpg\",\n    \"title\": \"hello\",\n    \"description\": \"world\"\n  }\n]";
    assert_eq!(json, expected);
}

#[test]
fn escapes_quotes_backslashes_and_controls() {
    let json = serialize_images(&vec![rec("/uploads/a.jpg", "say \"hi\"", "a\\b\nc\td")]);
    assert!(json.contains("say \\\"hi\\\""));
    assert!(json.contains("a\\\\b\\u000ac\\u0009d"));
}

#[test]
fn parse_inverts_serialize() {
    let list = vec![
        rec("/uploads/a.jpg", "plain", "text"),
        rec("/uploads/b.png", "with \"quotes\" and \\slashes\\", "ctrl\u{01}\u{1f}\n"),
        rec("", "", ""),
        rec("/uploads/c.gif", "unicode \u{e9}\u{4e16}\u{754c}", "emoji \u{1f600}"),
    ];
    let json = serialize_images(&list);
    let back = parse_images(&json).expect("canonical serialization must parse");
    assert_eq!(back.len(), list.len());
    for (a, b) in back.iter().zip(list.iter()) {
        assert_eq!(a.path, b.path);
        assert_eq!(a.title, b.title);
        assert_eq!(a.description, b.description);
    }
}

#[test]
fn parse_rejects_malformed_text() {
    assert!(parse_images("").is_none());
    assert!(parse_images("[").is_none());
    assert!(parse_images("{}").is_none());
    // a record missing its title and description members
    assert!(parse_images("[\n  {\n    \"path\": \"x\"\n  }\n]").is_none());
    // a raw control character inside a string
    assert!(
        parse_images("[{\"path\": \"a\u{01}b\", \"title\": \"\", \"description\": \"\"}]")
            .is_none()
    );
    // trailing text behind the array
    assert!(parse_images("[] x").is_none());
}

#[test]
fn parse_accepts_compact_json() {
    let l = parse_images("[{\"path\":\"/uploads/a.jpg\",\"title\":\"t\",\"description\":\"d\"}]")
        .expect("compact form must parse");
    assert_eq!(l.len(), 1);
    assert_eq!(l[0].path, "/uploads/a.jpg");
    assert_eq!(l[0].title, "t");
    assert_eq!(l[0].description, "d");
}

#[test]
fn parse_accepts_short_escapes_and_free_whitespace() {
    let text = "[ {\n\t\"path\" : \"a\\\\b\",\n\t\"title\" : \"line\\nbreak\\ttab\",\n\t\"description\" : \"quote \\\" slash \\/\"\n} ]\n";
    let l = parse_images(text).expect("lenient form must parse");
    assert_eq!(l[0].path, "a\\b");
    assert_eq!(l[0].title, "line\nbreak\ttab");
    assert_eq!(l[0].description, "quote \" slash /");
}

#[test]
fn parse_accepts_empty_array_with_whitespace() {
    assert_eq!(parse_images(" [ ] ").expect("must parse").len(), 0);
}

#[test]
fn parse_reads_a_file_another_json_writer_wrote() {
    // A backing file as serde_json's pretty printer writes it for these
    // records: same layout, but control characters as short escapes.
    let text = "[\n  {\n    \"path\": \"/uploads/a.jpg\",\n    \"title\": \"tab\\there\",\n    \"description\": \"line\\nbreak\"\n  }\n]";
    let value: serde_json::Value = serde_json::from_str(text).expect("baseline is valid JSON");
    assert_eq!(value[0]["title"], serde_json::Value::String("tab\there".to_string()));
    let l = parse_images(text).expect("another writer's file must load");
    assert_eq!(l.len(), 1);
    assert_eq!(l[0].path, "/uploads/a.jpg");
    assert_eq!(l[0].title, "tab\there");
    assert_eq!(l[0].description, "line\nbreak");
}

#[test]
fn serialized_output_is_valid_json() {
    let list = vec![rec("/uploads/a.jpg", "quote \" here", "line\nbreak")];
    let json = serialize_images(&list);
    let value: serde_json::Value = serde_json::from_str(&json).expect("output must be JSON");
    let arr = value.as_array().expect("an array");
    assert_eq!(arr.len(), 1);
    assert_eq!(arr[0]["path"], serde_json::Value::String("/uploads/a.jpg".to_string()));
    assert_eq!(arr[0]["title"], serde_json::Value::String("quote \" here".to_string()));
    assert_eq!(arr[0]["description"], serde_json::Value::String("line\nbreak".to_string()));
}
