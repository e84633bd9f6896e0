use image_gallery::upload::{extension_of, plan_upload, UploadError, UploadPart};

fn part(name: &str, filename: Option<&str>, data: &[u8]) -> UploadPart {
    UploadPart {
        name: name.to_string(),
        filename: filename.map(|f| f.to_string()),
        data: data.to_vec(),
    }
}

#[test]
fn upload_without_file_part_is_rejected() {
    let parts = vec![
        part("title", None, b"a title"),
        part("description", None, b"a description"),
    ];
    let r = plan_upload(parts);
    assert!(matches!(r, Err(UploadError::MissingFile)));
}

#[test]
fn upload_with_no_parts_is_rejected() {
    assert!(matches!(plan_upload(Vec::new()), Err(UploadError::MissingFile)));
}

#[test]
fn upload_with_file_part_builds_record() {
    let parts = vec![
        part("file", Some("photo.png"), b"pngbytes"),
        part("title", None, b"my title"),
        part("description", None, b"my description"),
    ];
    let plan = plan_upload(parts).expect("file part present");
    assert!(plan.file_name.ends_with(".png"));
    // a 36-character token, a dot, the extension
    assert_eq!(plan.file_name.len(), 36 + 1 + 3);
    assert_eq!(plan.record.path, format!("/uploads/{}", plan.file_name));
    assert_eq!(plan.record.title, "my title");
    assert_eq!(plan.record.description, "my description");
    assert_eq!(plan.file_data, b"pngbytes".to_vec());
}

#[test]
fn missing_filename_defaults_to_jpg() {
    let parts = vec![part("file", None, b"bytes")];
    let plan = plan_upload(parts).expect("file part present");
    assert!(plan.record.path.ends_with(".jpg"));
    assert_eq!(plan.record.title, "");
    assert_eq!(plan.record.description, "");
}

#[test]
fn extensionless_filename_defaults_to_jpg() {
    let parts = vec![part("file", Some("photo"), b"bytes")];
    let plan = plan_upload(parts).expect("file part present");
    assert!(plan.record.path.ends_with(".jpg"));
}

#[test]
fn hidden_file_name_defaults_to_jpg() {
    let parts = vec![part("file", Some(".gitignore"), b"bytes")];
    let plan = plan_upload(parts).expect("file part present");
    assert!(plan.record.path.ends_with(".jpg"));
}

#[test]
fn extension_of_picks_last_dot_of_base_name() {
    assert_eq!(extension_of(&Some("photo.png".to_string())), "png");
    assert_eq!(extension_of(&Some("archive.tar.gz".to_string())), "gz");
    assert_eq!(extension_of(&Some("dir/photo.webp".to_string())), "webp");
    assert_eq!(extension_of(&Some("di.r/photo".to_string())), "jpg");
    assert_eq!(extension_of(&Some("photo".to_string())), "jpg");
    assert_eq!(extension_of(&Some(".gitignore".to_string())), "jpg");
    assert_eq!(extension_of(&Some("trailing.".to_string())), "");
    assert_eq!(extension_of(&Some("..".to_string())), "jpg");
    assert_eq!(extension_of(&Some("dir/..".to_string())), "jpg");
    assert_eq!(extension_of(&None), "jpg");
}

#[test]
fn unknown_parts_are_ignored_and_later_fields_win() {
    let parts = vec![
        part("title", None, b"first"),
        part("bogus", None, b"junk"),
        part("file", Some("a.gif"), b"g1"),
        part("title", None, b"second"),
        part("file", Some("b.bmp"), b"g2"),
    ];
    let plan = plan_upload(parts).expect("file part present");
    assert_eq!(plan.record.title, "second");
    assert!(plan.file_name.ends_with(".bmp"));
    assert_eq!(plan.file_data, b"g2".to_vec());
}

#[test]
fn undecodable_text_field_becomes_empty() {
    let parts = vec![
        part("file", Some("a.jpg"), b"bytes"),
        part("title", None, &[0xff, 0xfe, 0x80]),
        part("description", None, b"ok"),
    ];
    let plan = plan_upload(parts).expect("file part present");
    assert_eq!(plan.record.title, "");
    assert_eq!(plan.record.description, "ok");
}

#[test]
fn token_is_fresh_per_upload() {
    let one = plan_upload(vec![part("file", Some("a.jpg"), b"x")]).expect("file");
    let two = plan_upload(vec![part("file", Some("a.jpg"), b"x")]).expect("file");
    assert_ne!(one.file_name, two.file_name);
}
