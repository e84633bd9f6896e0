use image_gallery::record::ImageMeta;
use image_gallery::store::{load_images, ImageStore};

fn rec(path: &str, title: &str, description: &str) -> ImageMeta {
    ImageMeta {
        path: path.to_string(),
        title: title.to_string(),
        description: description.to_string(),
    }
}

fn assert_rec_eq(a: &ImageMeta, b: &ImageMeta) {
    assert_eq!(a.path, b.path);
    assert_eq!(a.title, b.title);
    assert_eq!(a.description, b.description);
}

#[test]
fn append_then_snapshot_has_record_last() {
    let mut store = ImageStore::new();
    store.append(rec("/uploads/a.jpg", "first", "one"));
    store.append(rec("/uploads/b.png", "second", "two"));
    let snap = store.snapshot();
    assert_eq!(snap.len(), 2);
    assert_rec_eq(&snap[1], &rec("/uploads/b.png", "second", "two"));
    assert_rec_eq(&snap[0], &rec("/uploads/a.jpg", "first", "one"));
}

#[test]
fn round_trip_through_backing_file() {
    let mut store = ImageStore::new();
    store.append(rec("/uploads/a.jpg", "with \"quotes\"", "line\nbreak"));
    let json = store.append(rec("/uploads/b.png", "back\\slash", "tab\there"));
    // A restart: the loader sees exactly what the store last wrote.
    let reloaded = load_images(Some(&json));
    let snap = store.snapshot();
    assert_eq!(reloaded.len(), snap.len());
    for (a, b) in reloaded.iter().zip(snap.iter()) {
        assert_rec_eq(a, b);
    }
}

#[test]
fn snapshot_is_idempotent() {
    let mut store = ImageStore::new();
    store.append(rec("/uploads/a.jpg", "t", "d"));
    let s1 = store.snapshot();
    let s2 = store.snapshot();
    assert_eq!(s1.len(), s2.len());
    for (a, b) in s1.iter().zip(s2.iter()) {
        assert_rec_eq(a, b);
    }
}

#[test]
fn serialized_appends_lose_no_update() {
    let mut store = ImageStore::new();
    let n = 16;
    for i in 0..n {
        store.append(rec(
            &format!("/uploads/{}.jpg", i),
            &format!("title {}", i),
            "",
        ));
    }
    let snap = store.snapshot();
    assert_eq!(snap.len(), n);
    for (i, r) in snap.iter().enumerate() {
        assert_eq!(r.path, format!("/uploads/{}.jpg", i));
    }
}

#[test]
fn replace_with_empty_clears_store_and_file() {
    let mut store = ImageStore::new();
    store.append(rec("/uploads/a.jpg", "t", "d"));
    let json = store.replace(Vec::new());
    assert_eq!(store.snapshot().len(), 0);
    assert_eq!(json, "[]");
}

#[test]
fn replace_swaps_whole_list() {
    let mut store = ImageStore::new();
    store.append(rec("/uploads/old.jpg", "old", ""));
    let json = store.replace(vec![
        rec("/uploads/x.jpg", "x", "1"),
        rec("/uploads/y.jpg", "y", "2"),
    ]);
    let snap = store.snapshot();
    assert_eq!(snap.len(), 2);
    assert_eq!(snap[0].path, "/uploads/x.jpg");
    assert_eq!(snap[1].path, "/uploads/y.jpg");
    let reloaded = load_images(Some(&json));
    assert_eq!(reloaded.len(), 2);
    assert_eq!(reloaded[1].title, "y");
}

#[test]
fn load_missing_file_gives_empty_list() {
    assert_eq!(load_images(None).len(), 0);
}

#[test]
fn load_malformed_contents_gives_empty_list() {
    assert_eq!(load_images(Some("not json at all")).len(), 0);
    assert_eq!(load_images(Some("[{\"path\": 3}]")).len(), 0);
    assert_eq!(load_images(Some("")).len(), 0);
}

#[test]
fn load_empty_array_gives_empty_list() {
    assert_eq!(load_images(Some("[]")).len(), 0);
}
