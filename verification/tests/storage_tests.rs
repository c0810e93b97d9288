use clippy_history::models::{ClipboardEntry, EntryKind};
use clippy_history::paths::{db_path_in, images_dir_in, join_path, data_dir, db_path, images_dir};
use clippy_history::row::{
    entry_to_row, image_file_name, is_stored_on_disk, next_row_id, row_to_entry, NewRow, StoredRow,
    IMAGE_INLINE_LIMIT_BYTES,
};

fn stored(new: NewRow, id: i64, file: Option<Vec<u8>>) -> StoredRow {
    StoredRow {
        id,
        kind: new.kind,
        content: new.content,
        mime_type: new.mime_type,
        image_path: new.image_path,
        created_at: new.created_at,
        pinned: new.pinned,
        image_file: file,
    }
}

fn png_bytes(w: u8, h: u8, len: usize) -> Vec<u8> {
    let mut b = vec![0u8; len.max(24)];
    b[..16].copy_from_slice(&[0x89, b'P', b'N', b'G', 0x0D, 0x0A, 0x1A, 0x0A, 0, 0, 0, 13, b'I', b'H', b'D', b'R']);
    b[19] = w;
    b[23] = h;
    b
}

#[test]
fn text_entry_row_columns() {
    let e = ClipboardEntry { id: 0, kind: EntryKind::Text("héllo".into()), timestamp: 5, pinned: true };
    let r = entry_to_row(&e, 7, "/data/images");
    assert_eq!(r.kind, "text");
    assert_eq!(r.content, "héllo".as_bytes().to_vec());
    assert_eq!(r.mime_type.as_deref(), Some("text/plain"));
    assert_eq!(r.image_path, None);
    assert_eq!(r.created_at, 5);
    assert_eq!(r.pinned, 1);
}

#[test]
fn link_and_file_rows_are_uri_lists() {
    let l = ClipboardEntry { id: 0, kind: EntryKind::Link("https://a".into()), timestamp: 1, pinned: false };
    let f = ClipboardEntry { id: 0, kind: EntryKind::FilePath("/a\n/b".into()), timestamp: 1, pinned: false };
    let rl = entry_to_row(&l, 1, "/i");
    let rf = entry_to_row(&f, 2, "/i");
    assert_eq!((rl.kind.as_str(), rl.mime_type.as_deref(), rl.pinned), ("link", Some("text/uri-list"), 0));
    assert_eq!((rf.kind.as_str(), rf.mime_type.as_deref()), ("file", Some("text/uri-list")));
}

#[test]
fn each_kind_round_trips_through_its_row() {
    let kinds = vec![
        EntryKind::Text("a\nb ✓".into()),
        EntryKind::Link("https://example.org".into()),
        EntryKind::FilePath("/tmp/x\n/tmp/y".into()),
        EntryKind::Image { bytes: png_bytes(3, 4, 100), width: 3, height: 4 },
    ];
    for kind in kinds {
        let e = ClipboardEntry { id: 0, kind, timestamp: 42, pinned: true };
        let row = stored(entry_to_row(&e, 9, "/img"), 9, None);
        let back = row_to_entry(&row).expect("known kind");
        assert!(back == ClipboardEntry { id: 9, ..e });
    }
}

#[test]
fn large_image_goes_to_a_file_and_comes_back_from_it() {
    let bytes = png_bytes(10, 20, IMAGE_INLINE_LIMIT_BYTES + 1);
    let e = ClipboardEntry { id: 0, kind: EntryKind::Image { bytes: bytes.clone(), width: 10, height: 20 }, timestamp: 3, pinned: false };
    assert!(is_stored_on_disk(&e));
    let row = entry_to_row(&e, 12, "/data/images");
    assert_eq!(row.image_path.as_deref(), Some("/data/images/12.png"));
    assert!(row.content.is_empty());
    assert_eq!(row.mime_type.as_deref(), Some("image/png"));
    let back = row_to_entry(&stored(row, 12, Some(bytes.clone()))).unwrap();
    assert!(back == ClipboardEntry { id: 12, ..e });
}

#[test]
fn image_at_the_limit_stays_inline() {
    let bytes = png_bytes(1, 1, IMAGE_INLINE_LIMIT_BYTES);
    let e = ClipboardEntry { id: 1, kind: EntryKind::Image { bytes: bytes.clone(), width: 1, height: 1 }, timestamp: 3, pinned: false };
    assert!(!is_stored_on_disk(&e));
    let row = entry_to_row(&e, 1, "/i");
    assert_eq!(row.image_path, None);
    assert_eq!(row.content, bytes);
}

#[test]
fn unreadable_image_file_gives_empty_image() {
    let row = StoredRow {
        id: 4, kind: "image".into(), content: vec![], mime_type: Some("image/png".into()),
        image_path: Some("/gone.png".into()), created_at: 1, pinned: 0, image_file: None,
    };
    match row_to_entry(&row).unwrap().kind {
        EntryKind::Image { bytes, width, height } => {
            assert!(bytes.is_empty());
            assert_eq!((width, height), (0, 0));
        }
        _ => panic!("not an image"),
    }
}

#[test]
fn unknown_kind_is_skipped_and_bad_utf8_is_replaced() {
    let mut row = StoredRow {
        id: 4, kind: "video".into(), content: vec![b'a', 0xC3], mime_type: None,
        image_path: None, created_at: 1, pinned: 2, image_file: None,
    };
    assert!(row_to_entry(&row).is_none());
    row.kind = "text".into();
    let e = row_to_entry(&row).unwrap();
    assert!(e.pinned);
    assert!(e.kind == EntryKind::Text("a\u{FFFD}".into()));
}

#[test]
fn image_file_names_and_paths() {
    assert_eq!(image_file_name(-3), "-3.png");
    assert_eq!(join_path("/a/", "b"), "/a/b");
    assert_eq!(join_path("", "b"), "b");
    assert_eq!(db_path_in("/home/u/.local/share/clippy"), "/home/u/.local/share/clippy/history.db");
    assert_eq!(images_dir_in("/d"), "/d/images");
}

#[test]
fn data_dir_is_the_project_directory() {
    if let Some(d) = data_dir() {
        assert!(d.ends_with("clippy"), "{d}");
        assert_eq!(db_path(), Some(format!("{d}/history.db")));
        assert_eq!(images_dir(), Some(format!("{d}/images")));
    }
}

#[test]
fn stored_entry_loads_back() {
    let mut rows = vec![stored(entry_to_row(&ClipboardEntry { id: 0, kind: EntryKind::Text("old".into()), timestamp: 100, pinned: false }, 1, "/i"), 1, None)];
    let e = ClipboardEntry { id: 0, kind: EntryKind::Link("https://new".into()), timestamp: 50, pinned: true };
    rows.push(stored(entry_to_row(&e, 2, "/i"), 2, None));
    let all = clippy_history::table::load_all(&rows);
    assert_eq!(all.len(), 2);
    assert!(all[1] == ClipboardEntry { id: 2, ..e });
    assert!(clippy_history::table::is_text_exists(&rows, "https://new"));
}

#[test]
fn two_fresh_large_images_get_their_own_files() {
    let a = ClipboardEntry { id: 0, kind: EntryKind::Image { bytes: png_bytes(1, 1, IMAGE_INLINE_LIMIT_BYTES + 5), width: 1, height: 1 }, timestamp: 1, pinned: false };
    let b = ClipboardEntry { id: 0, kind: EntryKind::Image { bytes: png_bytes(2, 2, IMAGE_INLINE_LIMIT_BYTES + 9), width: 2, height: 2 }, timestamp: 2, pinned: false };
    let ra = entry_to_row(&a, 1, "/img");
    let rb = entry_to_row(&b, 2, "/img");
    assert_eq!(ra.image_path.as_deref(), Some("/img/1.png"));
    assert_eq!(rb.image_path.as_deref(), Some("/img/2.png"));
}

#[test]
fn next_row_id_follows_the_largest_id() {
    assert_eq!(next_row_id(None, None), Some(1));
    assert_eq!(next_row_id(Some(7), Some(3)), Some(8));
    assert_eq!(next_row_id(Some(2), Some(5)), Some(6));
    assert_eq!(next_row_id(None, Some(4)), Some(5));
    assert_eq!(next_row_id(Some(i64::MAX), None), None);
}

#[test]
fn a_stored_entry_still_loads_after_later_inserts() {
    let first = ClipboardEntry { id: 0, kind: EntryKind::Text("first".into()), timestamp: 10, pinned: false };
    let mut rows = vec![stored(entry_to_row(&first, 1, "/i"), 1, None)];
    for k in 2..5i64 {
        let e = ClipboardEntry { id: 0, kind: EntryKind::Text(format!("later {k}")), timestamp: 10 + k, pinned: false };
        rows.push(stored(entry_to_row(&e, k, "/i"), k, None));
    }
    let all = clippy_history::table::load_all(&rows);
    assert_eq!(all.len(), 4);
    assert!(all.iter().any(|x| *x == ClipboardEntry { id: 1, kind: EntryKind::Text("first".into()), timestamp: 10, pinned: false }));
}

#[test]
fn project_identifiers_are_fixed() {
    assert_eq!(clippy_history::paths::project_identifiers(), ("com", "example", "clippy"));
}
