use clippy_history::history::{
    entry_for_new_text, get_entry, get_entry_text, remember_entry, remove_entries_with_id,
    toggle_pinned_in, MAX_HISTORY,
};
use clippy_history::models::{ClipboardEntry, EntryKind};
use clippy_history::row::{entry_to_row, StoredRow};
use clippy_history::table::load_all;

fn text(id: i64, t: &str) -> ClipboardEntry {
    ClipboardEntry { id, kind: EntryKind::Text(t.to_string()), timestamp: id, pinned: false }
}

#[test]
fn blank_text_is_not_stored() {
    assert!(entry_for_new_text("  \n\t", &vec![], 5).is_none());
    assert!(entry_for_new_text("", &vec![], 5).is_none());
}

#[test]
fn repeat_of_newest_text_is_not_stored() {
    let h = vec![text(2, "same"), text(1, "older")];
    assert!(entry_for_new_text("same", &h, 5).is_none());
    let e = entry_for_new_text("older", &h, 5).unwrap();
    assert!(e == ClipboardEntry { id: 0, kind: EntryKind::Text("older".into()), timestamp: 5, pinned: false });
}

#[test]
fn newest_link_does_not_block_same_text() {
    let h = vec![ClipboardEntry { id: 1, kind: EntryKind::Link("u".into()), timestamp: 1, pinned: false }];
    assert!(entry_for_new_text("u", &h, 5).is_some());
}

#[test]
fn storing_then_offering_again_is_refused() {
    let mut h = vec![text(1, "a")];
    let e = entry_for_new_text("b", &h, 9).unwrap();
    remember_entry(&mut h, e);
    assert!(entry_for_new_text("b", &h, 10).is_none());
}

#[test]
fn history_is_capped() {
    let mut h: Vec<ClipboardEntry> = (0..MAX_HISTORY as i64).map(|i| text(i, "x")).collect();
    remember_entry(&mut h, text(-1, "new"));
    assert_eq!(h.len(), MAX_HISTORY);
    assert_eq!(h[0].id, -1);
    assert_eq!(h[MAX_HISTORY - 1].id, MAX_HISTORY as i64 - 2);
}

#[test]
fn toggle_and_remove_by_id() {
    let mut h = vec![text(1, "a"), text(2, "b"), text(2, "c")];
    assert_eq!(toggle_pinned_in(&mut h, 2), Some(true));
    assert!(h[1].pinned && !h[2].pinned && !h[0].pinned);
    assert_eq!(toggle_pinned_in(&mut h, 2), Some(false));
    assert_eq!(toggle_pinned_in(&mut h, 3), None);
    remove_entries_with_id(&mut h, 2);
    assert_eq!(h.len(), 1);
    assert_eq!(h[0].id, 1);
}

#[test]
fn entry_text_and_copy() {
    let h = vec![
        text(1, "a"),
        ClipboardEntry { id: 2, kind: EntryKind::Image { bytes: vec![], width: 0, height: 0 }, timestamp: 2, pinned: false },
        ClipboardEntry { id: 3, kind: EntryKind::FilePath("/f".into()), timestamp: 3, pinned: true },
    ];
    assert_eq!(get_entry_text(1, &h), "a");
    assert_eq!(get_entry_text(2, &h), "");
    assert_eq!(get_entry_text(3, &h), "/f");
    assert_eq!(get_entry_text(4, &h), "");
    assert!(get_entry(3, &h).unwrap() == h[2]);
    assert!(get_entry(9, &h).is_none());
}

#[test]
fn the_daemon_does_not_store_a_text_twice() {
    let stored = |e: &ClipboardEntry, id: i64| {
        let r = entry_to_row(e, id, "/i");
        StoredRow {
            id, kind: r.kind, content: r.content, mime_type: r.mime_type, image_path: r.image_path,
            created_at: r.created_at, pinned: r.pinned, image_file: None,
        }
    };
    let mut rows = vec![stored(&text(0, "old"), 1)];
    let e = entry_for_new_text("copied", &load_all(&rows), 100).unwrap();
    rows.push(stored(&e, 2));
    let h = load_all(&rows);
    assert!(h[0] == ClipboardEntry { id: 2, kind: EntryKind::Text("copied".into()), timestamp: 100, pinned: false });
    assert!(entry_for_new_text("copied", &h, 101).is_none());
}
