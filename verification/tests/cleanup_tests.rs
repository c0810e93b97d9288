use clippy_history::cleanup::{
    cleanup_settings, get_setting, overflow_removals, prune_old, run_cleanup, CleanupSettings,
    Removal, IS_PRUNE_OLD_ACTIVE, MAX_ENTRIES_NUMBER, PRUNE_OLD_TIME_SECS,
};
use clippy_history::row::StoredRow;

fn row(id: i64, created_at: i64, pinned: i64) -> StoredRow {
    StoredRow {
        id,
        kind: "text".into(),
        content: vec![b'x'],
        mime_type: None,
        image_path: if id % 2 == 0 { Some(format!("/img/{id}.png")) } else { None },
        created_at,
        pinned,
        image_file: None,
    }
}

fn ids(rs: &[Removal]) -> Vec<i64> {
    rs.iter().map(|r| r.id).collect()
}

#[test]
fn defaults() {
    assert_eq!(MAX_ENTRIES_NUMBER, 30);
    assert_eq!(PRUNE_OLD_TIME_SECS, 604800);
    assert!(IS_PRUNE_OLD_ACTIVE);
    let s = cleanup_settings(None, None, None);
    assert_eq!((s.max_entries, s.is_prune_active, s.prune_time_secs), (30, true, 604800));
}

#[test]
fn settings_parse_or_fall_back() {
    let s = cleanup_settings(Some("5"), Some("false"), Some("60"));
    assert_eq!((s.max_entries, s.is_prune_active, s.prune_time_secs), (5, false, 60));
    let s = cleanup_settings(Some("many"), Some("no"), Some(""));
    assert_eq!((s.max_entries, s.is_prune_active, s.prune_time_secs), (30, true, 604800));
    assert_eq!(get_setting(Some("x"), "d"), "x");
    assert_eq!(get_setting(None, "d"), "d");
}

#[test]
fn overflow_keeps_newest_unpinned() {
    let rows = vec![row(1, 10, 0), row(2, 50, 0), row(3, 40, 1), row(4, 30, 0), row(5, 20, 0)];
    let rs = overflow_removals(&rows, 2);
    assert_eq!(ids(&rs), vec![5, 1]);
    assert_eq!(rs[0].image_path, None);
    let rs = overflow_removals(&rows, 1);
    assert_eq!(ids(&rs), vec![4, 5, 1]);
    assert_eq!(rs[0].image_path.as_deref(), Some("/img/4.png"));
    assert!(overflow_removals(&rows, 4).is_empty());
    assert_eq!(ids(&overflow_removals(&rows, -1)), vec![2, 4, 5, 1]);
    assert_eq!(ids(&overflow_removals(&rows, 0)), vec![2, 4, 5, 1]);
}

#[test]
fn prune_removes_old_unpinned_in_table_order() {
    let rows = vec![row(1, 10, 0), row(2, 5, 1), row(3, 99, 0), row(4, 1, 0)];
    assert_eq!(ids(&prune_old(&rows, 50, &vec![])), vec![1, 4]);
    let already = vec![Removal { id: 4, image_path: None }];
    assert_eq!(ids(&prune_old(&rows, 50, &already)), vec![1]);
}

#[test]
fn cleanup_first_overflow_then_prune() {
    let rows = vec![row(1, 100, 0), row(2, 900, 0), row(3, 10, 1), row(4, 800, 0), row(5, 700, 0)];
    let settings = CleanupSettings { max_entries: 2, is_prune_active: true, prune_time_secs: 150 };
    // Overflow removes 5 and 1 (beyond the two newest unpinned); then the
    // unpinned rows left that are older than 1000 - 150 = 850 go: row 4.
    assert_eq!(ids(&run_cleanup(&rows, &settings, 1000)), vec![5, 1, 4]);
    let off = CleanupSettings { max_entries: 2, is_prune_active: false, prune_time_secs: 150 };
    assert_eq!(ids(&run_cleanup(&rows, &off, 1000)), vec![5, 1]);
}

#[test]
fn cleanup_never_removes_pinned() {
    let rows: Vec<StoredRow> = (0..50).map(|i| row(i, i, (i % 3 == 0) as i64)).collect();
    let settings = CleanupSettings { max_entries: 0, is_prune_active: true, prune_time_secs: 0 };
    let removed = ids(&run_cleanup(&rows, &settings, 1_000));
    for r in &rows {
        assert_eq!(removed.contains(&r.id), r.pinned == 0, "row {}", r.id);
    }
}
