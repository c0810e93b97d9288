use clippy_history::actions::{
    file_uris, format_timestamp, plan_action, show_items_args, ActionPlan, ClipboardContent,
    EntryAction,
};
use clippy_history::listing::{
    entry_id_from_row_name, row_matches_search, row_widget_name, tooltip_matches_search, Tab,
};
use clippy_history::models::{ClipboardEntry, EntryKind};

fn e(id: i64, kind: EntryKind, pinned: bool) -> ClipboardEntry {
    ClipboardEntry { id, kind, timestamp: id, pinned }
}

fn history() -> Vec<ClipboardEntry> {
    vec![
        e(1, EntryKind::Text("hello".into()), false),
        e(2, EntryKind::Image { bytes: vec![1], width: 1, height: 1 }, true),
        e(3, EntryKind::Link("https://x.org".into()), false),
        e(4, EntryKind::FilePath("/a/b\r\n\n/c\r".into()), true),
    ]
}

#[test]
fn timestamps_are_relative() {
    assert_eq!(format_timestamp(100, 100), "Just now");
    assert_eq!(format_timestamp(100, 159), "Just now");
    assert_eq!(format_timestamp(200, 100), "Just now");
    assert_eq!(format_timestamp(0, 60), "1m ago");
    assert_eq!(format_timestamp(0, 3599), "59m ago");
    assert_eq!(format_timestamp(0, 7200), "2h ago");
    assert_eq!(format_timestamp(0, 86400 * 3), "3d ago");
    assert_eq!(format_timestamp(0, 86400 * 30), "30d ago");
}

#[test]
fn file_locations_are_non_empty_lines() {
    assert_eq!(file_uris("/a/b\r\n\n/c\r"), vec!["/a/b".to_string(), "/c".to_string()]);
    assert!(file_uris("").is_empty());
    assert!(file_uris("\n\r\n").is_empty());
    assert_eq!(file_uris("x\ny\n"), vec!["x".to_string(), "y".to_string()]);
}

#[test]
fn show_items_call() {
    let args = show_items_args("/a/b");
    assert_eq!(args.len(), 7);
    assert_eq!(args[1], "--dest=org.freedesktop.FileManager1");
    assert_eq!(args[5], "array:string:/a/b");
    assert_eq!(args[6], "string:");
}

#[test]
fn tabs_filter_by_kind_and_pin() {
    let h = history();
    let ids = |t: Tab| t.entries(&h).iter().map(|e| e.id).collect::<Vec<_>>();
    assert_eq!(ids(Tab::All), vec![1, 2, 3, 4]);
    assert_eq!(ids(Tab::Text), vec![1]);
    assert_eq!(ids(Tab::Images), vec![2]);
    assert_eq!(ids(Tab::Links), vec![3]);
    assert_eq!(ids(Tab::Files), vec![4]);
    assert_eq!(ids(Tab::Pinned), vec![2, 4]);
    let names: Vec<&str> = Tab::all_tabs().iter().map(|t| t.name()).collect();
    assert_eq!(names, vec!["all", "text", "images", "links", "files", "pinned"]);
}

#[test]
fn row_names_carry_id_and_text() {
    let h = history();
    assert_eq!(row_widget_name(&h[0]), "1|hello");
    assert_eq!(row_widget_name(&h[1]), "2|");
    let neg = e(-42, EntryKind::Text("a|b".into()), false);
    let name = row_widget_name(&neg);
    assert_eq!(entry_id_from_row_name(&name), Some(-42));
    assert_eq!(entry_id_from_row_name("12"), None);
    assert_eq!(entry_id_from_row_name("x|y"), None);
}

#[test]
fn search_filter_is_case_insensitive() {
    assert!(row_matches_search("1|Hello World", "WORLD"));
    assert!(row_matches_search("1|Hello", ""));
    assert!(!row_matches_search("2|", "a"));
    assert!(!row_matches_search("noname", "a"));
    assert!(!row_matches_search("1|abc", "abd"));
    assert!(tooltip_matches_search("Straße", "STRASSE") == "straße".contains("strasse"));
    assert!(tooltip_matches_search("ÉTÉ", "été"));
    assert!(tooltip_matches_search("", ""));
    assert!(!tooltip_matches_search("", "a"));
}

#[test]
fn paste_plans() {
    let h = history();
    match plan_action(EntryAction::Paste(1), &h) {
        ActionPlan::Paste(Some(ClipboardContent::Text(t))) => assert_eq!(t, "hello"),
        _ => panic!(),
    }
    match plan_action(EntryAction::Paste(2), &h) {
        ActionPlan::Paste(Some(ClipboardContent::Image(id))) => assert_eq!(id, 2),
        _ => panic!(),
    }
    match plan_action(EntryAction::Paste(4), &h) {
        ActionPlan::Paste(Some(ClipboardContent::Files { uri_list, gnome_copied_files })) => {
            assert_eq!(uri_list, "/a/b\r\n\n/c\r");
            assert_eq!(gnome_copied_files, "copy\n/a/b\r\n\n/c\r");
        }
        _ => panic!(),
    }
    assert!(matches!(plan_action(EntryAction::Paste(9), &h), ActionPlan::Paste(None)));
}

#[test]
fn other_plans() {
    let h = history();
    assert!(matches!(plan_action(EntryAction::TogglePin(3), &h), ActionPlan::TogglePin(3)));
    assert!(matches!(plan_action(EntryAction::Delete(1), &h), ActionPlan::Delete(1)));
    match plan_action(EntryAction::Copy(3), &h) {
        ActionPlan::Copy(t) => assert_eq!(t, "https://x.org"),
        _ => panic!(),
    }
    match plan_action(EntryAction::OpenInBrowser(3), &h) {
        ActionPlan::OpenUri(u) => assert_eq!(u, "https://x.org"),
        _ => panic!(),
    }
    assert!(matches!(plan_action(EntryAction::OpenInBrowser(1), &h), ActionPlan::Nothing));
    match plan_action(EntryAction::OpenInFiles(4), &h) {
        ActionPlan::ShowInFiles(Some(args)) => assert_eq!(args[5], "array:string:/a/b"),
        _ => panic!(),
    }
    let only_blank = vec![e(5, EntryKind::FilePath("\n".into()), false)];
    assert!(matches!(plan_action(EntryAction::OpenInFiles(5), &only_blank), ActionPlan::ShowInFiles(None)));
    assert!(matches!(plan_action(EntryAction::OpenInFiles(3), &h), ActionPlan::Nothing));
}

#[test]
fn image_rows_are_hidden_by_any_query() {
    let img = e(7, EntryKind::Image { bytes: vec![], width: 1, height: 1 }, false);
    let name = row_widget_name(&img);
    assert_eq!(name, "7|");
    assert!(row_matches_search(&name, ""));
    assert!(!row_matches_search(&name, "7"));
    let txt = e(8, EntryKind::Text("Abc".into()), false);
    assert!(row_matches_search(&row_widget_name(&txt), "aBC"));
}

#[test]
fn page_titles_and_icons() {
    assert_eq!(Tab::All.title(), "All");
    assert_eq!(Tab::Files.title(), "Files");
    assert_eq!(Tab::Files.icons(), ("folder-symbolic", "network-wireless-hotspot-symbolic"));
    assert_eq!(Tab::Text.icons(), ("view-list-symbolic", "text-x-generic"));
    assert_eq!(Tab::Pinned.icons(), ("starred-symbolic", "starred-symbolic"));
}
