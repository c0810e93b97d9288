use clippy_history::like::{like, sqlite_text_of};
use clippy_history::models::EntryKind;
use clippy_history::row::StoredRow;
use clippy_history::table::{
    delete, get_image_bytes, is_text_exists, load_all, load_pinned, search, toggle_pin,
    LIKE_PATTERN_LIMIT, SEARCH_LIMIT,
};

fn row(id: i64, kind: &str, content: &str, created_at: i64, pinned: i64) -> StoredRow {
    StoredRow {
        id,
        kind: kind.to_string(),
        content: content.as_bytes().to_vec(),
        mime_type: None,
        image_path: None,
        created_at,
        pinned,
        image_file: None,
    }
}

fn codes(s: &str) -> Vec<u32> {
    s.chars().map(|c| c as u32).collect()
}

fn ids(es: &[clippy_history::models::ClipboardEntry]) -> Vec<i64> {
    es.iter().map(|e| e.id).collect()
}

#[test]
fn like_wildcards_and_ascii_case() {
    let m = |p: &str, s: &str| like(&codes(p), &codes(s));
    assert!(m("%abc%", "xxABCyy"));
    assert!(m("a_c", "abc"));
    assert!(!m("a_c", "ac"));
    assert!(m("a%", "a"));
    assert!(m("%", ""));
    assert!(!m("", "x"));
    assert!(!m("%É%", "é"));
    assert!(m("%%", "anything"));
    assert!(!m("abc", "abcd"));
}

#[test]
fn load_all_is_newest_first_with_ties_in_table_order() {
    let rows = vec![
        row(1, "text", "a", 10, 0),
        row(2, "text", "b", 30, 0),
        row(3, "video", "c", 20, 0),
        row(4, "link", "d", 30, 1),
        row(5, "file", "e", 5, 0),
    ];
    assert_eq!(ids(&load_all(&rows)), vec![2, 4, 1, 5]);
}

#[test]
fn load_pinned_keeps_pinned_one() {
    let rows = vec![
        row(1, "text", "a", 10, 1),
        row(2, "text", "b", 30, 0),
        row(3, "text", "c", 20, 1),
        row(4, "text", "d", 40, 2),
    ];
    assert_eq!(ids(&load_pinned(&rows)), vec![3, 1]);
}

#[test]
fn search_matches_content_and_skips_images() {
    let rows = vec![
        row(1, "text", "Hello World", 10, 0),
        row(2, "image", "hello", 30, 0),
        row(3, "link", "https://hello.example", 20, 0),
        row(4, "text", "bye", 40, 0),
    ];
    assert_eq!(ids(&search(&rows, "hello")), vec![3, 1]);
    assert_eq!(ids(&search(&rows, "")), vec![4, 3, 1]);
    assert_eq!(ids(&search(&rows, "h_llo")), vec![3, 1]);
}

#[test]
fn search_returns_at_most_limit_newest() {
    let rows: Vec<StoredRow> = (0..150).map(|i| row(i, "text", "same", i, 0)).collect();
    let found = search(&rows, "same");
    assert_eq!(found.len(), SEARCH_LIMIT);
    assert_eq!(found[0].id, 149);
    assert_eq!(found[SEARCH_LIMIT - 1].id, 50);
}

#[test]
fn text_exists_only_for_text_and_links() {
    let rows = vec![row(1, "text", "abc", 1, 0), row(2, "file", "/f", 2, 0), row(3, "link", "u", 3, 0)];
    assert!(is_text_exists(&rows, "abc"));
    assert!(is_text_exists(&rows, "u"));
    assert!(!is_text_exists(&rows, "/f"));
    assert!(!is_text_exists(&rows, "ab"));
}

#[test]
fn toggling_flips_the_stored_flag() {
    let rows = vec![row(1, "text", "a", 1, 0), row(2, "text", "b", 2, 1)];
    assert_eq!(toggle_pin(&rows, 1), Some(true));
    assert_eq!(toggle_pin(&rows, 2), Some(false));
    assert_eq!(toggle_pin(&rows, 3), None);
}

#[test]
fn toggle_twice_restores_the_flag() {
    let mut rows = vec![row(1, "text", "a", 1, 0)];
    let first = toggle_pin(&rows, 1).unwrap();
    rows[0].pinned = first as i64;
    let second = toggle_pin(&rows, 1).unwrap();
    assert!(!second);
}

#[test]
fn delete_names_the_image_file() {
    let mut r = row(5, "image", "", 1, 0);
    r.image_path = Some("/img/5.png".into());
    let rows = vec![row(1, "text", "a", 1, 0), r];
    assert_eq!(delete(&rows, 5), Some("/img/5.png".to_string()));
    assert_eq!(delete(&rows, 1), None);
    assert_eq!(delete(&rows, 9), None);
}

#[test]
fn image_bytes_from_row_or_file() {
    let mut inline = row(1, "image", "", 1, 0);
    inline.content = vec![1, 2, 3];
    let mut on_disk = row(2, "image", "", 2, 0);
    on_disk.image_path = Some("/img/2.png".into());
    on_disk.image_file = Some(vec![9, 9]);
    let mut missing = row(3, "image", "", 3, 0);
    missing.image_path = Some("/img/3.png".into());
    let rows = vec![inline, on_disk, missing, row(4, "text", "t", 4, 0)];
    assert_eq!(get_image_bytes(&rows, 1), Some(vec![1, 2, 3]));
    assert_eq!(get_image_bytes(&rows, 2), Some(vec![9, 9]));
    assert_eq!(get_image_bytes(&rows, 3), Some(vec![]));
    assert_eq!(get_image_bytes(&rows, 4), None);
    match &load_all(&rows)[0].kind {
        EntryKind::Text(t) => assert_eq!(t, "t"),
        _ => panic!("newest is the text"),
    }
}

#[test]
fn search_ignores_ascii_case_and_needs_the_whole_query() {
    let rows = vec![
        row(1, "text", "say HELLO there", 10, 0),
        row(2, "text", "hel lo", 20, 0),
        row(3, "text", "ÉTÉ", 30, 0),
    ];
    assert_eq!(ids(&search(&rows, "hello")), vec![1]);
    assert_eq!(ids(&search(&rows, "HeLLo")), vec![1]);
    // Only ASCII letters are folded.
    assert_eq!(ids(&search(&rows, "été")), Vec::<i64>::new());
    assert_eq!(ids(&search(&rows, "ÉTÉ")), vec![3]);
}

#[test]
fn sqlite_reads_text_bytes() {
    // Valid UTF-8 is read character by character.
    assert_eq!(sqlite_text_of(&"aé€😀".as_bytes().to_vec()), codes("aé€😀"));
    // U+FFFE and U+FFFF are read as U+FFFD.
    assert_eq!(sqlite_text_of(&"\u{FFFE}x\u{FFFF}".as_bytes().to_vec()), vec![0xFFFD, 0x78, 0xFFFD]);
    // A lone continuation byte is read as its own value.
    assert_eq!(sqlite_text_of(&vec![b'a', 0x80, b'b']), vec![0x61, 0x80, 0x62]);
    // A lead byte takes in every continuation byte that follows; an overlong
    // form of an ASCII character reads as U+FFFD.
    assert_eq!(sqlite_text_of(&vec![0xC1, 0x81, b'z']), vec![0xFFFD, 0x7A]);
    assert_eq!(sqlite_text_of(&vec![0xC3]), vec![0xFFFD]);
    // Reading stops at the first zero byte.
    assert_eq!(sqlite_text_of(&vec![b'a', 0, b'b']), vec![0x61]);
    assert_eq!(sqlite_text_of(&vec![]), Vec::<u32>::new());
}

#[test]
fn search_reads_content_as_sqlite_does() {
    let raw = |id: i64, content: Vec<u8>, created_at: i64| StoredRow {
        id, kind: "text".into(), content, mime_type: None, image_path: None, created_at, pinned: 0, image_file: None,
    };
    let rows = vec![
        raw(1, vec![b'a', b'b', 0, b'c', b'd'], 10),
        raw(2, vec![b'x', 0x80, b'y'], 20),
        raw(3, "\u{FFFE}".as_bytes().to_vec(), 30),
    ];
    // Nothing after a zero byte is searched.
    assert_eq!(ids(&search(&rows, "cd")), Vec::<i64>::new());
    assert_eq!(ids(&search(&rows, "ab")), vec![1]);
    // A lone continuation byte reads as U+0080, not as U+FFFD.
    assert_eq!(ids(&search(&rows, "x\u{80}y")), vec![2]);
    assert_eq!(ids(&search(&rows, "x\u{FFFD}y")), Vec::<i64>::new());
    // U+FFFE in the content and in the query are both read as U+FFFD.
    assert_eq!(ids(&search(&rows, "\u{FFFD}")), vec![3]);
    assert_eq!(ids(&search(&rows, "\u{FFFF}")), vec![3]);
    // A zero character in the query ends the pattern there: `%b` is left,
    // which only a text ending in `b` matches.
    assert_eq!(ids(&search(&rows, "b\u{0}zzz")), vec![1]);
    assert_eq!(ids(&search(&rows, "a\u{0}zzz")), Vec::<i64>::new());
}

#[test]
fn too_long_a_pattern_finds_nothing() {
    let rows = vec![row(1, "text", "a", 10, 0)];
    let fits = "%".repeat(LIKE_PATTERN_LIMIT - 2);
    assert_eq!(ids(&search(&rows, &fits)), vec![1]);
    let too_long = "%".repeat(LIKE_PATTERN_LIMIT - 1);
    assert_eq!(ids(&search(&rows, &too_long)), Vec::<i64>::new());
}
