use clippy_history::models::{ClipboardEntry, EntryKind};
use clippy_history::png::png_dimensions;

fn entry(kind: EntryKind) -> ClipboardEntry {
    ClipboardEntry { id: 7, kind, timestamp: 1_700_000_000, pinned: false }
}

#[test]
fn png_dimensions_reads_ihdr() {
    let mut bytes = vec![0x89, b'P', b'N', b'G', 0x0D, 0x0A, 0x1A, 0x0A, 0, 0, 0, 13, b'I', b'H', b'D', b'R'];
    bytes.extend_from_slice(&[0, 0, 0x01, 0x40]); // 320
    bytes.extend_from_slice(&[0, 0, 0x00, 0xF0]); // 240
    assert_eq!(png_dimensions(&bytes), (320, 240));
}

fn header() -> Vec<u8> {
    vec![0x89, b'P', b'N', b'G', 0x0D, 0x0A, 0x1A, 0x0A, 0, 0, 0, 13, b'I', b'H', b'D', b'R']
}

#[test]
fn png_dimensions_short_input_is_zero() {
    assert_eq!(png_dimensions(&[]), (0, 0));
    let mut bytes = header();
    bytes.extend_from_slice(&[0, 0, 1, 0, 0, 0, 1]);
    assert_eq!(png_dimensions(&bytes), (0, 0));
}

#[test]
fn png_dimensions_of_non_png_is_zero() {
    // A JPEG start, then bytes where a PNG would hold its dimensions.
    let mut jpeg = vec![0xFF, 0xD8, 0xFF, 0xE0, 0, 16, b'J', b'F', b'I', b'F', 0, 1, 1, 0, 0, 1];
    jpeg.extend_from_slice(&[0, 0, 1, 0, 0, 0, 1, 0]);
    assert_eq!(png_dimensions(&jpeg), (0, 0));
    let mut no_ihdr = header();
    no_ihdr[12] = b'X';
    no_ihdr.extend_from_slice(&[0, 0, 1, 0, 0, 0, 1, 0]);
    assert_eq!(png_dimensions(&no_ihdr), (0, 0));
}

#[test]
fn png_dimensions_reads_signed_big_endian() {
    let mut bytes = header();
    bytes.extend_from_slice(&[0xFF, 0xFF, 0xFF, 0xFE]);
    bytes.extend_from_slice(&[0x7F, 0xFF, 0xFF, 0xFF]);
    bytes.extend_from_slice(&[1, 2, 3]);
    assert_eq!(png_dimensions(&bytes), (-2, i32::MAX));
}

#[test]
fn preview_of_short_text_is_the_text() {
    let e = entry(EntryKind::Text("hello".to_string()));
    assert_eq!(e.preview(), "hello");
}

#[test]
fn preview_of_long_text_is_cut_with_ellipsis() {
    let text: String = "é".repeat(121);
    let e = entry(EntryKind::Text(text));
    let p = e.preview();
    assert_eq!(p.chars().count(), 121);
    assert_eq!(p, format!("{}…", "é".repeat(120)));
}

#[test]
fn preview_of_exactly_limit_is_not_cut() {
    let text: String = "a".repeat(120);
    let e = entry(EntryKind::Text(text.clone()));
    assert_eq!(e.preview(), text);
}

#[test]
fn preview_of_image_gives_dimensions() {
    let e = entry(EntryKind::Image { bytes: vec![], width: 640, height: -3 });
    assert_eq!(e.preview(), "Image 640x-3");
}

#[test]
fn preview_of_files_and_links_is_unchanged() {
    assert_eq!(entry(EntryKind::FilePath("/a\n/b".to_string())).preview(), "/a\n/b");
    assert_eq!(entry(EntryKind::Link("https://x.org".to_string())).preview(), "https://x.org");
}

#[test]
fn labels_icons_and_badges() {
    let t = entry(EntryKind::Text("t".to_string()));
    let i = entry(EntryKind::Image { bytes: vec![1], width: 1, height: 1 });
    let f = entry(EntryKind::FilePath("/f".to_string()));
    let l = entry(EntryKind::Link("l".to_string()));
    assert_eq!(t.icon_name(), "text-x-generic-symbolic");
    assert_eq!(i.icon_name(), "image-x-generic-symbolic");
    assert_eq!(f.icon_name(), "folder-symbolic");
    assert_eq!(l.icon_name(), "web-browser-symbolic");
    assert_eq!(t.badge_css_class(), "entry-badge-text");
    assert_eq!(i.badge_css_class(), "entry-badge-image");
    assert_eq!(f.badge_css_class(), "entry-badge-file");
    assert_eq!(l.badge_css_class(), "entry-badge-link");
    assert_eq!(t.type_label(), "Text");
    assert_eq!(i.type_label(), "Image");
    assert_eq!(f.type_label(), "File");
    assert_eq!(l.type_label(), "Link");
}

#[test]
fn entries_compare_by_value() {
    let a = entry(EntryKind::Image { bytes: vec![1, 2], width: 3, height: 4 });
    let b = a.duplicate();
    assert!(a == b);
    let c = entry(EntryKind::Image { bytes: vec![1, 3], width: 3, height: 4 });
    assert!(a != c);
    assert!(entry(EntryKind::Text("x".into())) != entry(EntryKind::Link("x".into())));
}
