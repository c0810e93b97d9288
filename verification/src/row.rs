use vstd::prelude::*;
use vstd::utf8::encode_utf8;
use crate::models::{ClipboardEntry, EntryKind, EntryView, KindView, copy_bytes};
use crate::paths::{join_path, path_join};
use crate::png::{png_dimensions, png_dimensions_spec};
use crate::text::{
    decimal, push_decimal, push_str, str_equal, string_of, text_from_utf8, utf8_bytes, utf8_text,
};

verus! {

/// Images larger than this are stored on disk instead of in the row.
pub const IMAGE_INLINE_LIMIT_BYTES: usize = 1024 * 1024;

/// One row of the `clipboard_entries` table, as `SELECT id, kind, content,
/// mime_type, image_path, created_at, pinned` returns it, together with what
/// reading the file at `image_path` gave (`None` when no file was read or
/// the read failed).
pub struct StoredRow {
    pub id: i64,
    pub kind: String,
    pub content: Vec<u8>,
    pub mime_type: Option<String>,
    pub image_path: Option<String>,
    pub created_at: i64,
    pub pinned: i64,
    pub image_file: Option<Vec<u8>>,
}

/// The columns that inserting an entry writes.
pub struct NewRow {
    pub kind: String,
    pub content: Vec<u8>,
    pub mime_type: Option<String>,
    /// Set only for a large image, which the caller writes to this path.
    pub image_path: Option<String>,
    pub created_at: i64,
    pub pinned: i64,
}

/// The mathematical value of a [`StoredRow`].
pub struct RowView {
    pub id: i64,
    pub kind: Seq<char>,
    pub content: Seq<u8>,
    pub image_path: Option<Seq<char>>,
    pub created_at: i64,
    pub pinned: i64,
    pub image_file: Option<Seq<u8>>,
}

/// The mathematical value of a [`NewRow`].
pub struct NewRowView {
    pub kind: Seq<char>,
    pub content: Seq<u8>,
    pub mime_type: Option<Seq<char>>,
    pub image_path: Option<Seq<char>>,
    pub created_at: i64,
    pub pinned: i64,
}

pub open spec fn opt_chars(o: Option<String>) -> Option<Seq<char>> {
    match o {
        Some(s) => Some(s@),
        None => None,
    }
}

pub open spec fn opt_bytes(o: Option<Vec<u8>>) -> Option<Seq<u8>> {
    match o {
        Some(b) => Some(b@),
        None => None,
    }
}

impl View for StoredRow {
    type V = RowView;

    open spec fn view(&self) -> RowView {
        RowView {
            id: self.id,
            kind: self.kind@,
            content: self.content@,
            image_path: opt_chars(self.image_path),
            created_at: self.created_at,
            pinned: self.pinned,
            image_file: opt_bytes(self.image_file),
        }
    }
}

impl View for NewRow {
    type V = NewRowView;

    open spec fn view(&self) -> NewRowView {
        NewRowView {
            kind: self.kind@,
            content: self.content@,
            mime_type: opt_chars(self.mime_type),
            image_path: opt_chars(self.image_path),
            created_at: self.created_at,
            pinned: self.pinned,
        }
    }
}

/// The `kind` column value of each kind of entry.
pub open spec fn kind_tag(kind: KindView) -> Seq<char> {
    match kind {
        KindView::Text(_) => "text"@,
        KindView::Link(_) => "link"@,
        KindView::FilePath(_) => "file"@,
        KindView::Image { .. } => "image"@,
    }
}

/// The `mime_type` column value of each kind of entry.
pub open spec fn kind_mime(kind: KindView) -> Seq<char> {
    match kind {
        KindView::Text(_) => "text/plain"@,
        KindView::Link(_) => "text/uri-list"@,
        KindView::FilePath(_) => "text/uri-list"@,
        KindView::Image { .. } => "image/png"@,
    }
}

/// Whether an entry's content goes to a file rather than into its row: only
/// images larger than [`IMAGE_INLINE_LIMIT_BYTES`].
pub open spec fn stored_on_disk(kind: KindView) -> bool {
    match kind {
        KindView::Image { bytes, .. } => bytes.len() > IMAGE_INLINE_LIMIT_BYTES,
        _ => false,
    }
}

/// The `content` column value: the UTF-8 text, or the image bytes when the
/// image is stored inline, or nothing when it goes to a file.
pub open spec fn row_content(kind: KindView) -> Seq<u8> {
    match kind {
        KindView::Text(t) => encode_utf8(t),
        KindView::Link(u) => encode_utf8(u),
        KindView::FilePath(p) => encode_utf8(p),
        KindView::Image { bytes, .. } => if bytes.len() > IMAGE_INLINE_LIMIT_BYTES {
            Seq::empty()
        } else {
            bytes
        },
    }
}

/// The file name of the on-disk image of the row with id `id`.
pub open spec fn image_file_name_spec(id: i64) -> Seq<char> {
    decimal(id as int) + ".png"@
}

/// The row that storing `e` under the row id `row_id` writes, with a large
/// image placed in `images_dir` in a file named after `row_id`.
pub open spec fn entry_to_row_spec(e: EntryView, row_id: i64, images_dir: Seq<char>) -> NewRowView {
    NewRowView {
        kind: kind_tag(e.kind),
        content: row_content(e.kind),
        mime_type: Some(kind_mime(e.kind)),
        image_path: if stored_on_disk(e.kind) {
            Some(path_join(images_dir, image_file_name_spec(row_id)))
        } else {
            None
        },
        created_at: e.timestamp,
        pinned: if e.pinned {
            1
        } else {
            0
        },
    }
}

/// The bytes of the image a row stands for: the file's bytes when the row
/// names a file (nothing when that file could not be read), else the
/// row's own content.
pub open spec fn row_image_bytes(row: RowView) -> Seq<u8> {
    match row.image_path {
        Some(_) => match row.image_file {
            Some(b) => b,
            None => Seq::empty(),
        },
        None => row.content,
    }
}

/// The entry a row stands for, `None` for an unrecognised kind.
pub open spec fn row_to_entry_spec(row: RowView) -> Option<EntryView> {
    let kind = if row.kind == "text"@ {
        Some(KindView::Text(utf8_text(row.content)))
    } else if row.kind == "link"@ {
        Some(KindView::Link(utf8_text(row.content)))
    } else if row.kind == "file"@ {
        Some(KindView::FilePath(utf8_text(row.content)))
    } else if row.kind == "image"@ {
        let bytes = row_image_bytes(row);
        let (w, h) = png_dimensions_spec(bytes);
        Some(KindView::Image { bytes, width: w, height: h })
    } else {
        None
    };
    match kind {
        Some(k) => Some(EntryView { id: row.id, kind: k, timestamp: row.created_at, pinned: row.pinned != 0 }),
        None => None,
    }
}

/// The file name under which the image of the row with id `id` is stored
/// on disk.
pub fn image_file_name(id: i64) -> (n: String)
    ensures
        n@ == image_file_name_spec(id),
{
    let mut n = String::new();
    push_decimal(&mut n, id);
    push_str(&mut n, ".png");
    assert(n@ =~= image_file_name_spec(id));
    n
}

/// Whether storing `entry` writes its content to a file.
pub fn is_stored_on_disk(entry: &ClipboardEntry) -> (b: bool)
    ensures
        b == stored_on_disk(entry.kind@),
{
    match &entry.kind {
        EntryKind::Image { bytes, .. } => bytes.len() > IMAGE_INLINE_LIMIT_BYTES,
        _ => false,
    }
}

/// Convert an entry to the columns that storing it under the row id
/// `row_id` writes. For a large image the content column stays empty and
/// `image_path` names the file (inside `images_dir`, named after `row_id`)
/// that the caller writes the bytes to.
pub fn entry_to_row(entry: &ClipboardEntry, row_id: i64, images_dir: &str) -> (row: NewRow)
    ensures
        row@ == entry_to_row_spec(entry@, row_id, images_dir@),
{
    let pinned: i64 = if entry.pinned { 1 } else { 0 };
    match &entry.kind {
        EntryKind::Text(t) => NewRow {
            kind: string_of("text"),
            content: utf8_bytes(t.as_str()),
            mime_type: Some(string_of("text/plain")),
            image_path: None,
            created_at: entry.timestamp,
            pinned,
        },
        EntryKind::Link(u) => NewRow {
            kind: string_of("link"),
            content: utf8_bytes(u.as_str()),
            mime_type: Some(string_of("text/uri-list")),
            image_path: None,
            created_at: entry.timestamp,
            pinned,
        },
        EntryKind::FilePath(p) => NewRow {
            kind: string_of("file"),
            content: utf8_bytes(p.as_str()),
            mime_type: Some(string_of("text/uri-list")),
            image_path: None,
            created_at: entry.timestamp,
            pinned,
        },
        EntryKind::Image { bytes, .. } => {
            if bytes.len() <= IMAGE_INLINE_LIMIT_BYTES {
                NewRow {
                    kind: string_of("image"),
                    content: copy_bytes(bytes),
                    mime_type: Some(string_of("image/png")),
                    image_path: None,
                    created_at: entry.timestamp,
                    pinned,
                }
            } else {
                let name = image_file_name(row_id);
                proof {
                    reveal_strlit(".png");
                }
                assert(name@.len() > 0 && name@[0] != '/') by {
                    crate::text::lemma_decimal_first_char(row_id as int);
                }
                let path = join_path(images_dir, name.as_str());
                NewRow {
                    kind: string_of("image"),
                    content: Vec::new(),
                    mime_type: Some(string_of("image/png")),
                    image_path: Some(path),
                    created_at: entry.timestamp,
                    pinned,
                }
            }
        },
    }
}

/// The bytes of the image a stored row stands for.
pub fn image_bytes_of_row(row: &StoredRow) -> (b: Vec<u8>)
    ensures
        b@ == row_image_bytes(row@),
{
    match &row.image_path {
        Some(_) => match &row.image_file {
            Some(f) => copy_bytes(f),
            None => Vec::new(),
        },
        None => copy_bytes(&row.content),
    }
}

/// Convert a stored row back to an entry. Returns `None` on an unrecognised
/// kind.
pub fn row_to_entry(row: &StoredRow) -> (e: Option<ClipboardEntry>)
    ensures
        match e {
            Some(entry) => row_to_entry_spec(row@) == Some(entry@),
            None => row_to_entry_spec(row@) is None,
        },
{
    let kind = if str_equal(row.kind.as_str(), "text") {
        EntryKind::Text(text_from_utf8(row.content.as_slice()))
    } else if str_equal(row.kind.as_str(), "link") {
        EntryKind::Link(text_from_utf8(row.content.as_slice()))
    } else if str_equal(row.kind.as_str(), "file") {
        EntryKind::FilePath(text_from_utf8(row.content.as_slice()))
    } else if str_equal(row.kind.as_str(), "image") {
        let bytes = image_bytes_of_row(row);
        let (width, height) = png_dimensions(bytes.as_slice());
        EntryKind::Image { bytes, width, height }
    } else {
        return None;
    };
    Some(ClipboardEntry { id: row.id, kind, timestamp: row.created_at, pinned: row.pinned != 0 })
}

/// The row the database holds after storing `new` under `id`, read back
/// together with `file`, what reading its image file gave.
pub open spec fn stored(new: NewRowView, id: i64, file: Option<Seq<u8>>) -> RowView {
    RowView {
        id,
        kind: new.kind,
        content: new.content,
        image_path: new.image_path,
        created_at: new.created_at,
        pinned: new.pinned,
        image_file: file,
    }
}

/// An entry comes back unchanged, under the id the database gave it, from
/// the row that storing it writes: for an image, provided its dimensions
/// are those of its PNG header and, when it went to a file, reading that
/// file gives back the bytes written to it.
pub proof fn lemma_entry_row_roundtrip(
    e: EntryView,
    images_dir: Seq<char>,
    id: i64,
    file: Option<Seq<u8>>,
)
    requires
        e.kind matches KindView::Image { bytes, width, height } ==> (width, height)
            == png_dimensions_spec(bytes),
        stored_on_disk(e.kind) ==> file == Some(e.kind->bytes),
    ensures
        row_to_entry_spec(stored(entry_to_row_spec(e, id, images_dir), id, file)) == Some(
            EntryView { id: id, kind: e.kind, timestamp: e.timestamp, pinned: e.pinned },
        ),
{
    reveal_strlit("text");
    reveal_strlit("link");
    reveal_strlit("file");
    reveal_strlit("image");
    match e.kind {
        KindView::Text(t) => {
            vstd::utf8::encode_utf8_valid_utf8(t);
            vstd::utf8::encode_utf8_decode_utf8(t);
        },
        KindView::Link(t) => {
            vstd::utf8::encode_utf8_valid_utf8(t);
            vstd::utf8::encode_utf8_decode_utf8(t);
            assert("link"@[0] != "text"@[0]);
        },
        KindView::FilePath(t) => {
            vstd::utf8::encode_utf8_valid_utf8(t);
            vstd::utf8::encode_utf8_decode_utf8(t);
            assert("file"@[0] != "text"@[0]);
            assert("file"@[0] != "link"@[0]);
        },
        KindView::Image { bytes, width, height } => {
            let r = stored(entry_to_row_spec(e, id, images_dir), id, file);
            assert(row_image_bytes(r) == bytes);
            assert(r.kind.len() == 5 && "text"@.len() == 4 && "link"@.len() == 4 && "file"@.len() == 4);
        },
    }
}

} // verus!

verus! {

/// The id the database gives the next row it stores (`AUTOINCREMENT`): one
/// more than the largest id it has ever given and than the largest id in
/// the table; `None` when that would overflow.
pub open spec fn next_row_id_spec(largest_given: Option<i64>, largest_present: Option<i64>) -> Option<i64> {
    let a: int = match largest_given {
        Some(v) => v as int,
        None => 0,
    };
    let b: int = match largest_present {
        Some(v) => v as int,
        None => 0,
    };
    let m = if a > b {
        a
    } else {
        b
    };
    if m + 1 <= i64::MAX {
        Some((m + 1) as i64)
    } else {
        None
    }
}

/// The id under which the next entry is stored, from the largest id ever
/// given (`sqlite_sequence`) and the largest id in the table.
pub fn next_row_id(largest_given: Option<i64>, largest_present: Option<i64>) -> (id: Option<i64>)
    ensures
        id == next_row_id_spec(largest_given, largest_present),
{
    let a: i64 = match largest_given {
        Some(v) => v,
        None => 0,
    };
    let b: i64 = match largest_present {
        Some(v) => v,
        None => 0,
    };
    let m = if a > b { a } else { b };
    m.checked_add(1)
}

/// Storing one entry never touches the image file of another: rows with
/// different ids keep their large images in different files.
pub proof fn lemma_image_files_distinct(
    e1: EntryView,
    a: i64,
    e2: EntryView,
    b: i64,
    images_dir: Seq<char>,
)
    requires
        a != b,
        stored_on_disk(e1.kind),
        stored_on_disk(e2.kind),
    ensures
        entry_to_row_spec(e1, a, images_dir).image_path != entry_to_row_spec(e2, b, images_dir).image_path,
{
    if entry_to_row_spec(e1, a, images_dir).image_path == entry_to_row_spec(e2, b, images_dir).image_path {
        crate::paths::lemma_path_join_injective(images_dir, image_file_name_spec(a), image_file_name_spec(b));
        reveal_strlit(".png");
        let da = decimal(a as int);
        let db = decimal(b as int);
        let na = image_file_name_spec(a);
        let nb = image_file_name_spec(b);
        assert(na == nb);
        assert(da.len() == db.len());
        assert(da =~= na.take(da.len() as int));
        assert(db =~= nb.take(db.len() as int));
        crate::text::lemma_parse_decimal_roundtrip(a);
        crate::text::lemma_parse_decimal_roundtrip(b);
    }
}

} // verus!
