use vstd::prelude::*;
use crate::text::{chars_of, decimal, push_char, push_decimal, push_str, str_equal, string_of};

verus! {

/// How many characters of a text entry its preview shows.
pub const PREVIEW_CHARS: usize = 120;

/// What kind of content a clipboard entry holds.
#[derive(Debug)]
pub enum EntryKind {
    Text(String),
    Image {
        /// Raw PNG/JPEG bytes.
        bytes: Vec<u8>,
        width: i32,
        height: i32,
    },
    /// A newline-separated list of file paths.
    FilePath(String),
    Link(String),
}

/// A single item of the clipboard history.
#[derive(Debug)]
pub struct ClipboardEntry {
    pub id: i64,
    pub kind: EntryKind,
    /// Unix seconds.
    pub timestamp: i64,
    pub pinned: bool,
}

/// The mathematical value of an [`EntryKind`].
pub enum KindView {
    Text(Seq<char>),
    Image { bytes: Seq<u8>, width: i32, height: i32 },
    FilePath(Seq<char>),
    Link(Seq<char>),
}

/// The mathematical value of a [`ClipboardEntry`].
pub struct EntryView {
    pub id: i64,
    pub kind: KindView,
    pub timestamp: i64,
    pub pinned: bool,
}

impl View for EntryKind {
    type V = KindView;

    open spec fn view(&self) -> KindView {
        match self {
            EntryKind::Text(t) => KindView::Text(t@),
            EntryKind::Image { bytes, width, height } => KindView::Image {
                bytes: bytes@,
                width: *width,
                height: *height,
            },
            EntryKind::FilePath(p) => KindView::FilePath(p@),
            EntryKind::Link(u) => KindView::Link(u@),
        }
    }
}

impl View for ClipboardEntry {
    type V = EntryView;

    open spec fn view(&self) -> EntryView {
        EntryView { id: self.id, kind: self.kind@, timestamp: self.timestamp, pinned: self.pinned }
    }
}

/// The preview line of an entry: a text cut to its first
/// [`PREVIEW_CHARS`] characters with `…` appended when it was longer, the
/// dimensions of an image, or the file paths or link as they are.
pub open spec fn preview_spec(kind: KindView) -> Seq<char> {
    match kind {
        KindView::Text(t) => if t.len() > PREVIEW_CHARS {
            t.take(PREVIEW_CHARS as int).push('…')
        } else {
            t
        },
        KindView::Image { width, height, .. } => "Image "@ + decimal(width as int) + "x"@ + decimal(
            height as int,
        ),
        KindView::FilePath(p) => p,
        KindView::Link(u) => u,
    }
}

/// The preview of a text is the text itself when it has at most
/// [`PREVIEW_CHARS`] characters; otherwise it is the text's first
/// [`PREVIEW_CHARS`] characters followed by `…`. The preview of a file list
/// or a link is that text unchanged.
pub proof fn lemma_text_preview(t: Seq<char>)
    ensures
        t.len() <= PREVIEW_CHARS ==> preview_spec(KindView::Text(t)) == t,
        t.len() > PREVIEW_CHARS ==> {
            let p = preview_spec(KindView::Text(t));
            &&& p.len() == PREVIEW_CHARS + 1
            &&& forall|i: int| 0 <= i < PREVIEW_CHARS ==> p[i] == #[trigger] t[i]
            &&& p[PREVIEW_CHARS as int] == '…'
        },
        preview_spec(KindView::FilePath(t)) == t,
        preview_spec(KindView::Link(t)) == t,
{
}

pub open spec fn icon_name_spec(kind: KindView) -> Seq<char> {
    match kind {
        KindView::Text(_) => "text-x-generic-symbolic"@,
        KindView::Image { .. } => "image-x-generic-symbolic"@,
        KindView::FilePath(_) => "folder-symbolic"@,
        KindView::Link(_) => "web-browser-symbolic"@,
    }
}

pub open spec fn badge_css_class_spec(kind: KindView) -> Seq<char> {
    match kind {
        KindView::Text(_) => "entry-badge-text"@,
        KindView::Image { .. } => "entry-badge-image"@,
        KindView::FilePath(_) => "entry-badge-file"@,
        KindView::Link(_) => "entry-badge-link"@,
    }
}

pub open spec fn type_label_spec(kind: KindView) -> Seq<char> {
    match kind {
        KindView::Text(_) => "Text"@,
        KindView::Image { .. } => "Image"@,
        KindView::FilePath(_) => "File"@,
        KindView::Link(_) => "Link"@,
    }
}

/// A copy of a byte vector.
pub fn copy_bytes(v: &Vec<u8>) -> (c: Vec<u8>)
    ensures
        c@ == v@,
{
    vstd::slice::slice_to_vec(v.as_slice())
}

/// A copy of a string.
pub fn copy_string(s: &String) -> (c: String)
    ensures
        c@ == s@,
{
    s.clone()
}

impl EntryKind {
    /// A copy of this kind with the same value.
    pub fn duplicate(&self) -> (c: EntryKind)
        ensures
            c@ == self@,
    {
        match self {
            EntryKind::Text(t) => EntryKind::Text(copy_string(t)),
            EntryKind::Image { bytes, width, height } => EntryKind::Image {
                bytes: copy_bytes(bytes),
                width: *width,
                height: *height,
            },
            EntryKind::FilePath(p) => EntryKind::FilePath(copy_string(p)),
            EntryKind::Link(u) => EntryKind::Link(copy_string(u)),
        }
    }
}

impl ClipboardEntry {
    /// A copy of this entry with the same value.
    pub fn duplicate(&self) -> (c: ClipboardEntry)
        ensures
            c@ == self@,
    {
        ClipboardEntry {
            id: self.id,
            kind: self.kind.duplicate(),
            timestamp: self.timestamp,
            pinned: self.pinned,
        }
    }

    /// The one-line preview shown for this entry.
    pub fn preview(&self) -> (p: String)
        ensures
            p@ == preview_spec(self.kind@),
    {
        match &self.kind {
            EntryKind::Text(t) => {
                let chars = chars_of(t.as_str());
                if chars.len() > PREVIEW_CHARS {
                    let mut s = String::new();
                    let mut i: usize = 0;
                    while i < PREVIEW_CHARS
                        invariant
                            chars@ == t@,
                            chars.len() > PREVIEW_CHARS,
                            i <= PREVIEW_CHARS,
                            s@ == chars@.take(i as int),
                        decreases PREVIEW_CHARS - i,
                    {
                        push_char(&mut s, chars[i]);
                        i = i + 1;
                        assert(s@ =~= chars@.take(i as int));
                    }
                    push_char(&mut s, '…');
                    s
                } else {
                    copy_string(t)
                }
            },
            EntryKind::Image { width, height, .. } => {
                let mut s = string_of("Image ");
                push_decimal(&mut s, *width as i64);
                push_str(&mut s, "x");
                push_decimal(&mut s, *height as i64);
                s
            },
            EntryKind::FilePath(p) => copy_string(p),
            EntryKind::Link(u) => copy_string(u),
        }
    }

    /// Icon name from the Adwaita / hicolor icon theme.
    pub fn icon_name(&self) -> (n: &'static str)
        ensures
            n@ == icon_name_spec(self.kind@),
    {
        match &self.kind {
            EntryKind::Text(_) => "text-x-generic-symbolic",
            EntryKind::Image { .. } => "image-x-generic-symbolic",
            EntryKind::FilePath(_) => "folder-symbolic",
            EntryKind::Link(_) => "web-browser-symbolic",
        }
    }

    /// CSS class added to the type badge.
    pub fn badge_css_class(&self) -> (c: &'static str)
        ensures
            c@ == badge_css_class_spec(self.kind@),
    {
        match &self.kind {
            EntryKind::Text(_) => "entry-badge-text",
            EntryKind::Image { .. } => "entry-badge-image",
            EntryKind::FilePath(_) => "entry-badge-file",
            EntryKind::Link(_) => "entry-badge-link",
        }
    }

    /// The label of the type badge.
    pub fn type_label(&self) -> (l: &'static str)
        ensures
            l@ == type_label_spec(self.kind@),
    {
        match &self.kind {
            EntryKind::Text(_) => "Text",
            EntryKind::Image { .. } => "Image",
            EntryKind::FilePath(_) => "File",
            EntryKind::Link(_) => "Link",
        }
    }
}

} // verus!

verus! {

/// Whether two byte vectors hold the same bytes.
pub fn same_bytes(a: &Vec<u8>, b: &Vec<u8>) -> (eq: bool)
    ensures
        eq == (a@ == b@),
{
    if a.len() != b.len() {
        return false;
    }
    let mut i: usize = 0;
    while i < a.len()
        invariant
            a.len() == b.len(),
            i <= a.len(),
            forall|k: int| 0 <= k < i ==> a@[k] == b@[k],
        decreases a.len() - i,
    {
        if a[i] != b[i] {
            return false;
        }
        i = i + 1;
    }
    assert(a@ =~= b@);
    true
}

impl PartialEq for EntryKind {
    fn eq(&self, other: &Self) -> (eq: bool) {
        match (self, other) {
            (EntryKind::Text(a), EntryKind::Text(b)) => str_equal(a.as_str(), b.as_str()),
            (EntryKind::Link(a), EntryKind::Link(b)) => str_equal(a.as_str(), b.as_str()),
            (EntryKind::FilePath(a), EntryKind::FilePath(b)) => str_equal(a.as_str(), b.as_str()),
            (
                EntryKind::Image { bytes: a, width: wa, height: ha },
                EntryKind::Image { bytes: b, width: wb, height: hb },
            ) => *wa == *wb && *ha == *hb && same_bytes(a, b),
            _ => false,
        }
    }
}

impl vstd::std_specs::cmp::PartialEqSpecImpl for EntryKind {
    open spec fn obeys_eq_spec() -> bool {
        true
    }

    open spec fn eq_spec(&self, other: &Self) -> bool {
        self@ == other@
    }
}

impl PartialEq for ClipboardEntry {
    fn eq(&self, other: &Self) -> (eq: bool) {
        self.id == other.id && self.timestamp == other.timestamp && self.pinned == other.pinned
            && self.kind == other.kind
    }
}

impl vstd::std_specs::cmp::PartialEqSpecImpl for ClipboardEntry {
    open spec fn obeys_eq_spec() -> bool {
        true
    }

    open spec fn eq_spec(&self, other: &Self) -> bool {
        self@ == other@
    }
}

} // verus!
