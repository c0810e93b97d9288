use vstd::prelude::*;
use crate::models::{ClipboardEntry, EntryKind, EntryView, KindView};
use crate::table::entry_views;
use crate::text::{
    chars_of, contains_chars, contains_spec, decimal, parse_i64, parse_i64_spec, push_char,
    push_decimal, push_str, split_once, split_once_spec, to_lowercase, unicode_lowercase,
};

verus! {

/// The pages of the history window.
#[derive(Clone, Copy, Debug, PartialEq, Eq, Structural)]
pub enum Tab {
    All,
    Text,
    Images,
    Links,
    Files,
    Pinned,
}

/// The name under which a page is registered.
pub open spec fn tab_name_spec(tab: Tab) -> Seq<char> {
    match tab {
        Tab::All => "all"@,
        Tab::Text => "text"@,
        Tab::Images => "images"@,
        Tab::Links => "links"@,
        Tab::Files => "files"@,
        Tab::Pinned => "pinned"@,
    }
}

/// Whether a page lists an entry: each kind has its page, the pinned page
/// lists the pinned entries, and the first page lists them all.
pub open spec fn shows(tab: Tab, e: EntryView) -> bool {
    match tab {
        Tab::All => true,
        Tab::Text => e.kind is Text,
        Tab::Images => e.kind is Image,
        Tab::Links => e.kind is Link,
        Tab::Files => e.kind is FilePath,
        Tab::Pinned => e.pinned,
    }
}

/// The entries a page lists, in history order.
pub open spec fn tab_spec(tab: Tab, h: Seq<EntryView>) -> Seq<EntryView>
    decreases h.len(),
{
    if h.len() == 0 {
        Seq::empty()
    } else {
        let rest = tab_spec(tab, h.drop_last());
        if shows(tab, h.last()) {
            rest.push(h.last())
        } else {
            rest
        }
    }
}

/// The title a page shows in the view switcher.
pub open spec fn tab_title_spec(tab: Tab) -> Seq<char> {
    match tab {
        Tab::All => "All"@,
        Tab::Text => "Text"@,
        Tab::Images => "Images"@,
        Tab::Links => "Links"@,
        Tab::Files => "Files"@,
        Tab::Pinned => "Pinned"@,
    }
}

/// The icon a page is added with, and the icon it then shows.
pub open spec fn tab_icons_spec(tab: Tab) -> (Seq<char>, Seq<char>) {
    match tab {
        Tab::All => ("view-list-symbolic"@, "view-list-symbolic"@),
        Tab::Text => ("view-list-symbolic"@, "text-x-generic"@),
        Tab::Images => ("view-list-symbolic"@, "image-x-generic-symbolic"@),
        Tab::Links => ("view-list-symbolic"@, "network-wireless-hotspot-symbolic"@),
        Tab::Files => ("folder-symbolic"@, "network-wireless-hotspot-symbolic"@),
        Tab::Pinned => ("starred-symbolic"@, "starred-symbolic"@),
    }
}

proof fn lemma_tab_filter(tab: Tab, h: Seq<EntryView>, p: spec_fn(EntryView) -> bool)
    requires
        forall|e: EntryView| shows(tab, e) == p(e),
    ensures
        tab_spec(tab, h) == h.filter(p),
    decreases h.len(),
{
    reveal(Seq::filter);
    if h.len() > 0 {
        lemma_tab_filter(tab, h.drop_last(), p);
    }
}

proof fn lemma_tab_all(h: Seq<EntryView>)
    ensures
        tab_spec(Tab::All, h) == h,
    decreases h.len(),
{
    if h.len() > 0 {
        lemma_tab_all(h.drop_last());
        assert(h.drop_last().push(h.last()) =~= h);
    }
}

/// What each page lists, in history order: `All` every entry, `Text`,
/// `Images`, `Links` and `Files` every entry of that kind whether pinned or
/// not, and `Pinned` every pinned entry of any kind.
pub proof fn lemma_tab_contents(h: Seq<EntryView>)
    ensures
        tab_spec(Tab::All, h) == h,
        tab_spec(Tab::Text, h) == h.filter(|e: EntryView| e.kind is Text),
        tab_spec(Tab::Images, h) == h.filter(|e: EntryView| e.kind is Image),
        tab_spec(Tab::Links, h) == h.filter(|e: EntryView| e.kind is Link),
        tab_spec(Tab::Files, h) == h.filter(|e: EntryView| e.kind is FilePath),
        tab_spec(Tab::Pinned, h) == h.filter(|e: EntryView| e.pinned),
{
    lemma_tab_all(h);
    lemma_tab_filter(Tab::Text, h, |e: EntryView| e.kind is Text);
    lemma_tab_filter(Tab::Images, h, |e: EntryView| e.kind is Image);
    lemma_tab_filter(Tab::Links, h, |e: EntryView| e.kind is Link);
    lemma_tab_filter(Tab::Files, h, |e: EntryView| e.kind is FilePath);
    lemma_tab_filter(Tab::Pinned, h, |e: EntryView| e.pinned);
}

impl Tab {
    /// The title of the page in the view switcher.
    pub fn title(&self) -> (t: &'static str)
        ensures
            t@ == tab_title_spec(*self),
    {
        match self {
            Tab::All => "All",
            Tab::Text => "Text",
            Tab::Images => "Images",
            Tab::Links => "Links",
            Tab::Files => "Files",
            Tab::Pinned => "Pinned",
        }
    }

    /// The icon the page is added with, and the icon it then shows.
    pub fn icons(&self) -> (icons: (&'static str, &'static str))
        ensures
            (icons.0@, icons.1@) == tab_icons_spec(*self),
    {
        match self {
            Tab::All => ("view-list-symbolic", "view-list-symbolic"),
            Tab::Text => ("view-list-symbolic", "text-x-generic"),
            Tab::Images => ("view-list-symbolic", "image-x-generic-symbolic"),
            Tab::Links => ("view-list-symbolic", "network-wireless-hotspot-symbolic"),
            Tab::Files => ("folder-symbolic", "network-wireless-hotspot-symbolic"),
            Tab::Pinned => ("starred-symbolic", "starred-symbolic"),
        }
    }

    /// The pages, in the order the window shows them.
    pub fn all_tabs() -> (tabs: Vec<Tab>)
        ensures
            tabs@ == seq![Tab::All, Tab::Text, Tab::Images, Tab::Links, Tab::Files, Tab::Pinned],
    {
        let tabs = vec![Tab::All, Tab::Text, Tab::Images, Tab::Links, Tab::Files, Tab::Pinned];
        assert(tabs@ =~= seq![Tab::All, Tab::Text, Tab::Images, Tab::Links, Tab::Files, Tab::Pinned]);
        tabs
    }

    /// The name under which the page is registered.
    pub fn name(&self) -> (n: &'static str)
        ensures
            n@ == tab_name_spec(*self),
    {
        match self {
            Tab::All => "all",
            Tab::Text => "text",
            Tab::Images => "images",
            Tab::Links => "links",
            Tab::Files => "files",
            Tab::Pinned => "pinned",
        }
    }

    /// Whether this page lists the entry.
    pub fn shows(&self, e: &ClipboardEntry) -> (b: bool)
        ensures
            b == shows(*self, e@),
    {
        match self {
            Tab::All => true,
            Tab::Text => matches!(e.kind, EntryKind::Text(_)),
            Tab::Images => matches!(e.kind, EntryKind::Image { .. }),
            Tab::Links => matches!(e.kind, EntryKind::Link(_)),
            Tab::Files => matches!(e.kind, EntryKind::FilePath(_)),
            Tab::Pinned => e.pinned,
        }
    }

    /// Copies of the entries this page lists, in history order.
    pub fn entries(&self, history: &Vec<ClipboardEntry>) -> (es: Vec<ClipboardEntry>)
        ensures
            entry_views(es@) == tab_spec(*self, entry_views(history@)),
    {
        let ghost h = entry_views(history@);
        let mut es: Vec<ClipboardEntry> = Vec::new();
        let mut i: usize = 0;
        while i < history.len()
            invariant
                i <= history.len(),
                h == entry_views(history@),
                entry_views(es@) == tab_spec(*self, h.take(i as int)),
            decreases history.len() - i,
        {
            assert(h.take(i + 1).drop_last() =~= h.take(i as int));
            assert(h.take(i + 1).last() == history@[i as int]@);
            if self.shows(&history[i]) {
                let e = history[i].duplicate();
                let ghost prev = entry_views(es@);
                es.push(e);
                assert(entry_views(es@) =~= prev.push(history@[i as int]@));
            }
            i = i + 1;
        }
        assert(h.take(history.len() as int) =~= h);
        es
    }
}

/// Every entry a page lists belongs on that page.
pub proof fn lemma_tab_shows_only(tab: Tab, h: Seq<EntryView>)
    ensures
        forall|i: int| 0 <= i < tab_spec(tab, h).len() ==> shows(tab, #[trigger] tab_spec(tab, h)[i]),
    decreases h.len(),
{
    if h.len() > 0 {
        lemma_tab_shows_only(tab, h.drop_last());
        let rest = tab_spec(tab, h.drop_last());
        assert forall|i: int| 0 <= i < tab_spec(tab, h).len() implies shows(tab, #[trigger] tab_spec(tab, h)[i]) by {
            if i < rest.len() {
                assert(tab_spec(tab, h)[i] == rest[i]);
            }
        }
    }
}

/// The text a row carries after its id: that of a text, link or file
/// entry, nothing for an image.
pub open spec fn row_text(kind: KindView) -> Seq<char> {
    match kind {
        KindView::Text(t) => t,
        KindView::Link(t) => t,
        KindView::FilePath(t) => t,
        KindView::Image { .. } => Seq::empty(),
    }
}

/// The widget name of an entry's row: `id|text`.
pub open spec fn row_name_spec(e: EntryView) -> Seq<char> {
    decimal(e.id as int) + seq!['|'] + row_text(e.kind)
}

/// The widget name of an entry's row, which carries its id and text for
/// activation and search.
pub fn row_widget_name(e: &ClipboardEntry) -> (n: String)
    ensures
        n@ == row_name_spec(e@),
{
    let mut n = String::new();
    push_decimal(&mut n, e.id);
    push_char(&mut n, '|');
    match &e.kind {
        EntryKind::Text(t) => push_str(&mut n, t.as_str()),
        EntryKind::Link(t) => push_str(&mut n, t.as_str()),
        EntryKind::FilePath(t) => push_str(&mut n, t.as_str()),
        EntryKind::Image { .. } => {},
    }
    assert(n@ =~= row_name_spec(e@));
    n
}

/// The entry id a row's widget name carries: the number before the first
/// `|`, if it parses.
pub open spec fn row_id_spec(name: Seq<char>) -> Option<i64> {
    match split_once_spec(name, '|') {
        Some((id, _)) => parse_i64_spec(id),
        None => None,
    }
}

/// The id of the entry an activated row stands for.
pub fn entry_id_from_row_name(name: &str) -> (id: Option<i64>)
    ensures
        id == row_id_spec(name@),
{
    match split_once(name, '|') {
        Some((id, _)) => parse_i64(id.as_str()),
        None => None,
    }
}

/// Activating a row finds the entry it was built for.
pub proof fn lemma_row_name_roundtrip(e: EntryView)
    ensures
        row_id_spec(row_name_spec(e)) == Some(e.id),
{
    lemma_row_name_split(e);
    crate::text::lemma_parse_decimal_roundtrip(e.id);
}

/// Whether a row stays visible under a search: every row for an empty
/// query, else a row whose text (after the `|` of its widget name) is not
/// empty and, lower-cased, contains the lower-cased query.
pub open spec fn row_matches_spec(name: Seq<char>, query: Seq<char>) -> bool {
    if query.len() == 0 {
        true
    } else {
        match split_once_spec(name, '|') {
            Some((_, t)) => t.len() > 0 && contains_spec(unicode_lowercase(t), unicode_lowercase(query)),
            None => false,
        }
    }
}

/// The search filter of the history lists.
pub fn row_matches_search(name: &str, query: &str) -> (b: bool)
    ensures
        b == row_matches_spec(name@, query@),
{
    let q = to_lowercase(query);
    if q.as_str().unicode_len() == 0 {
        return true;
    }
    let text = match split_once(name, '|') {
        Some((_, t)) => to_lowercase(t.as_str()),
        None => String::new(),
    };
    let tc = chars_of(text.as_str());
    let qc = chars_of(q.as_str());
    tc.len() > 0 && contains_chars(&tc, &qc)
}

/// Whether a row whose tooltip is `tooltip` stays visible under a search:
/// every row for an empty query, else one whose lower-cased tooltip
/// contains the lower-cased query.
pub open spec fn tooltip_matches_spec(tooltip: Seq<char>, query: Seq<char>) -> bool {
    query.len() == 0 || contains_spec(unicode_lowercase(tooltip), unicode_lowercase(query))
}

/// The search filter of the single-list window, which matches the tooltip.
pub fn tooltip_matches_search(tooltip: &str, query: &str) -> (b: bool)
    ensures
        b == tooltip_matches_spec(tooltip@, query@),
{
    let q = to_lowercase(query);
    if q.as_str().unicode_len() == 0 {
        return true;
    }
    let t = to_lowercase(tooltip);
    let tc = chars_of(t.as_str());
    let qc = chars_of(q.as_str());
    contains_chars(&tc, &qc)
}

/// Splitting a row's widget name at its first `|` gives back the entry's
/// id, in decimal, and its text.
proof fn lemma_row_name_split(e: EntryView)
    ensures
        split_once_spec(row_name_spec(e), '|') == Some((decimal(e.id as int), row_text(e.kind))),
{
    let d = decimal(e.id as int);
    let name = row_name_spec(e);
    crate::text::lemma_decimal_chars(e.id as int);
    let k = d.len() as int;
    assert(name[k] == '|');
    assert forall|j: int| 0 <= j < k implies name[j] != '|' by {
        assert(name[j] == d[j]);
    }
    assert(crate::text::first_index_of(name, '|', k));
    let c = choose|j: int| crate::text::first_index_of(name, '|', j);
    if c < k {
        assert(name[c] != '|');
    }
    if c > k {
        assert(name[k] != '|');
    }
    assert(name.take(k) =~= d);
    assert(name.skip(k + 1) =~= row_text(e.kind));
}

/// The search filter on the row built for an entry: every row is shown for
/// an empty query; otherwise the row is shown exactly when the entry's text
/// is not empty and, lower-cased, contains the lower-cased query. So an
/// image's row, which carries no text, is hidden whenever the query is not
/// empty.
pub proof fn lemma_row_filter(e: EntryView, query: Seq<char>)
    ensures
        row_matches_spec(row_name_spec(e), query) <==> (query.len() == 0 || (row_text(e.kind).len() > 0
            && contains_spec(unicode_lowercase(row_text(e.kind)), unicode_lowercase(query)))),
        e.kind is Image && query.len() > 0 ==> !row_matches_spec(row_name_spec(e), query),
{
    lemma_row_name_split(e);
}

} // verus!
