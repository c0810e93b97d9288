use vstd::prelude::*;
use crate::models::{ClipboardEntry, EntryKind, EntryView, KindView};
use crate::row::{RowView, entry_to_row_spec, lemma_entry_row_roundtrip, stored};
use crate::table::{entry_views, lemma_newest_row_heads_load_all, load_all_spec};
use crate::text::{is_blank, is_blank_spec, str_equal};

verus! {

/// How many entries the in-memory history keeps.
pub const MAX_HISTORY: usize = 200;

/// The entry to store for newly copied text: none when the text is blank
/// or repeats the newest entry of the history; otherwise a new unpinned
/// text entry stamped `now` (its id is assigned when it is stored).
pub open spec fn new_text_spec(text: Seq<char>, history: Seq<EntryView>, now: i64) -> Option<EntryView> {
    if is_blank_spec(text) {
        None
    } else if history.len() > 0 && history[0].kind == KindView::Text(text) {
        None
    } else {
        Some(EntryView { id: 0, kind: KindView::Text(text), timestamp: now, pinned: false })
    }
}

/// What the history service does with newly copied text, given the
/// history newest first and the current time.
pub fn entry_for_new_text(text: &str, history: &Vec<ClipboardEntry>, now: i64) -> (e: Option<ClipboardEntry>)
    ensures
        match e {
            Some(entry) => new_text_spec(text@, entry_views(history@), now) == Some(entry@),
            None => new_text_spec(text@, entry_views(history@), now) is None,
        },
{
    if is_blank(text) {
        return None;
    }
    if history.len() > 0 {
        match &history[0].kind {
            EntryKind::Text(t) => {
                if str_equal(t.as_str(), text) {
                    return None;
                }
            },
            _ => {},
        }
    }
    Some(
        ClipboardEntry {
            id: 0,
            kind: EntryKind::Text(crate::text::string_of(text)),
            timestamp: now,
            pinned: false,
        },
    )
}

/// Copying the same text twice in a row stores it once: once an entry for
/// the text heads the history, offering the text again stores nothing.
pub proof fn lemma_new_text_not_repeated(text: Seq<char>, e: EntryView, history: Seq<EntryView>, now: i64)
    requires
        e.kind == KindView::Text(text),
    ensures
        new_text_spec(text, seq![e] + history, now) is None,
{
    assert((seq![e] + history)[0] == e);
}

/// The daemon stores the same text only once in a row: when the row just
/// stored for a text entry stamped `now1` is strictly newer than every other
/// row of the table, the history loaded from that table starts with it, so
/// offering the same text again (at any time `now2`) stores nothing.
pub proof fn lemma_stored_text_not_stored_again(
    rows: Seq<RowView>,
    k: int,
    text: Seq<char>,
    now1: i64,
    now2: i64,
    id: i64,
    images_dir: Seq<char>,
)
    requires
        rows.len() <= usize::MAX,
        0 <= k < rows.len(),
        rows[k] == stored(
            entry_to_row_spec(
                EntryView { id: 0, kind: KindView::Text(text), timestamp: now1, pinned: false },
                id,
                images_dir,
            ),
            id,
            None,
        ),
        forall|j: int| 0 <= j < rows.len() && j != k ==> #[trigger] rows[j].created_at < now1,
    ensures
        new_text_spec(text, load_all_spec(rows), now2) is None,
{
    let e = EntryView { id: 0, kind: KindView::Text(text), timestamp: now1, pinned: false };
    lemma_entry_row_roundtrip(e, images_dir, id, None);
    lemma_newest_row_heads_load_all(rows, k);
}

/// The history after `entry` is put in front of it, cut to [`MAX_HISTORY`]
/// entries.
pub open spec fn remember_spec(history: Seq<EntryView>, e: EntryView) -> Seq<EntryView> {
    let h = seq![e] + history;
    if h.len() > MAX_HISTORY {
        h.take(MAX_HISTORY as int)
    } else {
        h
    }
}

/// Puts a new entry in front of the history and drops the oldest beyond
/// [`MAX_HISTORY`].
pub fn remember_entry(history: &mut Vec<ClipboardEntry>, entry: ClipboardEntry)
    ensures
        entry_views(final(history)@) == remember_spec(entry_views(old(history)@), entry@),
{
    let ghost e = entry@;
    let ghost before = entry_views(history@);
    history.insert(0, entry);
    assert(entry_views(history@) =~= seq![e] + before);
    if history.len() > MAX_HISTORY {
        history.truncate(MAX_HISTORY);
    }
    assert(entry_views(history@) =~= remember_spec(before, e));
}

/// The history never grows beyond [`MAX_HISTORY`] entries, and the entry
/// just remembered comes first.
pub proof fn lemma_remember_bounded(history: Seq<EntryView>, e: EntryView)
    ensures
        remember_spec(history, e).len() <= MAX_HISTORY,
        remember_spec(history, e)[0] == e,
{
}

/// Remembering an entry puts it first and keeps the history that was there
/// after it, in order: nothing is dropped while the history holds fewer
/// than [`MAX_HISTORY`] entries, and beyond that only the oldest go.
pub proof fn lemma_remember_keeps_history(history: Seq<EntryView>, e: EntryView)
    ensures
        remember_spec(history, e).len() == (if history.len() < MAX_HISTORY {
            history.len() + 1int
        } else {
            MAX_HISTORY as int
        }),
        remember_spec(history, e)[0] == e,
        forall|i: int|
            0 <= i < remember_spec(history, e).len() - 1 ==> remember_spec(history, e)[i + 1]
                == #[trigger] history[i],
{
    let h = seq![e] + history;
    assert forall|i: int| 0 <= i < remember_spec(history, e).len() - 1 implies remember_spec(history, e)[i + 1]
        == #[trigger] history[i] by {
        assert(h[i + 1] == history[i]);
    }
}

/// `i` is the first position of an entry with this id.
pub open spec fn first_entry_with_id(h: Seq<EntryView>, id: i64, i: int) -> bool {
    0 <= i < h.len() && h[i].id == id && forall|j: int| 0 <= j < i ==> (#[trigger] h[j]).id != id
}

/// The first entry with this id, if any.
pub open spec fn entry_with_id(h: Seq<EntryView>, id: i64) -> Option<EntryView> {
    if exists|i: int| first_entry_with_id(h, id, i) {
        Some(h[choose|i: int| first_entry_with_id(h, id, i)])
    } else {
        None
    }
}

proof fn lemma_first_entry_unique(h: Seq<EntryView>, id: i64, a: int, b: int)
    requires
        first_entry_with_id(h, id, a),
        first_entry_with_id(h, id, b),
    ensures
        a == b,
{
    if a < b {
        assert(h[a].id != id);
    }
    if b < a {
        assert(h[b].id != id);
    }
}

/// The position of the first entry with this id, if any.
pub fn position_of(history: &Vec<ClipboardEntry>, id: i64) -> (r: Option<usize>)
    ensures
        match r {
            Some(i) => first_entry_with_id(entry_views(history@), id, i as int) && entry_with_id(
                entry_views(history@),
                id,
            ) == Some(history@[i as int]@),
            None => entry_with_id(entry_views(history@), id) is None && forall|i: int|
                0 <= i < history.len() ==> (#[trigger] history@[i]).id != id,
        },
{
    let ghost h = entry_views(history@);
    let mut i: usize = 0;
    while i < history.len()
        invariant
            i <= history.len(),
            h == entry_views(history@),
            forall|j: int| 0 <= j < i ==> (#[trigger] history@[j]).id != id,
        decreases history.len() - i,
    {
        if history[i].id == id {
            proof {
                assert forall|j: int| 0 <= j < i implies (#[trigger] h[j]).id != id by {
                    assert(history@[j].id != id);
                }
                assert(first_entry_with_id(h, id, i as int));
                let c = choose|k: int| first_entry_with_id(h, id, k);
                lemma_first_entry_unique(h, id, c, i as int);
            }
            return Some(i);
        }
        i = i + 1;
    }
    assert forall|k: int| !first_entry_with_id(h, id, k) by {
        if 0 <= k < history.len() {
            assert(history@[k].id != id);
        }
    }
    None
}

/// A copy of the first entry with this id.
pub fn get_entry(id: i64, history: &Vec<ClipboardEntry>) -> (r: Option<ClipboardEntry>)
    ensures
        match r {
            Some(e) => entry_with_id(entry_views(history@), id) == Some(e@),
            None => entry_with_id(entry_views(history@), id) is None,
        },
{
    match position_of(history, id) {
        Some(i) => Some(history[i].duplicate()),
        None => None,
    }
}

/// The text that pasting entry `id` puts on the clipboard: its text, link or
/// file paths, nothing for an image or an unknown id.
pub open spec fn entry_text_spec(h: Seq<EntryView>, id: i64) -> Seq<char> {
    match entry_with_id(h, id) {
        Some(e) => match e.kind {
            KindView::Text(t) => t,
            KindView::Link(t) => t,
            KindView::FilePath(t) => t,
            KindView::Image { .. } => Seq::empty(),
        },
        None => Seq::empty(),
    }
}

pub fn get_entry_text(id: i64, history: &Vec<ClipboardEntry>) -> (t: String)
    ensures
        t@ == entry_text_spec(entry_views(history@), id),
{
    match position_of(history, id) {
        Some(i) => match &history[i].kind {
            EntryKind::Text(t) => t.clone(),
            EntryKind::Link(t) => t.clone(),
            EntryKind::FilePath(t) => t.clone(),
            EntryKind::Image { .. } => String::new(),
        },
        None => String::new(),
    }
}

/// Flips the pin of the first entry with this id and gives its new flag
/// (to be stored); `None`, with the history unchanged, when no entry has
/// this id.
pub fn toggle_pinned_in(history: &mut Vec<ClipboardEntry>, id: i64) -> (r: Option<bool>)
    ensures
        match r {
            Some(v) => exists|i: int|
                first_entry_with_id(entry_views(old(history)@), id, i) && v == !old(history)@[i].pinned
                    && entry_views(final(history)@) == entry_views(old(history)@).update(
                    i,
                    EntryView { pinned: v, ..old(history)@[i]@ },
                ),
            None => entry_with_id(entry_views(old(history)@), id) is None && final(history)@
                == old(history)@,
        },
{
    let ghost before = entry_views(history@);
    match position_of(history, id) {
        Some(i) => {
            let mut e = history.remove(i);
            e.pinned = !e.pinned;
            let v = e.pinned;
            let ghost ev = e@;
            history.insert(i, e);
            assert(entry_views(history@) =~= before.update(i as int, ev));
            Some(v)
        },
        None => None,
    }
}

/// The history without the entries that have this id.
pub open spec fn without_id(h: Seq<EntryView>, id: i64) -> Seq<EntryView>
    decreases h.len(),
{
    if h.len() == 0 {
        Seq::empty()
    } else {
        let rest = without_id(h.drop_last(), id);
        if h.last().id == id {
            rest
        } else {
            rest.push(h.last())
        }
    }
}

/// Removes every entry with this id from the history.
pub fn remove_entries_with_id(history: &mut Vec<ClipboardEntry>, id: i64)
    ensures
        entry_views(final(history)@) == without_id(entry_views(old(history)@), id),
{
    let ghost before = entry_views(history@);
    let mut rest: Vec<ClipboardEntry> = Vec::new();
    std::mem::swap(history, &mut rest);
    let ghost all = rest@;
    assert(all.len() == rest.len());
    let mut taken: usize = 0;
    while rest.len() > 0
        invariant
            entry_views(all) == before,
            taken + rest.len() == all.len(),
            all.len() <= usize::MAX,
            rest@ == all.skip(taken as int),
            entry_views(history@) == without_id(before.take(taken as int), id),
        decreases rest.len(),
    {
        let e = rest.remove(0);
        let ghost ev = e@;
        assert(all[taken as int] == e);
        assert(before.take(taken + 1).drop_last() =~= before.take(taken as int));
        assert(before.take(taken + 1).last() == ev);
        if e.id != id {
            let ghost prev = entry_views(history@);
            history.push(e);
            assert(entry_views(history@) =~= prev.push(ev));
        }
        taken = taken + 1;
        assert(rest@ =~= all.skip(taken as int));
    }
    assert(before.take(taken as int) =~= before);
}

/// After removing an id, no entry with it is left.
pub proof fn lemma_removed_id_gone(h: Seq<EntryView>, id: i64)
    ensures
        forall|i: int| 0 <= i < without_id(h, id).len() ==> (#[trigger] without_id(h, id)[i]).id
            != id,
    decreases h.len(),
{
    if h.len() > 0 {
        lemma_removed_id_gone(h.drop_last(), id);
    }
}

} // verus!
