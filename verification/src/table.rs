use vstd::prelude::*;
use crate::like::{
    like, like_match, occurs_at_ignoring_ascii_case, sqlite_codes, sqlite_text, sqlite_text_of,
    lemma_sqlite_reads_utf8, ANY_ONE, ANY_RUN,
};
use crate::models::{ClipboardEntry, EntryView, KindView, same_bytes};
use crate::order::{newest_first_order, order_newest_first};
use crate::row::{RowView, StoredRow, row_to_entry, row_to_entry_spec, opt_chars};
use crate::text::{push_char, push_str, str_equal, string_of, utf8_bytes};

verus! {

/// At most this many entries come back from a search.
pub const SEARCH_LIMIT: usize = 100;

/// The longest `LIKE` pattern, in bytes, that SQLite evaluates by default;
/// a longer one makes the query fail.
pub const LIKE_PATTERN_LIMIT: usize = 50000;

pub open spec fn row_views(rows: Seq<StoredRow>) -> Seq<RowView> {
    rows.map_values(|r: StoredRow| r@)
}

pub open spec fn entry_views(es: Seq<ClipboardEntry>) -> Seq<EntryView> {
    es.map_values(|e: ClipboardEntry| e@)
}

/// The `created_at` column of the rows.
pub open spec fn created_keys(rows: Seq<RowView>) -> Seq<i64> {
    rows.map_values(|r: RowView| r.created_at)
}

/// The entries that the rows at `order` stand for, in that order, skipping
/// rows of an unrecognised kind.
pub open spec fn entries_in_order(rows: Seq<RowView>, order: Seq<usize>) -> Seq<EntryView>
    decreases order.len(),
{
    if order.len() == 0 {
        Seq::empty()
    } else {
        let prev = entries_in_order(rows, order.drop_last());
        match row_to_entry_spec(rows[order.last() as int]) {
            Some(e) => prev.push(e),
            None => prev,
        }
    }
}

/// The first `limit` positions of `order`, or all of them when there are fewer.
pub open spec fn limited(order: Seq<usize>, limit: int) -> Seq<usize> {
    if order.len() > limit {
        order.take(limit)
    } else {
        order
    }
}

pub open spec fn every_row(rows: Seq<RowView>) -> Seq<bool> {
    Seq::new(rows.len(), |i: int| true)
}

/// `WHERE pinned = 1`.
pub open spec fn pinned_rows(rows: Seq<RowView>) -> Seq<bool> {
    Seq::new(rows.len(), |i: int| rows[i].pinned == 1)
}

/// The `LIKE` pattern a search for `query` uses.
pub open spec fn search_pattern(query: Seq<char>) -> Seq<char> {
    seq!['%'] + query + seq!['%']
}

/// The character codes SQLite reads from the pattern of a search for
/// `query`.
pub open spec fn search_codes(query: Seq<char>) -> Seq<u32> {
    sqlite_text(vstd::utf8::encode_utf8(search_pattern(query)))
}

/// The pattern of a search for `query` is longer than SQLite accepts.
pub open spec fn pattern_too_long(query: Seq<char>) -> bool {
    vstd::utf8::encode_utf8(search_pattern(query)).len() > LIKE_PATTERN_LIMIT
}

/// `WHERE kind != 'image' AND content LIKE pattern`, the content read as
/// SQLite reads the bytes of a text.
pub open spec fn search_rows(rows: Seq<RowView>, pattern: Seq<u32>) -> Seq<bool> {
    Seq::new(
        rows.len(),
        |i: int| rows[i].kind != "image"@ && like_match(pattern, sqlite_text(rows[i].content)),
    )
}

/// All entries, newest first.
pub open spec fn load_all_spec(rows: Seq<RowView>) -> Seq<EntryView> {
    entries_in_order(rows, newest_first_order(created_keys(rows), every_row(rows)))
}

/// The pinned entries, newest first.
pub open spec fn load_pinned_spec(rows: Seq<RowView>) -> Seq<EntryView> {
    entries_in_order(rows, newest_first_order(created_keys(rows), pinned_rows(rows)))
}

/// The newest [`SEARCH_LIMIT`] rows that are not images and whose content
/// holds `query` (as a `LIKE` pattern), as entries; none when the pattern
/// is too long for SQLite (the query fails and no row comes back).
pub open spec fn search_spec(rows: Seq<RowView>, query: Seq<char>) -> Seq<EntryView> {
    if pattern_too_long(query) {
        Seq::empty()
    } else {
        entries_in_order(
            rows,
            limited(
                newest_first_order(created_keys(rows), search_rows(rows, search_codes(query))),
                SEARCH_LIMIT as int,
            ),
        )
    }
}

fn keys_of(rows: &Vec<StoredRow>) -> (keys: Vec<i64>)
    ensures
        keys@ == created_keys(row_views(rows@)),
{
    let mut keys: Vec<i64> = Vec::new();
    let mut i: usize = 0;
    while i < rows.len()
        invariant
            i <= rows.len(),
            keys@ == created_keys(row_views(rows@)).take(i as int),
        decreases rows.len() - i,
    {
        keys.push(rows[i].created_at);
        i = i + 1;
        assert(keys@ =~= created_keys(row_views(rows@)).take(i as int));
    }
    assert(keys@ =~= created_keys(row_views(rows@)));
    keys
}

fn collect_entries(rows: &Vec<StoredRow>, order: &Vec<usize>, limit: usize) -> (es: Vec<ClipboardEntry>)
    requires
        forall|i: int| 0 <= i < order.len() ==> (#[trigger] order@[i]) < rows.len(),
    ensures
        entry_views(es@) == entries_in_order(row_views(rows@), limited(order@, limit as int)),
{
    let ghost rv = row_views(rows@);
    let end = if order.len() > limit { limit } else { order.len() };
    let ghost lim = limited(order@, limit as int);
    assert(lim =~= order@.take(end as int));
    let mut es: Vec<ClipboardEntry> = Vec::new();
    let mut k: usize = 0;
    while k < end
        invariant
            end <= order.len(),
            k <= end,
            rv == row_views(rows@),
            lim == order@.take(end as int),
            forall|i: int| 0 <= i < order.len() ==> (#[trigger] order@[i]) < rows.len(),
            entry_views(es@) == entries_in_order(rv, order@.take(k as int)),
        decreases end - k,
    {
        let pos = order[k];
        let ghost prev_es = es@;
        assert(order@.take(k + 1).drop_last() =~= order@.take(k as int));
        match row_to_entry(&rows[pos]) {
            Some(e) => {
                es.push(e);
                assert(entry_views(es@) =~= entry_views(prev_es).push(e@));
            },
            None => {},
        }
        k = k + 1;
    }
    es
}

fn all_true(n: usize) -> (mask: Vec<bool>)
    ensures
        mask@ == Seq::new(n as nat, |i: int| true),
{
    let mut mask: Vec<bool> = Vec::new();
    while mask.len() < n
        invariant
            mask.len() <= n,
            forall|i: int| 0 <= i < mask.len() ==> mask@[i],
        decreases n - mask.len(),
    {
        mask.push(true);
    }
    assert(mask@ =~= Seq::new(n as nat, |i: int| true));
    mask
}

/// All entries, newest first (`ORDER BY created_at DESC`, ties in table
/// order); rows of an unrecognised kind are skipped.
pub fn load_all(rows: &Vec<StoredRow>) -> (es: Vec<ClipboardEntry>)
    ensures
        entry_views(es@) == load_all_spec(row_views(rows@)),
{
    let keys = keys_of(rows);
    let mask = all_true(rows.len());
    assert(mask@ =~= every_row(row_views(rows@)));
    let order = order_newest_first(&keys, &mask);
    let es = collect_entries(rows, &order, order.len());
    assert(limited(order@, order.len() as int) == order@);
    es
}

/// Only the pinned entries (`pinned = 1`), newest first.
pub fn load_pinned(rows: &Vec<StoredRow>) -> (es: Vec<ClipboardEntry>)
    ensures
        entry_views(es@) == load_pinned_spec(row_views(rows@)),
{
    let keys = keys_of(rows);
    let mut mask: Vec<bool> = Vec::new();
    let ghost rv = row_views(rows@);
    while mask.len() < rows.len()
        invariant
            mask.len() <= rows.len(),
            rv == row_views(rows@),
            forall|i: int| 0 <= i < mask.len() ==> mask@[i] == (rv[i].pinned == 1),
        decreases rows.len() - mask.len(),
    {
        let i = mask.len();
        mask.push(rows[i].pinned == 1);
    }
    assert(mask@ =~= pinned_rows(rv));
    let order = order_newest_first(&keys, &mask);
    let es = collect_entries(rows, &order, order.len());
    assert(limited(order@, order.len() as int) == order@);
    es
}

/// The newest [`SEARCH_LIMIT`] non-image entries whose content holds
/// `query`, where `%` and `_` in `query` act as `LIKE` wildcards; none when
/// the pattern is longer than [`LIKE_PATTERN_LIMIT`] bytes.
pub fn search(rows: &Vec<StoredRow>, query: &str) -> (es: Vec<ClipboardEntry>)
    ensures
        entry_views(es@) == search_spec(row_views(rows@), query@),
{
    let mut pattern = string_of("%");
    push_str(&mut pattern, query);
    push_char(&mut pattern, '%');
    proof {
        reveal_strlit("%");
        assert(pattern@ =~= search_pattern(query@));
    }
    let pattern_bytes = utf8_bytes(pattern.as_str());
    if pattern_bytes.len() > LIKE_PATTERN_LIMIT {
        let es: Vec<ClipboardEntry> = Vec::new();
        assert(entry_views(es@) =~= Seq::<EntryView>::empty());
        return es;
    }
    let codes = sqlite_text_of(&pattern_bytes);
    let keys = keys_of(rows);
    let ghost rv = row_views(rows@);
    let ghost spec_mask = search_rows(rv, codes@);
    let mut mask: Vec<bool> = Vec::new();
    while mask.len() < rows.len()
        invariant
            mask.len() <= rows.len(),
            rv == row_views(rows@),
            spec_mask == search_rows(rv, codes@),
            forall|i: int| 0 <= i < mask.len() ==> mask@[i] == spec_mask[i],
        decreases rows.len() - mask.len(),
    {
        let i = mask.len();
        let row = &rows[i];
        let selected = if str_equal(row.kind.as_str(), "image") {
            false
        } else {
            let text = sqlite_text_of(&row.content);
            like(&codes, &text)
        };
        mask.push(selected);
    }
    assert(mask@ =~= spec_mask);
    let order = order_newest_first(&keys, &mask);
    collect_entries(rows, &order, SEARCH_LIMIT)
}

} // verus!

verus! {

pub open spec fn is_text_row(row: RowView) -> bool {
    row.kind == "text"@ || row.kind == "link"@
}

/// Some text or link row holds exactly the UTF-8 bytes of `text`.
pub open spec fn text_exists_spec(rows: Seq<RowView>, text: Seq<char>) -> bool {
    exists|i: int|
        0 <= i < rows.len() && is_text_row(#[trigger] rows[i]) && rows[i].content
            == vstd::utf8::encode_utf8(text)
}

/// Whether a text or link entry with exactly this text is stored.
pub fn is_text_exists(rows: &Vec<StoredRow>, text: &str) -> (b: bool)
    ensures
        b == text_exists_spec(row_views(rows@), text@),
{
    let ghost rv = row_views(rows@);
    let bytes = crate::text::utf8_bytes(text);
    let mut i: usize = 0;
    while i < rows.len()
        invariant
            i <= rows.len(),
            rv == row_views(rows@),
            bytes@ == vstd::utf8::encode_utf8(text@),
            forall|k: int|
                0 <= k < i ==> !(is_text_row(#[trigger] rv[k]) && rv[k].content == bytes@),
        decreases rows.len() - i,
    {
        let row = &rows[i];
        if (str_equal(row.kind.as_str(), "text") || str_equal(row.kind.as_str(), "link"))
            && same_bytes(&row.content, &bytes) {
            assert(is_text_row(rv[i as int]) && rv[i as int].content == bytes@);
            return true;
        }
        i = i + 1;
    }
    false
}

/// `i` is the first position of a row with this id.
pub open spec fn first_with_id(rows: Seq<RowView>, id: i64, i: int) -> bool {
    0 <= i < rows.len() && rows[i].id == id && forall|j: int| 0 <= j < i ==> (#[trigger] rows[j]).id != id
}

/// `i` is the first position of an image row with this id.
pub open spec fn first_image_with_id(rows: Seq<RowView>, id: i64, i: int) -> bool {
    0 <= i < rows.len() && rows[i].id == id && rows[i].kind == "image"@ && forall|j: int|
        0 <= j < i ==> !((#[trigger] rows[j]).id == id && rows[j].kind == "image"@)
}

/// Only one position is the first with a given id.
proof fn lemma_first_with_id_unique(rows: Seq<RowView>, id: i64, a: int, b: int)
    requires
        first_with_id(rows, id, a),
        first_with_id(rows, id, b),
    ensures
        a == b,
{
    if a < b {
        assert(rows[a].id == id);
    }
    if b < a {
        assert(rows[b].id == id);
    }
}

/// The position of the first row with this id, if any.
pub fn find_row(rows: &Vec<StoredRow>, id: i64) -> (r: Option<usize>)
    ensures
        match r {
            Some(i) => first_with_id(row_views(rows@), id, i as int) && forall|k: int|
                #[trigger] first_with_id(row_views(rows@), id, k) ==> k == i,
            None => forall|i: int| 0 <= i < rows.len() ==> (#[trigger] rows@[i]).id != id,
        },
        r is None <==> forall|k: int| !(#[trigger] first_with_id(row_views(rows@), id, k)),
{
    let ghost rv = row_views(rows@);
    let mut i: usize = 0;
    while i < rows.len()
        invariant
            i <= rows.len(),
            rv == row_views(rows@),
            forall|j: int| 0 <= j < i ==> (#[trigger] rows@[j]).id != id,
        decreases rows.len() - i,
    {
        if rows[i].id == id {
            assert forall|j: int| 0 <= j < i implies (#[trigger] rv[j]).id != id by {
                assert(rows@[j].id != id);
            }
            assert forall|k: int| #[trigger] first_with_id(rv, id, k) implies k == i by {
                lemma_first_with_id_unique(rv, id, k, i as int);
            }
            assert(first_with_id(rv, id, i as int));
            return Some(i);
        }
        i = i + 1;
    }
    assert forall|k: int| !(#[trigger] first_with_id(rv, id, k)) by {
        if 0 <= k < rows.len() {
            assert(rows@[k].id != id);
        }
    }
    None
}

/// The bytes of the image entry `id`: from its file when it was stored on
/// disk (nothing when that file could not be read), else from its row;
/// `None` when there is no image entry with this id.
pub fn get_image_bytes(rows: &Vec<StoredRow>, id: i64) -> (r: Option<Vec<u8>>)
    ensures
        match r {
            Some(b) => exists|i: int|
                first_image_with_id(row_views(rows@), id, i) && b@
                    == crate::row::row_image_bytes(row_views(rows@)[i]),
            None => forall|i: int|
                0 <= i < rows.len() ==> !((#[trigger] row_views(rows@)[i]).id == id
                    && row_views(rows@)[i].kind == "image"@),
        },
{
    let ghost rv = row_views(rows@);
    let mut i: usize = 0;
    while i < rows.len()
        invariant
            i <= rows.len(),
            rv == row_views(rows@),
            forall|j: int| 0 <= j < i ==> !((#[trigger] rv[j]).id == id && rv[j].kind == "image"@),
        decreases rows.len() - i,
    {
        if rows[i].id == id && str_equal(rows[i].kind.as_str(), "image") {
            let b = crate::row::image_bytes_of_row(&rows[i]);
            assert(first_image_with_id(rv, id, i as int));
            return Some(b);
        }
        i = i + 1;
    }
    None
}

/// What toggling the pin of entry `id` writes: the opposite of its stored
/// flag, or nothing when there is no such entry.
pub open spec fn toggle_pin_spec(rows: Seq<RowView>, id: i64) -> Option<bool> {
    if exists|i: int| first_with_id(rows, id, i) {
        let i = choose|i: int| first_with_id(rows, id, i);
        Some(rows[i].pinned == 0)
    } else {
        None
    }
}

/// The new pinned flag that toggling entry `id` stores, `None` when no entry
/// has this id (nothing is written then).
pub fn toggle_pin(rows: &Vec<StoredRow>, id: i64) -> (r: Option<bool>)
    ensures
        r == toggle_pin_spec(row_views(rows@), id),
{
    let ghost rv = row_views(rows@);
    match find_row(rows, id) {
        Some(i) => {
            Some(!(rows[i].pinned != 0))
        },
        None => None,
    }
}

/// The image file to remove when deleting entry `id`: that of the first row
/// with this id, if it has one.
pub open spec fn delete_spec(rows: Seq<RowView>, id: i64) -> Option<Seq<char>> {
    if exists|i: int| first_with_id(rows, id, i) {
        let i = choose|i: int| first_with_id(rows, id, i);
        rows[i].image_path
    } else {
        None
    }
}

/// The on-disk image to remove before deleting entry `id` (every row with
/// this id is then deleted).
pub fn delete(rows: &Vec<StoredRow>, id: i64) -> (r: Option<String>)
    ensures
        opt_chars(r) == delete_spec(row_views(rows@), id),
{
    let ghost rv = row_views(rows@);
    match find_row(rows, id) {
        Some(i) => {
            match &rows[i].image_path {
                Some(p) => Some(p.clone()),
                None => None,
            }
        },
        None => None,
    }
}

} // verus!

verus! {

proof fn lemma_entries_in_order_len(rows: Seq<RowView>, order: Seq<usize>)
    ensures
        entries_in_order(rows, order).len() <= order.len(),
    decreases order.len(),
{
    if order.len() > 0 {
        lemma_entries_in_order_len(rows, order.drop_last());
    }
}

/// A search gives at most [`SEARCH_LIMIT`] entries.
pub proof fn lemma_search_limit(rows: Seq<RowView>, query: Seq<char>)
    ensures
        search_spec(rows, query).len() <= SEARCH_LIMIT,
{
    if !pattern_too_long(query) {
        let o = newest_first_order(created_keys(rows), search_rows(rows, search_codes(query)));
        lemma_entries_in_order_len(rows, limited(o, SEARCH_LIMIT as int));
    }
}

/// A search for a query free of `%`, `_` and `NUL` selects exactly the rows
/// that are not images and whose content, read as SQLite reads a text,
/// holds the query's characters, ASCII letters compared without regard to
/// case.
pub proof fn lemma_search_selects_containing(rows: Seq<RowView>, query: Seq<char>, i: int)
    requires
        forall|k: int|
            0 <= k < query.len() ==> (#[trigger] query[k]) != '%' && query[k] != '_' && query[k]
                != '\0',
        0 <= i < rows.len(),
    ensures
        search_rows(rows, search_codes(query))[i] <==> (rows[i].kind != "image"@ && exists|at: int|
            occurs_at_ignoring_ascii_case(sqlite_text(rows[i].content), sqlite_codes(query), at)),
{
    let p = search_pattern(query);
    assert forall|k: int| 0 <= k < p.len() implies #[trigger] p[k] != '\0' by {
        if 0 < k < p.len() - 1 {
            assert(p[k] == query[k - 1]);
        }
    }
    lemma_sqlite_reads_utf8(p);
    let q = sqlite_codes(query);
    assert(sqlite_codes(p) =~= seq![ANY_RUN] + q + seq![ANY_RUN]);
    assert forall|k: int| 0 <= k < q.len() implies (#[trigger] q[k]) != ANY_RUN && q[k] != ANY_ONE by {
        assert(query[k] != '%' && query[k] != '_');
        let u = query[k] as u32;
        if u == ANY_RUN {
            vstd::utf8::char_u32_cast(query[k], u);
            vstd::utf8::char_u32_cast('%', ANY_RUN);
        }
        if u == ANY_ONE {
            vstd::utf8::char_u32_cast(query[k], u);
            vstd::utf8::char_u32_cast('_', ANY_ONE);
        }
    }
    crate::like::lemma_like_finds_substring(q, sqlite_text(rows[i].content));
}

/// The rows after `UPDATE ... SET pinned = v WHERE id = id`.
pub open spec fn with_pinned(rows: Seq<RowView>, id: i64, v: bool) -> Seq<RowView> {
    rows.map_values(
        |r: RowView|
            if r.id == id {
                RowView {
                    pinned: if v {
                        1
                    } else {
                        0
                    },
                    ..r
                }
            } else {
                r
            },
    )
}

/// Toggling a pin twice gives back the flag it started with.
pub proof fn lemma_toggle_twice(rows: Seq<RowView>, id: i64)
    requires
        toggle_pin_spec(rows, id) is Some,
    ensures
        ({
            let first = toggle_pin_spec(rows, id)->0;
            let i = choose|i: int| first_with_id(rows, id, i);
            toggle_pin_spec(with_pinned(rows, id, first), id) == Some(rows[i].pinned != 0)
        }),
{
    let first = toggle_pin_spec(rows, id)->0;
    let i = choose|i: int| first_with_id(rows, id, i);
    let after = with_pinned(rows, id, first);
    assert(first_with_id(after, id, i)) by {
        assert forall|j: int| 0 <= j < i implies (#[trigger] after[j]).id != id by {
            assert(rows[j].id != id);
        }
    }
    let c = choose|k: int| first_with_id(after, id, k);
    assert(c == i) by {
        if c < i {
            assert(rows[c].id != id);
        }
        if c > i {
            assert(after[i].id == id);
        }
    }
}

/// After a text entry is stored, asking whether its text exists says yes,
/// whatever rows stand before or after it.
pub proof fn lemma_stored_text_exists(
    rows: Seq<RowView>,
    k: int,
    t: Seq<char>,
    e: EntryView,
    dir: Seq<char>,
    id: i64,
)
    requires
        0 <= k < rows.len(),
        rows[k] == crate::row::stored(crate::row::entry_to_row_spec(e, id, dir), id, None),
        e.kind == crate::models::KindView::Text(t),
    ensures
        text_exists_spec(rows, t),
{
    assert(is_text_row(rows[k]));
}

} // verus!

verus! {

/// Every entry that `entries_in_order` gives is what some listed row stands
/// for.
proof fn lemma_entries_come_from(rows: Seq<RowView>, order: Seq<usize>)
    ensures
        forall|k: int|
            0 <= k < entries_in_order(rows, order).len() ==> exists|q: int|
                0 <= q < order.len() && row_to_entry_spec(rows[order[q] as int]) == Some(
                    #[trigger] entries_in_order(rows, order)[k],
                ),
    decreases order.len(),
{
    if order.len() > 0 {
        let prev_order = order.drop_last();
        lemma_entries_come_from(rows, prev_order);
        let prev = entries_in_order(rows, prev_order);
        let cur = entries_in_order(rows, order);
        assert forall|k: int| 0 <= k < cur.len() implies exists|q: int|
            0 <= q < order.len() && row_to_entry_spec(rows[order[q] as int]) == Some(
                #[trigger] cur[k],
            ) by {
            if k < prev.len() {
                assert(cur[k] == prev[k]);
                let q = choose|q: int|
                    0 <= q < prev_order.len() && row_to_entry_spec(rows[prev_order[q] as int])
                        == Some(#[trigger] prev[k]);
                assert(order[q] == prev_order[q]);
            } else {
                assert(order[order.len() - 1] == order.last());
            }
        }
    }
}

/// Entries taken from rows listed newest first come newest first.
proof fn lemma_entries_newest_first(rows: Seq<RowView>, order: Seq<usize>)
    requires
        crate::order::newest_first(created_keys(rows), order),
        forall|i: int| 0 <= i < order.len() ==> (#[trigger] order[i]) < rows.len(),
    ensures
        forall|a: int, b: int|
            0 <= a < b < entries_in_order(rows, order).len() ==> (#[trigger] entries_in_order(
                rows,
                order,
            )[a]).timestamp >= (#[trigger] entries_in_order(rows, order)[b]).timestamp,
    decreases order.len(),
{
    if order.len() > 0 {
        let prev_order = order.drop_last();
        assert forall|i: int, j: int| 0 <= i < j < prev_order.len() implies crate::order::precedes(created_keys(rows), #[trigger] prev_order[i], #[trigger] prev_order[j]) by {
            assert(crate::order::precedes(created_keys(rows), order[i], order[j]));
        }
        lemma_entries_newest_first(rows, prev_order);
        lemma_entries_come_from(rows, prev_order);
        let prev = entries_in_order(rows, prev_order);
        let cur = entries_in_order(rows, order);
        let last = order.last();
        assert forall|a: int, b: int| 0 <= a < b < cur.len() implies (#[trigger] cur[a]).timestamp >= (#[trigger] cur[b]).timestamp by {
            if b < prev.len() {
                assert(cur[a] == prev[a] && cur[b] == prev[b]);
            } else {
                assert(cur[a] == prev[a]);
                assert(row_to_entry_spec(rows[last as int]) == Some(cur[b]));
                let q = choose|q: int|
                    0 <= q < prev_order.len() && row_to_entry_spec(rows[prev_order[q] as int])
                        == Some(#[trigger] prev[a]);
                assert(crate::order::precedes(created_keys(rows), order[q], order[order.len() - 1]));
                assert(created_keys(rows)[order[q] as int] == rows[order[q] as int].created_at);
                assert(created_keys(rows)[last as int] == rows[last as int].created_at);
            }
        }
    }
}

/// Everything loads newest first.
pub proof fn lemma_load_all_newest_first(rows: Seq<RowView>)
    requires
        rows.len() <= usize::MAX,
    ensures
        forall|a: int, b: int|
            0 <= a < b < load_all_spec(rows).len() ==> (#[trigger] load_all_spec(rows)[a]).timestamp
                >= (#[trigger] load_all_spec(rows)[b]).timestamp,
{
    let keys = created_keys(rows);
    let mask = every_row(rows);
    crate::order::lemma_selection_exists(keys, mask);
    lemma_entries_newest_first(rows, newest_first_order(keys, mask));
}

/// Loading the pinned entries gives only pinned entries, newest first.
pub proof fn lemma_load_pinned_only_pinned(rows: Seq<RowView>)
    requires
        rows.len() <= usize::MAX,
    ensures
        forall|k: int| 0 <= k < load_pinned_spec(rows).len() ==> (#[trigger] load_pinned_spec(rows)[k]).pinned,
        forall|a: int, b: int|
            0 <= a < b < load_pinned_spec(rows).len() ==> (#[trigger] load_pinned_spec(rows)[a]).timestamp
                >= (#[trigger] load_pinned_spec(rows)[b]).timestamp,
{
    let keys = created_keys(rows);
    let mask = pinned_rows(rows);
    crate::order::lemma_selection_exists(keys, mask);
    let o = newest_first_order(keys, mask);
    lemma_entries_come_from(rows, o);
    lemma_entries_newest_first(rows, o);
    assert forall|k: int| 0 <= k < load_pinned_spec(rows).len() implies (#[trigger] load_pinned_spec(rows)[k]).pinned by {
        let q = choose|q: int|
            0 <= q < o.len() && row_to_entry_spec(rows[o[q] as int]) == Some(#[trigger] load_pinned_spec(rows)[k]);
        assert(mask[o[q] as int]);
    }
}

/// A search never gives an image.
pub proof fn lemma_search_no_images(rows: Seq<RowView>, query: Seq<char>)
    requires
        rows.len() <= usize::MAX,
    ensures
        forall|k: int| 0 <= k < search_spec(rows, query).len() ==> !((#[trigger] search_spec(rows, query)[k]).kind is Image),
{
    if !pattern_too_long(query) {
        let keys = created_keys(rows);
        let mask = search_rows(rows, search_codes(query));
        crate::order::lemma_selection_exists(keys, mask);
        let o = newest_first_order(keys, mask);
        let lim = limited(o, SEARCH_LIMIT as int);
        lemma_entries_come_from(rows, lim);
        assert forall|k: int| 0 <= k < search_spec(rows, query).len() implies !((#[trigger] search_spec(rows, query)[k]).kind is Image) by {
            let q = choose|q: int|
                0 <= q < lim.len() && row_to_entry_spec(rows[lim[q] as int]) == Some(#[trigger] search_spec(rows, query)[k]);
            assert(lim[q] == o[q]);
            assert(mask[o[q] as int]);
            assert(rows[o[q] as int].kind != "image"@);
        }
    }
}

} // verus!

verus! {

proof fn lemma_entries_include(rows: Seq<RowView>, order: Seq<usize>, q: int, e: EntryView)
    requires
        0 <= q < order.len(),
        row_to_entry_spec(rows[order[q] as int]) == Some(e),
    ensures
        entries_in_order(rows, order).contains(e),
    decreases order.len(),
{
    let cur = entries_in_order(rows, order);
    if q == order.len() - 1 {
        assert(cur[cur.len() - 1] == e);
    } else {
        let prev_order = order.drop_last();
        assert(prev_order[q] == order[q]);
        lemma_entries_include(rows, prev_order, q, e);
        let prev = entries_in_order(rows, prev_order);
        let k = choose|k: int| 0 <= k < prev.len() && prev[k] == e;
        assert(cur[k] == prev[k]);
    }
}

/// Every row of a recognised kind loads: whatever rows stand before or after
/// it in the table, loading the history gives back the entry it stands for.
pub proof fn lemma_row_loads(rows: Seq<RowView>, k: int)
    requires
        rows.len() <= usize::MAX,
        0 <= k < rows.len(),
        row_to_entry_spec(rows[k]) is Some,
    ensures
        load_all_spec(rows).contains(row_to_entry_spec(rows[k])->0),
{
    let keys = created_keys(rows);
    let mask = every_row(rows);
    crate::order::lemma_selection_exists(keys, mask);
    let o = newest_first_order(keys, mask);
    assert(mask[k]);
    assert(o.contains(k as usize));
    let q = choose|q: int| 0 <= q < o.len() && o[q] == k as usize;
    lemma_entries_include(rows, o, q, row_to_entry_spec(rows[k])->0);
}

/// What a read gives back of a write: once an entry is stored, loading the
/// history gives it back under the id the database gave it, however many
/// rows were stored before or after it (for an image, provided its
/// dimensions are those of its PNG header and, when it went to a file,
/// reading that file gives back the bytes written to it).
pub proof fn lemma_stored_entry_loads(
    rows: Seq<RowView>,
    k: int,
    e: EntryView,
    images_dir: Seq<char>,
    id: i64,
    file: Option<Seq<u8>>,
)
    requires
        rows.len() <= usize::MAX,
        0 <= k < rows.len(),
        rows[k] == crate::row::stored(crate::row::entry_to_row_spec(e, id, images_dir), id, file),
        e.kind matches KindView::Image { bytes, width, height } ==> (width, height)
            == crate::png::png_dimensions_spec(bytes),
        crate::row::stored_on_disk(e.kind) ==> file == Some(e.kind->bytes),
    ensures
        load_all_spec(rows).contains(EntryView { id: id, kind: e.kind, timestamp: e.timestamp, pinned: e.pinned }),
{
    crate::row::lemma_entry_row_roundtrip(e, images_dir, id, file);
    lemma_row_loads(rows, k);
}

proof fn lemma_entries_in_order_first(rows: Seq<RowView>, order: Seq<usize>)
    requires
        order.len() > 0,
        row_to_entry_spec(rows[order[0] as int]) is Some,
    ensures
        entries_in_order(rows, order).len() > 0,
        entries_in_order(rows, order)[0] == row_to_entry_spec(rows[order[0] as int])->0,
    decreases order.len(),
{
    let prev_order = order.drop_last();
    if order.len() > 1 {
        assert(prev_order[0] == order[0]);
        lemma_entries_in_order_first(rows, prev_order);
    } else {
        assert(prev_order.len() == 0);
        assert(entries_in_order(rows, prev_order).len() == 0);
        assert(order.last() == order[0]);
    }
}

/// A row strictly newer than every other row heads the loaded history.
pub proof fn lemma_newest_row_heads_load_all(rows: Seq<RowView>, k: int)
    requires
        rows.len() <= usize::MAX,
        0 <= k < rows.len(),
        row_to_entry_spec(rows[k]) is Some,
        forall|j: int| 0 <= j < rows.len() && j != k ==> #[trigger] rows[j].created_at < rows[k].created_at,
    ensures
        load_all_spec(rows).len() > 0,
        load_all_spec(rows)[0] == row_to_entry_spec(rows[k])->0,
{
    let keys = created_keys(rows);
    let mask = every_row(rows);
    crate::order::lemma_selection_exists(keys, mask);
    let o = newest_first_order(keys, mask);
    assert(mask[k]);
    assert(o.contains(k as usize));
    let q = choose|q: int| 0 <= q < o.len() && o[q] == k as usize;
    if q > 0 {
        assert(crate::order::precedes(keys, o[0], o[q]));
        let f = o[0] as int;
        assert(f < rows.len());
        assert(f != k);
        assert(rows[f].created_at < rows[k].created_at);
        assert(keys[f] == rows[f].created_at);
        assert(keys[k] == rows[k].created_at);
    }
    lemma_entries_in_order_first(rows, o);
}

/// A newest-first selection lists each selected position once, so it is as
/// long as the set of selected positions.
proof fn lemma_selection_count(keys: Seq<i64>, mask: Seq<bool>, o: Seq<usize>)
    requires
        crate::order::is_newest_first_selection(keys, mask, o),
        mask.len() <= usize::MAX,
    ensures
        Set::new(|j: int| 0 <= j < mask.len() && mask[j]).finite(),
        o.len() == Set::new(|j: int| 0 <= j < mask.len() && mask[j]).len(),
{
    let sel = Set::new(|j: int| 0 <= j < mask.len() && mask[j]);
    assert(o.no_duplicates()) by {
        assert forall|a: int, b: int| 0 <= a < o.len() && 0 <= b < o.len() && a != b implies o[a] != o[b] by {
            if a < b {
                assert(crate::order::precedes(keys, o[a], o[b]));
            } else {
                assert(crate::order::precedes(keys, o[b], o[a]));
            }
        }
    }
    o.unique_seq_to_set();
    let f = |u: usize| u as int;
    assert(o.to_set().map(f) =~= sel) by {
        assert forall|j: int| sel.contains(j) implies o.to_set().map(f).contains(j) by {
            assert(o.contains(j as usize));
            assert(o.to_set().contains(j as usize));
            assert(f(j as usize) == j);
        }
        assert forall|j: int| o.to_set().map(f).contains(j) implies sel.contains(j) by {
            let u = choose|u: usize| o.to_set().contains(u) && f(u) == j;
            let k = choose|k: int| 0 <= k < o.len() && o[k] == u;
            assert(mask[o[k] as int]);
        }
    }
    assert(vstd::relations::injective_on(f, o.to_set()));
    vstd::set_lib::lemma_map_size(o.to_set(), sel, f);
}

/// A search finds every match: when its pattern is not too long and at most
/// [`SEARCH_LIMIT`] rows are not images and have content matching it, every
/// such row of a recognised kind gives its entry, whatever its kind.
pub proof fn lemma_search_finds_every_match(rows: Seq<RowView>, query: Seq<char>, k: int)
    requires
        rows.len() <= usize::MAX,
        !pattern_too_long(query),
        Set::new(
            |j: int|
                0 <= j < rows.len() && rows[j].kind != "image"@ && like_match(
                    search_codes(query),
                    sqlite_text(rows[j].content),
                ),
        ).len() <= SEARCH_LIMIT,
        0 <= k < rows.len(),
        rows[k].kind != "image"@,
        like_match(search_codes(query), sqlite_text(rows[k].content)),
        row_to_entry_spec(rows[k]) is Some,
    ensures
        search_spec(rows, query).contains(row_to_entry_spec(rows[k])->0),
{
    let keys = created_keys(rows);
    let mask = search_rows(rows, search_codes(query));
    crate::order::lemma_selection_exists(keys, mask);
    let o = newest_first_order(keys, mask);
    lemma_selection_count(keys, mask, o);
    assert(Set::new(|j: int| 0 <= j < mask.len() && mask[j]) =~= Set::new(
        |j: int|
            0 <= j < rows.len() && rows[j].kind != "image"@ && like_match(
                search_codes(query),
                sqlite_text(rows[j].content),
            ),
    ));
    assert(limited(o, SEARCH_LIMIT as int) == o);
    assert(mask[k]);
    assert(o.contains(k as usize));
    let q = choose|q: int| 0 <= q < o.len() && o[q] == k as usize;
    lemma_entries_include(rows, o, q, row_to_entry_spec(rows[k])->0);
}

/// A search finds only matches, newest first: every entry it gives stands
/// for a row that is not an image and whose content matches the pattern,
/// and the entries come newest first.
pub proof fn lemma_search_finds_only_matches(rows: Seq<RowView>, query: Seq<char>)
    requires
        rows.len() <= usize::MAX,
    ensures
        forall|e: EntryView| #[trigger]
            search_spec(rows, query).contains(e) ==> exists|j: int|
                0 <= j < rows.len() && rows[j].kind != "image"@ && like_match(
                    search_codes(query),
                    sqlite_text(rows[j].content),
                ) && row_to_entry_spec(rows[j]) == Some(e),
        forall|a: int, b: int|
            0 <= a < b < search_spec(rows, query).len() ==> (#[trigger] search_spec(rows, query)[a]).timestamp
                >= (#[trigger] search_spec(rows, query)[b]).timestamp,
{
    if !pattern_too_long(query) {
        let keys = created_keys(rows);
        let mask = search_rows(rows, search_codes(query));
        crate::order::lemma_selection_exists(keys, mask);
        let o = newest_first_order(keys, mask);
        let lim = limited(o, SEARCH_LIMIT as int);
        assert forall|i: int| 0 <= i < lim.len() implies lim[i] == o[i] by {}
        lemma_entries_come_from(rows, lim);
        assert forall|e: EntryView| #[trigger] search_spec(rows, query).contains(e) implies exists|j: int|
            0 <= j < rows.len() && rows[j].kind != "image"@ && like_match(
                search_codes(query),
                sqlite_text(rows[j].content),
            ) && row_to_entry_spec(rows[j]) == Some(e) by {
            let r = search_spec(rows, query);
            let m = choose|m: int| 0 <= m < r.len() && r[m] == e;
            let q = choose|q: int| 0 <= q < lim.len() && row_to_entry_spec(rows[lim[q] as int]) == Some(#[trigger] r[m]);
            assert(mask[o[q] as int]);
        }
        assert forall|i: int, j: int| 0 <= i < j < lim.len() implies crate::order::precedes(keys, #[trigger] lim[i], #[trigger] lim[j]) by {
            assert(lim[i] == o[i] && lim[j] == o[j]);
        }
        assert forall|i: int| 0 <= i < lim.len() implies (#[trigger] lim[i]) < rows.len() by {
            assert(lim[i] == o[i]);
        }
        lemma_entries_newest_first(rows, lim);
    }
}

} // verus!
