use vstd::prelude::*;
use crate::order::{is_newest_first_selection, newest_first_order, order_newest_first, precedes};
use crate::row::{RowView, StoredRow, opt_chars};
use crate::table::{created_keys, row_views};
use crate::text::{parse_bool, parse_bool_spec, parse_i64, parse_i64_spec};

verus! {

/// Maximum number of unpinned clipboard entries to keep.
pub const MAX_ENTRIES_NUMBER: i64 = 30;

/// Unpinned entries older than this many seconds are pruned.
pub const PRUNE_OLD_TIME_SECS: i64 = 7 * 24 * 60 * 60;

/// Whether old entries are pruned unless a setting says otherwise.
pub const IS_PRUNE_OLD_ACTIVE: bool = true;

/// The settings that govern a cleanup.
pub struct CleanupSettings {
    pub max_entries: i64,
    pub is_prune_active: bool,
    pub prune_time_secs: i64,
}

/// A row to delete, and the image file to remove with it.
pub struct Removal {
    pub id: i64,
    pub image_path: Option<String>,
}

pub open spec fn removal_of(row: RowView) -> (i64, Option<Seq<char>>) {
    (row.id, row.image_path)
}

pub open spec fn removal_views(rs: Seq<Removal>) -> Seq<(i64, Option<Seq<char>>)> {
    rs.map_values(|r: Removal| (r.id, opt_chars(r.image_path)))
}

/// A stored integer setting, or `default` when it is missing or does not
/// parse.
pub open spec fn int_setting(stored: Option<Seq<char>>, default: i64) -> i64 {
    match stored {
        Some(s) => match parse_i64_spec(s) {
            Some(v) => v,
            None => default,
        },
        None => default,
    }
}

/// A stored boolean setting, or `default` when it is missing or does not
/// parse.
pub open spec fn bool_setting(stored: Option<Seq<char>>, default: bool) -> bool {
    match stored {
        Some(s) => match parse_bool_spec(s) {
            Some(v) => v,
            None => default,
        },
        None => default,
    }
}

pub open spec fn opt_str(o: Option<&str>) -> Option<Seq<char>> {
    match o {
        Some(s) => Some(s@),
        None => None,
    }
}

/// The value of a setting: the stored one when there is one, else `default`.
pub fn get_setting(stored: Option<&str>, default: &str) -> (v: String)
    ensures
        v@ == match stored {
            Some(s) => s@,
            None => default@,
        },
{
    match stored {
        Some(s) => crate::text::string_of(s),
        None => crate::text::string_of(default),
    }
}

fn int_setting_of(stored: Option<&str>, default: i64) -> (v: i64)
    ensures
        v == int_setting(opt_str(stored), default),
{
    match stored {
        Some(s) => match parse_i64(s) {
            Some(v) => v,
            None => default,
        },
        None => default,
    }
}

/// The cleanup settings, from the stored values of `max_entries`,
/// `is_prune_active` and `prune_time_secs` (`None` where none is stored);
/// each falls back to its default when missing or malformed.
pub fn cleanup_settings(
    max_entries: Option<&str>,
    is_prune_active: Option<&str>,
    prune_time_secs: Option<&str>,
) -> (s: CleanupSettings)
    ensures
        s.max_entries == int_setting(opt_str(max_entries), MAX_ENTRIES_NUMBER),
        s.is_prune_active == bool_setting(opt_str(is_prune_active), IS_PRUNE_OLD_ACTIVE),
        s.prune_time_secs == int_setting(opt_str(prune_time_secs), PRUNE_OLD_TIME_SECS),
{
    let active = match is_prune_active {
        Some(v) => match parse_bool(v) {
            Some(b) => b,
            None => IS_PRUNE_OLD_ACTIVE,
        },
        None => IS_PRUNE_OLD_ACTIVE,
    };
    CleanupSettings {
        max_entries: int_setting_of(max_entries, MAX_ENTRIES_NUMBER),
        is_prune_active: active,
        prune_time_secs: int_setting_of(prune_time_secs, PRUNE_OLD_TIME_SECS),
    }
}

/// `WHERE pinned = 0`.
pub open spec fn unpinned_rows(rows: Seq<RowView>) -> Seq<bool> {
    Seq::new(rows.len(), |i: int| rows[i].pinned == 0)
}

/// `OFFSET max_entries`; a negative offset counts as zero.
pub open spec fn overflow_offset(max_entries: i64) -> int {
    if max_entries < 0 {
        0
    } else {
        max_entries as int
    }
}

/// The positions of the unpinned rows beyond the newest `max_entries`.
pub open spec fn overflow_positions(rows: Seq<RowView>, max_entries: i64) -> Seq<usize> {
    let o = newest_first_order(created_keys(rows), unpinned_rows(rows));
    let off = overflow_offset(max_entries);
    if off >= o.len() {
        Seq::empty()
    } else {
        o.skip(off)
    }
}

pub open spec fn removals_at(rows: Seq<RowView>, positions: Seq<usize>) -> Seq<(i64, Option<Seq<char>>)> {
    positions.map_values(|p: usize| removal_of(rows[p as int]))
}

/// The rows to delete so that only the newest `max_entries` unpinned rows
/// stay, newest first.
pub open spec fn overflow_spec(rows: Seq<RowView>, max_entries: i64) -> Seq<(i64, Option<Seq<char>>)> {
    removals_at(rows, overflow_positions(rows, max_entries))
}

/// Whether a removal list names this id.
pub open spec fn removes_id(removed: Seq<(i64, Option<Seq<char>>)>, id: i64) -> bool {
    exists|k: int| 0 <= k < removed.len() && (#[trigger] removed[k]).0 == id
}

/// `WHERE pinned = 0 AND created_at < older_than`, among the rows whose id
/// is not already in `removed`.
pub open spec fn prunable(row: RowView, older_than: i64, removed: Seq<(i64, Option<Seq<char>>)>) -> bool {
    row.pinned == 0 && row.created_at < older_than && !removes_id(removed, row.id)
}

/// The prunable rows, in table order, as removals.
pub open spec fn prune_spec(
    rows: Seq<RowView>,
    older_than: i64,
    removed: Seq<(i64, Option<Seq<char>>)>,
) -> Seq<(i64, Option<Seq<char>>)>
    decreases rows.len(),
{
    if rows.len() == 0 {
        Seq::empty()
    } else {
        let prev = prune_spec(rows.drop_last(), older_than, removed);
        if prunable(rows.last(), older_than, removed) {
            prev.push(removal_of(rows.last()))
        } else {
            prev
        }
    }
}

/// Everything a cleanup deletes: first the unpinned rows beyond the newest
/// `max_entries`, then, when pruning is on, the unpinned rows left that are
/// older than `now - prune_time_secs`.
pub open spec fn run_cleanup_spec(rows: Seq<RowView>, settings: (i64, bool, i64), now: i64) -> Seq<(i64, Option<Seq<char>>)> {
    let overflow = overflow_spec(rows, settings.0);
    if settings.1 {
        overflow + prune_spec(rows, (now - settings.2) as i64, overflow)
    } else {
        overflow
    }
}

pub open spec fn settings_view(s: CleanupSettings) -> (i64, bool, i64) {
    (s.max_entries, s.is_prune_active, s.prune_time_secs)
}

fn removal_at(rows: &Vec<StoredRow>, p: usize) -> (r: Removal)
    requires
        p < rows.len(),
    ensures
        (r.id, opt_chars(r.image_path)) == removal_of(row_views(rows@)[p as int]),
{
    Removal {
        id: rows[p].id,
        image_path: match &rows[p].image_path {
            Some(s) => Some(s.clone()),
            None => None,
        },
    }
}

/// The unpinned rows beyond the newest `max_entries` (`SELECT id, image_path
/// ... WHERE pinned = 0 ORDER BY created_at DESC LIMIT -1 OFFSET
/// max_entries`), newest first.
pub fn overflow_removals(rows: &Vec<StoredRow>, max_entries: i64) -> (rs: Vec<Removal>)
    ensures
        removal_views(rs@) == overflow_spec(row_views(rows@), max_entries),
{
    let ghost rv = row_views(rows@);
    let mut keys: Vec<i64> = Vec::new();
    let mut mask: Vec<bool> = Vec::new();
    let mut i: usize = 0;
    while i < rows.len()
        invariant
            i <= rows.len(),
            rv == row_views(rows@),
            keys@ == created_keys(rv).take(i as int),
            mask@ == unpinned_rows(rv).take(i as int),
        decreases rows.len() - i,
    {
        keys.push(rows[i].created_at);
        mask.push(rows[i].pinned == 0);
        i = i + 1;
        assert(keys@ =~= created_keys(rv).take(i as int));
        assert(mask@ =~= unpinned_rows(rv).take(i as int));
    }
    assert(keys@ =~= created_keys(rv));
    assert(mask@ =~= unpinned_rows(rv));
    let order = order_newest_first(&keys, &mask);
    let off: usize = if max_entries < 0 {
        0
    } else if max_entries as u64 >= order.len() as u64 {
        order.len()
    } else {
        max_entries as usize
    };
    let ghost positions = overflow_positions(rv, max_entries);
    assert(positions =~= order@.skip(off as int));
    let mut rs: Vec<Removal> = Vec::new();
    let mut k: usize = off;
    while k < order.len()
        invariant
            off <= k <= order.len(),
            rv == row_views(rows@),
            is_newest_first_selection(keys@, mask@, order@),
            mask.len() == rows.len(),
            positions == order@.skip(off as int),
            removal_views(rs@) == removals_at(rv, positions.take(k - off)),
        decreases order.len() - k,
    {
        let p = order[k];
        assert(p < mask.len());
        let r = removal_at(rows, p);
        let ghost prev = rs@;
        assert(positions[k - off] == p);
        assert(positions.take(k + 1 - off) =~= positions.take(k - off).push(p));
        rs.push(r);
        k = k + 1;
        assert(removal_views(rs@) =~= removal_views(prev).push(removal_of(rv[p as int])));
        assert(removal_views(rs@) =~= removals_at(rv, positions.take(k - off)));
    }
    assert(positions.take(order.len() - off) =~= positions);
    rs
}

fn names_id(removed: &Vec<Removal>, id: i64) -> (b: bool)
    ensures
        b == removes_id(removal_views(removed@), id),
{
    let mut k: usize = 0;
    while k < removed.len()
        invariant
            k <= removed.len(),
            forall|j: int| 0 <= j < k ==> (#[trigger] removed@[j]).id != id,
        decreases removed.len() - k,
    {
        if removed[k].id == id {
            assert(removal_views(removed@)[k as int].0 == id);
            return true;
        }
        k = k + 1;
    }
    assert forall|j: int| 0 <= j < removed.len() implies (#[trigger] removal_views(removed@)[j]).0 != id by {
        assert(removed@[j].id != id);
    }
    false
}

/// The unpinned rows older than `older_than`, leaving out those whose id
/// `already_removed` names, in table order; `prune_old` deletes them and
/// counts them.
pub fn prune_old(rows: &Vec<StoredRow>, older_than: i64, already_removed: &Vec<Removal>) -> (rs: Vec<Removal>)
    ensures
        removal_views(rs@) == prune_spec(row_views(rows@), older_than, removal_views(already_removed@)),
{
    let ghost rv = row_views(rows@);
    let ghost removed = removal_views(already_removed@);
    let mut rs: Vec<Removal> = Vec::new();
    let mut i: usize = 0;
    while i < rows.len()
        invariant
            i <= rows.len(),
            rv == row_views(rows@),
            removed == removal_views(already_removed@),
            removal_views(rs@) == prune_spec(rv.take(i as int), older_than, removed),
        decreases rows.len() - i,
    {
        let row = &rows[i];
        assert(rv.take(i + 1).drop_last() =~= rv.take(i as int));
        assert(rv.take(i + 1).last() == rv[i as int]);
        if row.pinned == 0 && row.created_at < older_than && !names_id(already_removed, row.id) {
            let r = removal_at(rows, i);
            rs.push(r);
            assert(removal_views(rs@) =~= prune_spec(rv.take(i + 1), older_than, removed));
        } else {
            assert(removal_views(rs@) =~= prune_spec(rv.take(i + 1), older_than, removed));
        }
        i = i + 1;
    }
    assert(rv.take(rows.len() as int) =~= rv);
    rs
}

/// Everything a cleanup at time `now` deletes: the unpinned rows beyond the
/// newest `max_entries`, then, when pruning is on, the unpinned rows left
/// that are older than `now - prune_time_secs`.
pub fn run_cleanup(rows: &Vec<StoredRow>, settings: &CleanupSettings, now: i64) -> (rs: Vec<Removal>)
    requires
        settings.is_prune_active ==> i64::MIN <= now - settings.prune_time_secs <= i64::MAX,
    ensures
        removal_views(rs@) == run_cleanup_spec(row_views(rows@), settings_view(*settings), now),
{
    let mut rs = overflow_removals(rows, settings.max_entries);
    if settings.is_prune_active {
        let older_than = now - settings.prune_time_secs;
        let pruned = prune_old(rows, older_than, &rs);
        let ghost before = rs@;
        let mut k: usize = 0;
        while k < pruned.len()
            invariant
                k <= pruned.len(),
                rs@ == before + pruned@.take(k as int),
            decreases pruned.len() - k,
        {
            let r = Removal {
                id: pruned[k].id,
                image_path: match &pruned[k].image_path {
                    Some(s) => Some(s.clone()),
                    None => None,
                },
            };
            assert(r.id == pruned@[k as int].id);
            rs.push(r);
            k = k + 1;
            assert(rs@ =~= before + pruned@.take(k as int));
        }
        assert(pruned@.take(pruned.len() as int) =~= pruned@);
        assert(removal_views(rs@) =~= removal_views(before) + removal_views(pruned@));
    }
    rs
}

} // verus!

verus! {

/// No two rows share an id (the table's primary key).
pub open spec fn unique_ids(rows: Seq<RowView>) -> bool {
    forall|i: int, j: int|
        0 <= i < rows.len() && 0 <= j < rows.len() && i != j ==> (#[trigger] rows[i]).id != (
        #[trigger] rows[j]).id
}

/// The positions of the unpinned rows that a list of removals leaves.
pub open spec fn kept_unpinned(rows: Seq<RowView>, removed: Seq<(i64, Option<Seq<char>>)>) -> Set<usize> {
    Set::new(
        |i: usize| i < rows.len() && rows[i as int].pinned == 0 && !removes_id(removed, rows[i as int].id),
    )
}

proof fn lemma_removes_at(rows: Seq<RowView>, positions: Seq<usize>, k: int)
    requires
        0 <= k < positions.len(),
        positions[k] < rows.len(),
    ensures
        removes_id(removals_at(rows, positions), rows[positions[k] as int].id),
{
    assert(removals_at(rows, positions)[k].0 == rows[positions[k] as int].id);
}

proof fn lemma_removes_only(rows: Seq<RowView>, positions: Seq<usize>, i: int)
    requires
        unique_ids(rows),
        0 <= i < rows.len(),
        forall|k: int| 0 <= k < positions.len() ==> (#[trigger] positions[k]) < rows.len(),
        removes_id(removals_at(rows, positions), rows[i].id),
    ensures
        positions.contains(i as usize),
{
    let k = choose|k: int|
        0 <= k < removals_at(rows, positions).len() && (#[trigger] removals_at(rows, positions)[k]).0
            == rows[i].id;
    assert(rows[positions[k] as int].id == rows[i].id);
    assert(positions[k] == i as usize);
}

proof fn lemma_removes_concat(a: Seq<(i64, Option<Seq<char>>)>, b: Seq<(i64, Option<Seq<char>>)>, id: i64)
    ensures
        removes_id(a + b, id) <==> (removes_id(a, id) || removes_id(b, id)),
{
    if removes_id(a + b, id) {
        let k = choose|k: int| 0 <= k < (a + b).len() && (#[trigger] (a + b)[k]).0 == id;
        if k >= a.len() {
            assert(b[k - a.len()].0 == id);
        }
    }
    if removes_id(a, id) {
        let k = choose|k: int| 0 <= k < a.len() && (#[trigger] a[k]).0 == id;
        assert((a + b)[k].0 == id);
    }
    if removes_id(b, id) {
        let k = choose|k: int| 0 <= k < b.len() && (#[trigger] b[k]).0 == id;
        assert((a + b)[k + a.len()].0 == id);
    }
}

proof fn lemma_overflow_positions(rows: Seq<RowView>, max_entries: i64)
    requires
        rows.len() <= usize::MAX,
    ensures
        ({
            let o = newest_first_order(created_keys(rows), unpinned_rows(rows));
            &&& is_newest_first_selection(created_keys(rows), unpinned_rows(rows), o)
            &&& forall|k: int|
                0 <= k < overflow_positions(rows, max_entries).len() ==> (#[trigger] overflow_positions(
                    rows,
                    max_entries,
                )[k]) == o[k + overflow_offset(max_entries)]
            &&& overflow_positions(rows, max_entries).len() == if overflow_offset(max_entries)
                >= o.len() {
                0
            } else {
                o.len() - overflow_offset(max_entries)
            }
        }),
{
    let keys = created_keys(rows);
    let mask = unpinned_rows(rows);
    crate::order::lemma_selection_exists(keys, mask);
}

proof fn lemma_prune_removes(
    rows: Seq<RowView>,
    older_than: i64,
    removed: Seq<(i64, Option<Seq<char>>)>,
    id: i64,
)
    ensures
        removes_id(prune_spec(rows, older_than, removed), id) <==> exists|j: int|
            0 <= j < rows.len() && prunable(#[trigger] rows[j], older_than, removed) && rows[j].id
                == id,
    decreases rows.len(),
{
    if rows.len() > 0 {
        let r = rows.drop_last();
        lemma_prune_removes(r, older_than, removed, id);
        let prev = prune_spec(r, older_than, removed);
        let cur = prune_spec(rows, older_than, removed);
        if removes_id(cur, id) {
            let k = choose|k: int| 0 <= k < cur.len() && (#[trigger] cur[k]).0 == id;
            if k < prev.len() {
                assert(prev[k].0 == id);
                let j = choose|j: int|
                    0 <= j < r.len() && prunable(#[trigger] r[j], older_than, removed) && r[j].id == id;
                assert(rows[j] == r[j]);
            } else {
                assert(rows[rows.len() - 1] == rows.last());
            }
        }
        if exists|j: int|
            0 <= j < rows.len() && prunable(#[trigger] rows[j], older_than, removed) && rows[j].id
                == id {
            let j = choose|j: int|
                0 <= j < rows.len() && prunable(#[trigger] rows[j], older_than, removed) && rows[j].id
                    == id;
            if j < r.len() {
                assert(r[j] == rows[j]);
                let k = choose|k: int| 0 <= k < prev.len() && (#[trigger] prev[k]).0 == id;
                assert(cur[k] == prev[k]);
            } else {
                assert(cur[cur.len() - 1].0 == id);
            }
        }
    }
}

/// A cleanup never deletes a pinned entry.
pub proof fn lemma_cleanup_spares_pinned(
    rows: Seq<RowView>,
    settings: (i64, bool, i64),
    now: i64,
    i: int,
)
    requires
        rows.len() <= usize::MAX,
        unique_ids(rows),
        0 <= i < rows.len(),
        rows[i].pinned != 0,
    ensures
        !removes_id(run_cleanup_spec(rows, settings, now), rows[i].id),
{
    let overflow = overflow_spec(rows, settings.0);
    let positions = overflow_positions(rows, settings.0);
    lemma_overflow_positions(rows, settings.0);
    let o = newest_first_order(created_keys(rows), unpinned_rows(rows));
    assert forall|k: int| 0 <= k < positions.len() implies (#[trigger] positions[k]) < rows.len() && rows[positions[k] as int].pinned == 0 by {
        assert(positions[k] == o[k + overflow_offset(settings.0)]);
    }
    if removes_id(overflow, rows[i].id) {
        lemma_removes_only(rows, positions, i);
        let k = choose|k: int| 0 <= k < positions.len() && positions[k] == i as usize;
    }
    if settings.1 {
        let older_than = (now - settings.2) as i64;
        lemma_prune_removes(rows, older_than, overflow, rows[i].id);
        if removes_id(prune_spec(rows, older_than, overflow), rows[i].id) {
            let j = choose|j: int|
                0 <= j < rows.len() && prunable(#[trigger] rows[j], older_than, overflow) && rows[j].id
                    == rows[i].id;
            assert(j == i);
        }
        lemma_removes_concat(overflow, prune_spec(rows, older_than, overflow), rows[i].id);
    }
}

/// Removing the overflow keeps exactly the newest `max_entries` unpinned
/// entries: an unpinned entry stays if and only if fewer than `max_entries`
/// unpinned entries come before it newest first; hence at most
/// `max_entries` of them stay, and each one that stays is at least as new
/// as each one that goes.
pub proof fn lemma_overflow_keeps_newest(rows: Seq<RowView>, max_entries: i64)
    requires
        rows.len() <= usize::MAX,
        unique_ids(rows),
    ensures
        ({
            let o = newest_first_order(created_keys(rows), unpinned_rows(rows));
            let removed = overflow_spec(rows, max_entries);
            &&& forall|q: int|
                0 <= q < o.len() ==> (!removes_id(removed, rows[#[trigger] o[q] as int].id) <==> q
                    < overflow_offset(max_entries))
            &&& kept_unpinned(rows, removed).finite()
            &&& kept_unpinned(rows, removed).len() <= overflow_offset(max_entries)
            &&& forall|a: int, b: int|
                0 <= a < rows.len() && 0 <= b < rows.len() && rows[a].pinned == 0 && rows[b].pinned
                    == 0 && !removes_id(removed, (#[trigger] rows[a]).id) && removes_id(
                    removed,
                    (#[trigger] rows[b]).id,
                ) ==> rows[a].created_at >= rows[b].created_at
        }),
{
    let keys = created_keys(rows);
    let mask = unpinned_rows(rows);
    let o = newest_first_order(keys, mask);
    let removed = overflow_spec(rows, max_entries);
    let positions = overflow_positions(rows, max_entries);
    let off = overflow_offset(max_entries);
    lemma_overflow_positions(rows, max_entries);
    assert forall|k: int| 0 <= k < positions.len() implies (#[trigger] positions[k]) < rows.len() by {
        assert(positions[k] == o[k + off]);
    }
    // The rank of a position in `o` decides whether it is removed.
    assert forall|q: int| 0 <= q < o.len() implies (!removes_id(removed, rows[#[trigger] o[q] as int].id) <==> q < off) by {
        if q >= off {
            assert(positions[q - off] == o[q]);
            lemma_removes_at(rows, positions, q - off);
        }
        if removes_id(removed, rows[o[q] as int].id) {
            lemma_removes_only(rows, positions, o[q] as int);
            let k = choose|k: int| 0 <= k < positions.len() && positions[k] == o[q];
            assert(positions[k] == o[k + off]);
            if k + off != q {
                if k + off < q {
                    assert(precedes(keys, o[k + off], o[q]));
                } else {
                    assert(precedes(keys, o[q], o[k + off]));
                }
            }
        }
    }
    // Every kept unpinned position has rank below the offset.
    let top = if off >= o.len() {
        o
    } else {
        o.take(off)
    };
    assert(kept_unpinned(rows, removed).subset_of(top.to_set())) by {
        assert forall|i: usize| kept_unpinned(rows, removed).contains(i) implies top.to_set().contains(i) by {
            assert(mask[i as int]);
            assert(o.contains(i));
            let q = choose|q: int| 0 <= q < o.len() && o[q] == i;
            assert(q < off);
            assert(top[q] == i);
        }
    }
    top.lemma_cardinality_of_set();
    vstd::set_lib::lemma_len_subset(kept_unpinned(rows, removed), top.to_set());
    assert forall|a: int, b: int|
        0 <= a < rows.len() && 0 <= b < rows.len() && rows[a].pinned == 0 && rows[b].pinned == 0
            && !removes_id(removed, (#[trigger] rows[a]).id) && removes_id(removed, (#[trigger] rows[b]).id)
        implies rows[a].created_at >= rows[b].created_at by {
        assert(mask[a] && mask[b]);
        assert(o.contains(a as usize));
        assert(o.contains(b as usize));
        let qa = choose|q: int| 0 <= q < o.len() && o[q] == a as usize;
        let qb = choose|q: int| 0 <= q < o.len() && o[q] == b as usize;
        assert(qa < off);
        assert(qb >= off);
        assert(precedes(keys, o[qa], o[qb]));
    }
}

/// With pruning on, no unpinned entry older than `now - prune_time_secs`
/// survives a cleanup, and pruning deletes nothing newer or pinned.
pub proof fn lemma_cleanup_prunes_old(rows: Seq<RowView>, settings: (i64, bool, i64), now: i64, i: int)
    requires
        rows.len() <= usize::MAX,
        unique_ids(rows),
        settings.1,
        i64::MIN <= now - settings.2 <= i64::MAX,
        0 <= i < rows.len(),
    ensures
        rows[i].pinned == 0 && rows[i].created_at < now - settings.2 ==> removes_id(
            run_cleanup_spec(rows, settings, now),
            rows[i].id,
        ),
        removes_id(prune_spec(rows, (now - settings.2) as i64, overflow_spec(rows, settings.0)), rows[i].id)
            ==> rows[i].pinned == 0 && rows[i].created_at < now - settings.2,
{
    let overflow = overflow_spec(rows, settings.0);
    let older_than = (now - settings.2) as i64;
    let pruned = prune_spec(rows, older_than, overflow);
    lemma_prune_removes(rows, older_than, overflow, rows[i].id);
    lemma_removes_concat(overflow, pruned, rows[i].id);
    if removes_id(pruned, rows[i].id) {
        let j = choose|j: int|
            0 <= j < rows.len() && prunable(#[trigger] rows[j], older_than, overflow) && rows[j].id
                == rows[i].id;
        assert(j == i);
    }
}

} // verus!

verus! {

/// What a cleanup deletes, entry by entry. Take the unpinned entries newest
/// first (`o`); the one at rank `q` is deleted exactly when at least
/// `max_entries` unpinned entries come before it, or pruning is on and it is
/// older than `now - prune_time_secs`. So with pruning off a cleanup deletes
/// the overflow and nothing else, whatever the age of the entries.
pub proof fn lemma_cleanup_deletes_exactly(
    rows: Seq<RowView>,
    settings: (i64, bool, i64),
    now: i64,
    q: int,
)
    requires
        rows.len() <= usize::MAX,
        unique_ids(rows),
        settings.1 ==> i64::MIN <= now - settings.2 <= i64::MAX,
        0 <= q < newest_first_order(created_keys(rows), unpinned_rows(rows)).len(),
    ensures
        ({
            let o = newest_first_order(created_keys(rows), unpinned_rows(rows));
            let r = rows[o[q] as int];
            &&& o[q] < rows.len()
            &&& r.pinned == 0
            &&& removes_id(run_cleanup_spec(rows, settings, now), r.id) <==> (q >= overflow_offset(
                settings.0,
            ) || (settings.1 && r.created_at < now - settings.2))
        }),
        !settings.1 ==> run_cleanup_spec(rows, settings, now) == overflow_spec(rows, settings.0),
{
    let keys = created_keys(rows);
    let mask = unpinned_rows(rows);
    crate::order::lemma_selection_exists(keys, mask);
    let o = newest_first_order(keys, mask);
    let i = o[q] as int;
    assert(mask[i]);
    let r = rows[i];
    let overflow = overflow_spec(rows, settings.0);
    lemma_overflow_keeps_newest(rows, settings.0);
    assert(removes_id(overflow, r.id) <==> q >= overflow_offset(settings.0));
    if settings.1 {
        let older_than = (now - settings.2) as i64;
        let pruned = prune_spec(rows, older_than, overflow);
        lemma_prune_removes(rows, older_than, overflow, r.id);
        lemma_removes_concat(overflow, pruned, r.id);
        if removes_id(pruned, r.id) {
            let j = choose|j: int|
                0 <= j < rows.len() && prunable(#[trigger] rows[j], older_than, overflow) && rows[j].id
                    == r.id;
            assert(j == i);
        }
        if r.created_at < older_than && !removes_id(overflow, r.id) {
            assert(prunable(rows[i], older_than, overflow));
        }
    }
}

/// After a cleanup at most `max_entries` unpinned entries are left (none
/// when it is negative).
pub proof fn lemma_cleanup_keeps_at_most_max(rows: Seq<RowView>, settings: (i64, bool, i64), now: i64)
    requires
        rows.len() <= usize::MAX,
        unique_ids(rows),
    ensures
        kept_unpinned(rows, run_cleanup_spec(rows, settings, now)).finite(),
        kept_unpinned(rows, run_cleanup_spec(rows, settings, now)).len() <= overflow_offset(
            settings.0,
        ),
{
    let overflow = overflow_spec(rows, settings.0);
    let all = run_cleanup_spec(rows, settings, now);
    lemma_overflow_keeps_newest(rows, settings.0);
    assert(kept_unpinned(rows, all).subset_of(kept_unpinned(rows, overflow))) by {
        assert forall|i: usize| kept_unpinned(rows, all).contains(i) implies kept_unpinned(rows, overflow).contains(i) by {
            if settings.1 {
                let older_than = (now - settings.2) as i64;
                lemma_removes_concat(overflow, prune_spec(rows, older_than, overflow), rows[i as int].id);
            }
        }
    }
    vstd::set_lib::lemma_len_subset(kept_unpinned(rows, all), kept_unpinned(rows, overflow));
}

} // verus!
