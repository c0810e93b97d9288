use vstd::prelude::*;
use crate::history::{entry_with_id, get_entry_text, position_of};
use crate::models::{ClipboardEntry, EntryKind, EntryView, KindView};
use crate::table::entry_views;
use crate::text::{chars_of, decimal, push_decimal, push_str, string_from_chars, string_of};

verus! {

/// What a user can do with a row of the history.
#[derive(Clone, Copy, Debug, PartialEq, Eq, Structural)]
pub enum EntryAction {
    Paste(i64),
    Copy(i64),
    TogglePin(i64),
    Delete(i64),
    OpenInBrowser(i64),
    OpenInFiles(i64),
}

/// How long ago `ts` was, at time `now`, in the largest whole unit.
pub open spec fn relative_time_spec(ts: i64, now: i64) -> Seq<char> {
    let d = now - ts;
    if d < 60 {
        "Just now"@
    } else if d < 3600 {
        decimal(d / 60) + "m ago"@
    } else if d < 86400 {
        decimal(d / 3600) + "h ago"@
    } else {
        decimal(d / 86400) + "d ago"@
    }
}

/// The age label of an entry stamped `ts`, at time `now` (Unix seconds).
pub fn format_timestamp(ts: i64, now: i64) -> (s: String)
    requires
        i64::MIN <= now - ts <= i64::MAX,
    ensures
        s@ == relative_time_spec(ts, now),
{
    let delta = now - ts;
    if delta < 60 {
        return string_of("Just now");
    }
    let (n, unit) = if delta < 3600 {
        (delta / 60, "m ago")
    } else if delta < 86400 {
        (delta / 3600, "h ago")
    } else {
        (delta / 86400, "d ago")
    };
    let mut s = String::new();
    push_decimal(&mut s, n);
    push_str(&mut s, unit);
    assert(s@ =~= relative_time_spec(ts, now));
    s
}

/// `s` cut at each `\n`; the last piece may be empty.
pub open spec fn split_lines(s: Seq<char>) -> Seq<Seq<char>>
    decreases s.len(),
{
    if s.len() == 0 {
        seq![Seq::empty()]
    } else {
        let p = split_lines(s.drop_last());
        if s.last() == '\n' {
            p.push(Seq::empty())
        } else {
            p.update(p.len() - 1, p.last().push(s.last()))
        }
    }
}

/// A line without its trailing `\r` characters.
pub open spec fn strip_cr(l: Seq<char>) -> Seq<char>
    decreases l.len(),
{
    if l.len() > 0 && l.last() == '\r' {
        strip_cr(l.drop_last())
    } else {
        l
    }
}

/// The non-empty lines, each stripped of its trailing `\r` characters.
pub open spec fn kept_lines(pieces: Seq<Seq<char>>) -> Seq<Seq<char>>
    decreases pieces.len(),
{
    if pieces.len() == 0 {
        Seq::empty()
    } else {
        let rest = kept_lines(pieces.drop_last());
        if strip_cr(pieces.last()).len() > 0 {
            rest.push(strip_cr(pieces.last()))
        } else {
            rest
        }
    }
}

/// The file locations of a file entry: its lines (as `str::lines` splits
/// them) with trailing `\r` removed, empty ones left out.
pub open spec fn file_uris_spec(paths: Seq<char>) -> Seq<Seq<char>> {
    kept_lines(split_lines(paths))
}

pub open spec fn string_views(v: Seq<String>) -> Seq<Seq<char>> {
    v.map_values(|s: String| s@)
}

proof fn lemma_split_lines_nonempty(s: Seq<char>)
    ensures
        split_lines(s).len() > 0,
    decreases s.len(),
{
    if s.len() > 0 {
        lemma_split_lines_nonempty(s.drop_last());
    }
}

fn stripped_len(cur: &Vec<char>) -> (n: usize)
    ensures
        n <= cur.len(),
        strip_cr(cur@) == cur@.take(n as int),
{
    let mut n = cur.len();
    assert(cur@.take(n as int) =~= cur@);
    while n > 0 && cur[n - 1] == '\r'
        invariant
            n <= cur.len(),
            strip_cr(cur@) == strip_cr(cur@.take(n as int)),
        decreases n,
    {
        assert(cur@.take(n as int).drop_last() =~= cur@.take(n - 1));
        n = n - 1;
    }
    assert(strip_cr(cur@.take(n as int)) == cur@.take(n as int));
    n
}

/// The file locations of a file entry, one per non-empty line.
pub fn file_uris(paths: &str) -> (uris: Vec<String>)
    ensures
        string_views(uris@) == file_uris_spec(paths@),
{
    let chars = chars_of(paths);
    let mut uris: Vec<String> = Vec::new();
    let mut cur: Vec<char> = Vec::new();
    let mut i: usize = 0;
    while i < chars.len()
        invariant
            i <= chars.len(),
            chars@ == paths@,
            split_lines(chars@.take(i as int)).len() > 0,
            cur@ == split_lines(chars@.take(i as int)).last(),
            string_views(uris@) == kept_lines(split_lines(chars@.take(i as int)).drop_last()),
        decreases chars.len() - i,
    {
        let c = chars[i];
        let ghost pre = chars@.take(i as int);
        let ghost next = chars@.take(i + 1);
        assert(next.drop_last() =~= pre);
        assert(next.last() == c);
        proof {
            lemma_split_lines_nonempty(pre);
        }
        if c == '\n' {
            let n = stripped_len(&cur);
            let ghost before = uris@;
            if n > 0 {
                uris.push(string_from_chars(&cur, 0, n));
                assert(string_views(uris@) =~= string_views(before).push(strip_cr(cur@)));
            }
            assert(split_lines(next).drop_last() =~= split_lines(pre));
            cur = Vec::new();
        } else {
            cur.push(c);
            assert(split_lines(next).drop_last() =~= split_lines(pre).drop_last());
        }
        i = i + 1;
    }
    let ghost all = chars@.take(chars.len() as int);
    assert(all =~= paths@);
    proof {
        lemma_split_lines_nonempty(all);
    }
    let n = stripped_len(&cur);
    let ghost before = uris@;
    let ghost pieces = split_lines(all);
    assert(pieces.drop_last().push(pieces.last()) =~= pieces);
    if n > 0 {
        uris.push(string_from_chars(&cur, 0, n));
        assert(string_views(uris@) =~= string_views(before).push(strip_cr(cur@)));
    }
    uris
}

/// The arguments of the `dbus-send` call that asks the file manager to show
/// `uri`.
pub open spec fn show_items_args_spec(uri: Seq<char>) -> Seq<Seq<char>> {
    seq![
        "--session"@,
        "--dest=org.freedesktop.FileManager1"@,
        "--type=method_call"@,
        "/org/freedesktop/FileManager1"@,
        "org.freedesktop.FileManager1.ShowItems"@,
        "array:string:"@ + uri,
        "string:"@,
    ]
}

pub fn show_items_args(uri: &str) -> (args: Vec<String>)
    ensures
        string_views(args@) == show_items_args_spec(uri@),
{
    let mut array_arg = string_of("array:string:");
    push_str(&mut array_arg, uri);
    let args = vec![
        string_of("--session"),
        string_of("--dest=org.freedesktop.FileManager1"),
        string_of("--type=method_call"),
        string_of("/org/freedesktop/FileManager1"),
        string_of("org.freedesktop.FileManager1.ShowItems"),
        array_arg,
        string_of("string:"),
    ];
    assert(string_views(args@) =~= show_items_args_spec(uri@));
    args
}

/// What goes on the clipboard for an entry.
pub enum ClipboardContent {
    Text(String),
    /// File paths, offered as `text/uri-list`, as
    /// `x-special/gnome-copied-files` and as `text/plain`.
    Files { uri_list: String, gnome_copied_files: String },
    /// The image of this entry, whose bytes the history service holds.
    Image(i64),
}

/// What the window does for an action.
pub enum ActionPlan {
    /// Put the content (if the entry exists) on the clipboard and hide the
    /// window.
    Paste(Option<ClipboardContent>),
    /// Put the text on the clipboard.
    Copy(String),
    TogglePin(i64),
    Delete(i64),
    /// Open the link and hide the window.
    OpenUri(String),
    /// Hide the window, and run `dbus-send` with these arguments if the entry
    /// has a file location.
    ShowInFiles(Option<Vec<String>>),
    Nothing,
}

/// The `x-special/gnome-copied-files` payload for file paths.
pub open spec fn gnome_copied_files_spec(paths: Seq<char>) -> Seq<char> {
    "copy\n"@ + paths
}

/// The clipboard content for an entry.
pub open spec fn content_matches(c: ClipboardContent, e: EntryView) -> bool {
    match e.kind {
        KindView::Text(t) => c matches ClipboardContent::Text(s) && s@ == t,
        KindView::Link(t) => c matches ClipboardContent::Text(s) && s@ == t,
        KindView::FilePath(t) => c matches ClipboardContent::Files { uri_list, gnome_copied_files }
            && uri_list@ == t && gnome_copied_files@ == gnome_copied_files_spec(t),
        KindView::Image { .. } => c == ClipboardContent::Image(e.id),
    }
}

/// The plan for an action on the history `h`.
pub open spec fn plan_matches(plan: ActionPlan, action: EntryAction, h: Seq<EntryView>) -> bool {
    match action {
        EntryAction::Paste(id) => plan matches ActionPlan::Paste(c) && match entry_with_id(h, id) {
            Some(e) => c matches Some(content) && content_matches(content, e),
            None => c is None,
        },
        EntryAction::Copy(id) => plan matches ActionPlan::Copy(t) && t@
            == crate::history::entry_text_spec(h, id),
        EntryAction::TogglePin(id) => plan == ActionPlan::TogglePin(id),
        EntryAction::Delete(id) => plan == ActionPlan::Delete(id),
        EntryAction::OpenInBrowser(id) => match entry_with_id(h, id) {
            Some(e) => match e.kind {
                KindView::Link(url) => plan matches ActionPlan::OpenUri(u) && u@ == url,
                _ => plan == ActionPlan::Nothing,
            },
            None => plan == ActionPlan::Nothing,
        },
        EntryAction::OpenInFiles(id) => match entry_with_id(h, id) {
            Some(e) => match e.kind {
                KindView::FilePath(paths) => plan matches ActionPlan::ShowInFiles(args) && if file_uris_spec(paths).len() > 0 {
                    args matches Some(a) && string_views(a@) == show_items_args_spec(
                        file_uris_spec(paths)[0],
                    )
                } else {
                    args is None
                },
                _ => plan == ActionPlan::Nothing,
            },
            None => plan == ActionPlan::Nothing,
        },
    }
}

fn clipboard_content(e: &ClipboardEntry) -> (c: ClipboardContent)
    ensures
        content_matches(c, e@),
{
    match &e.kind {
        EntryKind::Text(t) => ClipboardContent::Text(t.clone()),
        EntryKind::Link(t) => ClipboardContent::Text(t.clone()),
        EntryKind::FilePath(t) => {
            let mut g = string_of("copy\n");
            push_str(&mut g, t.as_str());
            ClipboardContent::Files { uri_list: t.clone(), gnome_copied_files: g }
        },
        EntryKind::Image { .. } => ClipboardContent::Image(e.id),
    }
}

/// Decides what the window does for an action on a row.
pub fn plan_action(action: EntryAction, history: &Vec<ClipboardEntry>) -> (plan: ActionPlan)
    ensures
        plan_matches(plan, action, entry_views(history@)),
{
    match action {
        EntryAction::Paste(id) => match position_of(history, id) {
            Some(i) => ActionPlan::Paste(Some(clipboard_content(&history[i]))),
            None => ActionPlan::Paste(None),
        },
        EntryAction::Copy(id) => ActionPlan::Copy(get_entry_text(id, history)),
        EntryAction::TogglePin(id) => ActionPlan::TogglePin(id),
        EntryAction::Delete(id) => ActionPlan::Delete(id),
        EntryAction::OpenInBrowser(id) => match position_of(history, id) {
            Some(i) => match &history[i].kind {
                EntryKind::Link(url) => ActionPlan::OpenUri(url.clone()),
                _ => ActionPlan::Nothing,
            },
            None => ActionPlan::Nothing,
        },
        EntryAction::OpenInFiles(id) => match position_of(history, id) {
            Some(i) => match &history[i].kind {
                EntryKind::FilePath(paths) => {
                    let uris = file_uris(paths.as_str());
                    if uris.len() > 0 {
                        ActionPlan::ShowInFiles(Some(show_items_args(uris[0].as_str())))
                    } else {
                        ActionPlan::ShowInFiles(None)
                    }
                },
                _ => ActionPlan::Nothing,
            },
            None => ActionPlan::Nothing,
        },
    }
}

} // verus!
