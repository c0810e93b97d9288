use vstd::prelude::*;
use crate::text::{push_char, push_str, string_of};

verus! {

/// What `PathBuf::join` gives for a relative `name`: `name` appended to
/// `base`, with a `/` between them unless `base` is empty or already ends
/// in one.
pub open spec fn path_join(base: Seq<char>, name: Seq<char>) -> Seq<char> {
    if base.len() == 0 || base.last() == '/' {
        base + name
    } else {
        base + seq!['/'] + name
    }
}

/// Joins a relative path component onto a directory path.
pub fn join_path(base: &str, name: &str) -> (p: String)
    requires
        name@.len() > 0,
        name@[0] != '/',
    ensures
        p@ == path_join(base@, name@),
{
    let mut p = string_of(base);
    let n = base.unicode_len();
    let needs_separator = n > 0 && base.get_char(n - 1) != '/';
    if needs_separator {
        push_char(&mut p, '/');
    }
    push_str(&mut p, name);
    proof {
        if needs_separator {
            assert(p@ =~= base@ + seq!['/'] + name@);
        }
    }
    p
}

/// The per-user directories of a project, as the `directories` crate
/// computes them.
#[verifier::external_type_specification]
#[verifier::external_body]
pub struct ExProjectDirs(directories::ProjectDirs);

/// The qualifier, organization and application name under which the
/// history is kept: `com`, `example`, `clippy`.
pub open spec fn project_identifiers_spec() -> (Seq<char>, Seq<char>, Seq<char>) {
    (seq!['c', 'o', 'm'], seq!['e', 'x', 'a', 'm', 'p', 'l', 'e'], seq!['c', 'l', 'i', 'p', 'p', 'y'])
}

/// The identifiers of the project, handed to `ProjectDirs::from`.
pub fn project_identifiers() -> (ids: (&'static str, &'static str, &'static str))
    ensures
        (ids.0@, ids.1@, ids.2@) == project_identifiers_spec(),
{
    proof {
        reveal_strlit("com");
        reveal_strlit("example");
        reveal_strlit("clippy");
    }
    ("com", "example", "clippy")
}

/// `ProjectDirs::from(qualifier, organization, application)`, called with
/// the project's own identifiers only. It reads the environment (`$HOME`,
/// the XDG variables), so the contract claims nothing of the result; `None`
/// when no home directory is known.
#[verifier::external_body]
fn project_dirs_from(
    qualifier: &str,
    organization: &str,
    application: &str,
) -> Option<directories::ProjectDirs>
    requires
        (qualifier@, organization@, application@) == project_identifiers_spec(),
{
    directories::ProjectDirs::from(qualifier, organization, application)
}

/// `ProjectDirs::data_dir`, as a string. The contract claims nothing of the
/// path: it was computed from the environment when `dirs` was made.
#[verifier::external_body]
fn project_data_dir(dirs: &directories::ProjectDirs) -> String {
    dirs.data_dir().to_string_lossy().into_owned()
}

/// The directory that holds the history database and the stored images:
/// the data directory of the project `com.example.clippy` for the current
/// user. `None` when it cannot be determined (no home directory); the
/// caller decides how to fail. Which directory it is depends on the
/// environment, so nothing more is stated of it.
pub fn data_dir() -> Option<String> {
    let (qualifier, organization, application) = project_identifiers();
    match project_dirs_from(qualifier, organization, application) {
        Some(dirs) => Some(project_data_dir(&dirs)),
        None => None,
    }
}

/// The database file inside the data directory `dir`.
pub fn db_path_in(dir: &str) -> (p: String)
    ensures
        p@ == path_join(dir@, "history.db"@),
{
    proof {
        reveal_strlit("history.db");
    }
    join_path(dir, "history.db")
}

/// The directory of on-disk images inside the data directory `dir`.
pub fn images_dir_in(dir: &str) -> (p: String)
    ensures
        p@ == path_join(dir@, "images"@),
{
    proof {
        reveal_strlit("images");
    }
    join_path(dir, "images")
}

/// The path of the history database, `None` when the data directory cannot
/// be determined.
pub fn db_path() -> (p: Option<String>)
    ensures
        p matches Some(path) ==> exists|d: Seq<char>| path@ == path_join(d, "history.db"@),
{
    match data_dir() {
        Some(d) => Some(db_path_in(d.as_str())),
        None => None,
    }
}

/// The directory of on-disk images, `None` when the data directory cannot be
/// determined.
pub fn images_dir() -> (p: Option<String>)
    ensures
        p matches Some(path) ==> exists|d: Seq<char>| path@ == path_join(d, "images"@),
{
    match data_dir() {
        Some(d) => Some(images_dir_in(d.as_str())),
        None => None,
    }
}

} // verus!

verus! {

/// Joining different names onto one directory gives different paths.
pub proof fn lemma_path_join_injective(base: Seq<char>, x: Seq<char>, y: Seq<char>)
    requires
        path_join(base, x) == path_join(base, y),
    ensures
        x == y,
{
    let p = if base.len() == 0 || base.last() == '/' {
        base
    } else {
        base + seq!['/']
    };
    assert(path_join(base, x) =~= p + x);
    assert(path_join(base, y) =~= p + y);
    assert((p + x).skip(p.len() as int) =~= x);
    assert((p + y).skip(p.len() as int) =~= y);
}

} // verus!
