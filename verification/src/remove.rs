//! Which files a deletion takes.
//!
//! Ids and slugs arrive from the webview, so each is resolved through
//! `page_path`, which refuses anything that climbs out of the root; without
//! it a crafted id would trash an arbitrary file. Moving files to the trash
//! is left to the caller.

use vstd::prelude::*;
use crate::db::{DbErrView, DbError};
use crate::paths::page_path_spec;
use crate::text::{chars_of, string_of};
use crate::watcher::last_index_of;
use crate::wiki::page_path;

verus! {

/// `std::path::Path::is_file`: whether a regular file is there now. Nothing
/// is promised of the answer: it is the disk's.
#[verifier::external_body]
fn is_file(path: &str) -> (r: bool) {
    std::path::Path::new(path).is_file()
}

/// `std::path::Path::is_dir`: whether a directory is there now. Nothing is
/// promised of the answer: it is the disk's.
#[verifier::external_body]
fn is_dir(path: &str) -> (r: bool) {
    std::path::Path::new(path).is_dir()
}

/// The file behind a page id, verified to exist and to sit inside the root.
/// An id that escapes the root is not found, whatever is on disk.
pub fn page(root: &str, id: &str) -> (r: Result<String, DbError>)
    ensures
        match r {
            Ok(p) => page_path_spec(root@, id@) == Some(p@),
            Err(e) => e@ == DbErrView::NotFound(id@),
        },
        page_path_spec(root@, id@) is None ==> r is Err,
{
    match page_path(root, id) {
        Some(path) => {
            if is_file(path.as_str()) {
                Ok(path)
            } else {
                Err(DbError::NotFound(String::from_str(id)))
            }
        },
        None => Err(DbError::NotFound(String::from_str(id))),
    }
}

/// `p` with the extension of its last component removed, as
/// `Path::with_extension("")` does: up to the last `.` of the file name,
/// unless that dot starts the name.
pub open spec fn without_extension(p: Seq<char>) -> Seq<char> {
    let start = last_index_of(p, '/') + 1;
    let name = p.subrange(start, p.len() as int);
    let d = last_index_of(name, '.');
    if d > 0 {
        p.subrange(0, start + d)
    } else {
        p
    }
}

/// The directory of a project: where its pages' folder would be, checked
/// the way a page id is.
pub open spec fn project_dir_spec(root: Seq<char>, slug: Seq<char>) -> Option<Seq<char>> {
    match page_path_spec(root, "projects/"@ + slug) {
        Some(p) => Some(without_extension(p)),
        None => None,
    }
}

fn strip_extension(p: &Vec<char>) -> (r: Vec<char>)
    ensures
        r@ == without_extension(p@),
{
    let mut s = p.len();
    assert(p@.subrange(0, p@.len() as int) =~= p@);
    while s > 0 && p[s - 1] != '/'
        invariant
            s <= p@.len(),
            last_index_of(p@.subrange(0, s as int), '/') == last_index_of(p@, '/'),
        decreases s,
    {
        assert(p@.subrange(0, s as int).drop_last() =~= p@.subrange(0, s - 1));
        s -= 1;
    }
    proof {
        if s > 0 {
            assert(p@.subrange(0, s as int).last() == '/');
        }
    }
    assert(last_index_of(p@, '/') + 1 == s);
    let mut d = p.len();
    let ghost name = p@.subrange(s as int, p@.len() as int);
    assert(name.subrange(0, name.len() as int) =~= name);
    while d > s && p[d - 1] != '.'
        invariant
            s <= d <= p@.len(),
            name == p@.subrange(s as int, p@.len() as int),
            last_index_of(name.subrange(0, d - s), '.') == last_index_of(name, '.'),
        decreases d,
    {
        assert(name.subrange(0, d - s).drop_last() =~= name.subrange(0, d - s - 1));
        d -= 1;
    }
    proof {
        if d > s {
            assert(name.subrange(0, d - s).last() == '.');
            assert(last_index_of(name, '.') == d - s - 1);
        } else {
            assert(last_index_of(name, '.') == -1);
        }
    }
    if d > s && d - s > 1 {
        crate::text::slice_vec(p, 0, d - 1)
    } else {
        crate::text::slice_vec(p, 0, p.len())
    }
}

/// The directory holding one project's pages. The slug is checked the way a
/// page id is, so `..` cannot reach outside the root.
pub fn project(root: &str, slug: &str) -> (r: Result<String, DbError>)
    ensures
        match r {
            Ok(p) => project_dir_spec(root@, slug@) == Some(p@),
            Err(e) => e@ == DbErrView::NotFound(slug@),
        },
        project_dir_spec(root@, slug@) is None ==> r is Err,
{
    let mut target = String::from_str("projects/");
    target.append(slug);
    match page_path(root, target.as_str()) {
        Some(path) => {
            let v = chars_of(path.as_str());
            let cut = strip_extension(&v);
            let dir = string_of(&cut, 0, cut.len());
            assert(cut@.subrange(0, cut@.len() as int) =~= cut@);
            if is_dir(dir.as_str()) {
                Ok(dir)
            } else {
                Err(DbError::NotFound(String::from_str(slug)))
            }
        },
        None => Err(DbError::NotFound(String::from_str(slug))),
    }
}


/// An id that is absolute or climbs out of the root through `..` resolves
/// to no file, so no deletion can reach outside the wiki.
pub proof fn law_escaping_id_is_refused(root: Seq<char>, id: Seq<char>, k: int)
    requires
        crate::paths::rooted(id) || (0 <= k < crate::paths::components(id).len()
            && crate::paths::components(id)[k] is Parent),
    ensures
        page_path_spec(root, id) is None,
{
}

} // verus!
