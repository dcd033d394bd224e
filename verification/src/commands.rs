//! The decisions behind the commands the webview can reach: resolving a page
//! id that arrived from outside, and choosing the project a brief is for.

use vstd::prelude::*;
use crate::db::{DbErrView, DbError};
use crate::lint::pages_view;
use crate::paths::page_path_spec;
use crate::primer::most_recent_spec;
use crate::text::{chars_of, trim, trim_span};
use crate::wiki::{page_path, Page};

verus! {

/// Resolve a page id that arrived from the webview. Never join one onto the
/// root without this: `page_path` refuses anything that climbs out.
pub fn page_file(root: &str, id: &str) -> (r: Result<String, DbError>)
    ensures
        match r {
            Ok(p) => page_path_spec(root@, id@) == Some(p@),
            Err(e) => page_path_spec(root@, id@) is None && e@ == DbErrView::NotFound(id@),
        },
{
    match page_path(root, id) {
        Some(p) => Ok(p),
        None => Err(DbError::NotFound(String::from_str(id))),
    }
}

/// The project a brief is for: the one asked for when it is not blank, else
/// the one whose page changed last.
pub open spec fn project_for_spec(requested: Option<Seq<char>>, pages: Seq<crate::wiki::PageView>) -> Option<
    Seq<char>,
> {
    match requested {
        Some(p) => if trim(p).len() > 0 {
            Some(p)
        } else {
            most_recent_spec(pages)
        },
        None => most_recent_spec(pages),
    }
}

/// Choose the project for a brief, or say that the wiki has none.
pub fn project_for(requested: Option<String>, pages: &[Page]) -> (r: Result<String, DbError>)
    ensures
        match r {
            Ok(p) => project_for_spec(requested.deep_view(), pages_view(pages@)) == Some(p@),
            Err(e) => project_for_spec(requested.deep_view(), pages_view(pages@)) is None && e@
                == DbErrView::NotFound("any project in the wiki"@),
        },
{
    let ghost req = requested.deep_view();
    let chosen = match requested {
        Some(p) => {
            let v = chars_of(p.as_str());
            let (a, b) = trim_span(&v, 0, v.len());
            assert(v@.subrange(0, v@.len() as int) =~= v@);
            if a < b {
                Some(p)
            } else {
                crate::primer::most_recent_project(pages)
            }
        },
        None => crate::primer::most_recent_project(pages),
    };
    match chosen {
        Some(p) => Ok(p),
        None => Err(DbError::NotFound(String::from_str("any project in the wiki"))),
    }
}

} // verus!
