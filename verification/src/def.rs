//! The first, Next.js-only framework resolver: a package with the marker
//! config is Next.js-shaped; walking its app directory yields the entries.
//! The probes (config existence, directory walk) run outside; a walk that
//! failed arrives as `None` and resolves to the error case.

use vstd::prelude::*;
use crate::next::next_page_files;
use crate::next::find_next_page_files;

verus! {

/// A detected Next.js project: the files that seed the traversal.
pub struct NextJsDef {
    pub entries: Vec<String>,
}

/// What the resolver decided a package is.
pub enum Framework {
    NextJs(NextJsDef),
    Unknown,
    Error,
}

/// Assembles the Next.js definition from a listing of every file under the
/// app directory.
pub fn resolve_next_js(app_files: &Vec<String>) -> (d: NextJsDef)
    ensures
        d.entries.deep_view() == next_page_files(app_files.deep_view()),
{
    NextJsDef { entries: find_next_page_files(app_files) }
}

/// Decides what framework a package is: without the Next.js marker config it
/// is unknown; with it, a package whose app directory could not be walked is
/// the error case, and otherwise the walked listing yields the entries.
pub fn resolve_package_framework(has_next_config: bool, app_files: &Option<Vec<String>>) -> (r:
    Framework)
    ensures
        !has_next_config ==> r is Unknown,
        has_next_config && app_files is None ==> r is Error,
        has_next_config ==> (app_files matches Some(fs) ==> (r matches Framework::NextJs(d)
            && d.entries.deep_view() == next_page_files(fs.deep_view()))),
{
    if !has_next_config {
        return Framework::Unknown;
    }
    match app_files {
        None => Framework::Error,
        Some(fs) => Framework::NextJs(resolve_next_js(fs)),
    }
}

} // verus!
