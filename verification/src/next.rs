//! The Next.js-shaped project: its entry points are the `page.tsx`,
//! `layout.tsx` and `template.tsx` files anywhere under the app directory.
//! The filesystem probes (does the marker config exist, what files are under
//! the app directory) run outside; this module holds the decisions.

use vstd::prelude::*;
use crate::paths::file_name_of;
use crate::paths::file_name;

verus! {

/// A detected Next.js project: the files that seed the traversal.
pub struct NextJsDef {
    pub entries: Vec<String>,
}

/// Whether a file name marks a Next.js route entry.
pub open spec fn is_next_entry_name(name: Seq<char>) -> bool {
    name == "page.tsx"@ || name == "layout.tsx"@ || name == "template.tsx"@
}

/// The route entries among a listing: every file whose name is an entry name.
pub open spec fn next_page_files(paths: Seq<Seq<char>>) -> Seq<Seq<char>> {
    paths.filter(|p: Seq<char>| is_next_entry_name(file_name_of(p)))
}

/// Keeps the files whose name marks a Next.js route entry, in listing order.
pub fn find_next_page_files(app_files: &Vec<String>) -> (r: Vec<String>)
    ensures
        r.deep_view() == next_page_files(app_files.deep_view()),
{
    let ghost all = app_files.deep_view();
    let mut r: Vec<String> = Vec::new();
    let mut i: usize = 0;
    proof {
        assert(all.subrange(0, 0) =~= Seq::<Seq<char>>::empty());
        assert(r.deep_view() =~= next_page_files(all.subrange(0, 0))) by {
            reveal_with_fuel(Seq::<_>::filter, 1);
        }
    }
    while i < app_files.len()
        invariant
            i <= app_files.len(),
            all == app_files.deep_view(),
            all.len() == app_files.len(),
            r.deep_view() == next_page_files(all.subrange(0, i as int)),
        decreases app_files.len() - i,
    {
        let ghost prefix = all.subrange(0, i as int);
        let ghost pred = |p: Seq<char>| is_next_entry_name(file_name_of(p));
        let name = file_name(&app_files[i]);
        let keep = name == String::from_str("page.tsx") || name == String::from_str("layout.tsx")
            || name == String::from_str("template.tsx");
        if keep {
            let ghost pre = r.deep_view();
            r.push(app_files[i].clone());
            proof {
                assert(r.deep_view() =~= pre.push(all[i as int]));
            }
        }
        proof {
            assert(all.subrange(0, i + 1) =~= prefix.push(all[i as int]));
            assert(prefix.push(all[i as int]).drop_last() =~= prefix);
            assert(next_page_files(all.subrange(0, i + 1)) == if is_next_entry_name(
                file_name_of(all[i as int]),
            ) {
                next_page_files(prefix).push(all[i as int])
            } else {
                next_page_files(prefix)
            }) by {
                reveal_with_fuel(Seq::<_>::filter, 1);
            }
        }
        i = i + 1;
    }
    proof {
        assert(all.subrange(0, all.len() as int) =~= all);
    }
    r
}

/// Builds the Next.js definition from what the filesystem probes saw: whether
/// the marker config file exists, and a listing of every file under the app
/// directory. A package without the marker is not a Next.js project.
pub fn get_definition(has_next_config: bool, app_files: &Vec<String>) -> (r: Option<NextJsDef>)
    ensures
        !has_next_config ==> r is None,
        has_next_config ==> (r matches Some(d) && d.entries.deep_view() == next_page_files(
            app_files.deep_view(),
        )),
{
    if !has_next_config {
        return None;
    }
    Some(NextJsDef { entries: find_next_page_files(app_files) })
}

} // verus!
