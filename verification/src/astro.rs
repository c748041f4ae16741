//! The Astro-shaped project: how its definition is assembled from what the
//! filesystem probes saw, and the full unused-file run over a snapshot of its
//! files. The entries are every `.astro` file under the pages directory plus a
//! fixed list of always-live project files (manifest, config, environment
//! declarations) that are conventionally unreferenced by imports yet must
//! never be reported unused.

use vstd::prelude::*;
use vstd::relations::sorted_by;
use crate::engine::{mark, mark_spec, sweep, ContentV, Diagnostic, SourceFile};
use crate::order::lex_leq;
use crate::paths::{extension, extension_of, file_name_of, normalize, normalize_spec, path_join};
use crate::universe::{build_universe, universe_spec};

verus! {

/// A detected Astro project: its root, the traversal entry points, and the
/// build output directory.
#[derive(Debug)]
pub struct AstroDef {
    pub root: String,
    pub entries: Vec<String>,
    pub out_dir: String,
}

/// Whether a file is an Astro page: its extension is `astro`.
pub open spec fn is_astro_page(path: Seq<char>) -> bool {
    extension_of(file_name_of(path)) == Some("astro"@)
}

/// The pages among a listing, in listing order.
pub open spec fn astro_page_files(paths: Seq<Seq<char>>) -> Seq<Seq<char>> {
    paths.filter(|p: Seq<char>| is_astro_page(p))
}

/// The fixed always-live files of an Astro project, under its cleaned root.
pub open spec fn astro_system_files(cleaned: Seq<char>) -> Seq<Seq<char>> {
    seq![
        cleaned + seq!['/'] + "README.md"@,
        cleaned + seq!['/'] + "astro.config.mjs"@,
        cleaned + seq!['/'] + ".gitignore"@,
        cleaned + seq!['/'] + "tsconfig.json"@,
        cleaned + seq!['/'] + "package.json"@,
        (cleaned + seq!['/'] + "src"@) + seq!['/'] + "env.d.ts"@,
    ]
}

/// Keeps the files with the `astro` extension, in listing order.
pub fn find_astro_page_files(pages_files: &Vec<String>) -> (r: Vec<String>)
    ensures
        r.deep_view() == astro_page_files(pages_files.deep_view()),
{
    let ghost all = pages_files.deep_view();
    let mut r: Vec<String> = Vec::new();
    let mut i: usize = 0;
    proof {
        assert(all.subrange(0, 0) =~= Seq::<Seq<char>>::empty());
        assert(r.deep_view() =~= astro_page_files(all.subrange(0, 0))) by {
            reveal_with_fuel(Seq::<_>::filter, 1);
        }
    }
    while i < pages_files.len()
        invariant
            i <= pages_files.len(),
            all == pages_files.deep_view(),
            all.len() == pages_files.len(),
            r.deep_view() == astro_page_files(all.subrange(0, i as int)),
        decreases pages_files.len() - i,
    {
        let ghost prefix = all.subrange(0, i as int);
        let keep = match extension(&pages_files[i]) {
            Some(ext) => ext == String::from_str("astro"),
            None => false,
        };
        if keep {
            let ghost pre = r.deep_view();
            r.push(pages_files[i].clone());
            proof {
                assert(r.deep_view() =~= pre.push(all[i as int]));
            }
        }
        proof {
            assert(all.subrange(0, i + 1) =~= prefix.push(all[i as int]));
            assert(prefix.push(all[i as int]).drop_last() =~= prefix);
            assert(astro_page_files(all.subrange(0, i + 1)) == if is_astro_page(all[i as int]) {
                astro_page_files(prefix).push(all[i as int])
            } else {
                astro_page_files(prefix)
            }) by {
                reveal_with_fuel(Seq::<_>::filter, 1);
            }
        }
        i = i + 1;
    }
    proof {
        assert(all.subrange(0, all.len() as int) =~= all);
    }
    r
}

/// Builds the Astro definition from what the filesystem probes saw: whether
/// the marker config exists, and a listing of every file under the pages
/// directory. A package without the marker is not an Astro project. The
/// entries are the pages followed by the fixed always-live files; the output
/// directory is `dist` under the package path as given.
pub fn get_definition(
    package_path: &String,
    has_astro_config: bool,
    pages_files: &Vec<String>,
) -> (r: Option<AstroDef>)
    ensures
        !has_astro_config ==> r is None,
        has_astro_config ==> (r matches Some(d) && d.root@ == normalize_spec(package_path@)
            && d.entries.deep_view() == astro_page_files(pages_files.deep_view())
            + astro_system_files(normalize_spec(package_path@)) && d.out_dir@ == package_path@
            + seq!['/'] + "dist"@),
{
    if !has_astro_config {
        return None;
    }
    let cleaned = normalize(package_path.as_str());
    let mut entries = find_astro_page_files(pages_files);
    let ghost pages = entries.deep_view();
    let src_dir = path_join(cleaned.as_str(), "src");
    entries.push(path_join(cleaned.as_str(), "README.md"));
    entries.push(path_join(cleaned.as_str(), "astro.config.mjs"));
    entries.push(path_join(cleaned.as_str(), ".gitignore"));
    entries.push(path_join(cleaned.as_str(), "tsconfig.json"));
    entries.push(path_join(cleaned.as_str(), "package.json"));
    entries.push(path_join(src_dir.as_str(), "env.d.ts"));
    proof {
        assert(entries.deep_view() =~= pages + astro_system_files(normalize_spec(
            package_path@,
        )));
    }
    Some(
        AstroDef {
            root: cleaned,
            entries,
            out_dir: path_join(package_path.as_str(), "dist"),
        },
    )
}

/// The paths of a snapshot, in snapshot order.
pub open spec fn file_paths(files: Seq<(Seq<char>, ContentV)>) -> Seq<Seq<char>> {
    Seq::new(files.len(), |i: int| files[i].0)
}

/// The result of a full unused-file run.
pub struct UnusedReport {
    /// The universe members never visited, sorted by path, each once.
    pub unused: Vec<String>,
    /// The per-file failures seen during the mark phase, in claim order.
    pub diagnostics: Vec<Diagnostic>,
}

/// The full run over a snapshot of the project's files: builds the universe
/// from the snapshot's paths under the exclusion policy, marks everything
/// reachable from the definition's entries, and reports the universe members
/// never visited — exactly the set difference, sorted by path. Diagnostics
/// ride along and never change the report.
pub fn get_unused_files(def: &AstroDef, files: &Vec<SourceFile>) -> (r: UnusedReport)
    ensures
        r.unused.deep_view().to_set() == universe_spec(
            file_paths(files.deep_view()),
            def.out_dir@,
        ).difference(mark_spec(def.entries.deep_view(), files.deep_view()).visited.to_set()),
        r.unused.deep_view().no_duplicates(),
        sorted_by(r.unused.deep_view(), lex_leq()),
        r.diagnostics.deep_view() == mark_spec(
            def.entries.deep_view(),
            files.deep_view(),
        ).diagnostics,
{
    let ghost fv = files.deep_view();
    let mut paths: Vec<String> = Vec::new();
    let mut i: usize = 0;
    while i < files.len()
        invariant
            i <= files.len(),
            fv == files.deep_view(),
            fv.len() == files.len(),
            paths.deep_view() == file_paths(fv).subrange(0, i as int),
        decreases files.len() - i,
    {
        let ghost pre = paths.deep_view();
        paths.push(files[i].path.clone());
        proof {
            assert(paths.deep_view() =~= pre.push(fv[i as int].0));
            assert(file_paths(fv).subrange(0, i + 1) =~= file_paths(fv).subrange(
                0,
                i as int,
            ).push(fv[i as int].0));
        }
        i = i + 1;
    }
    proof {
        assert(file_paths(fv).subrange(0, file_paths(fv).len() as int) =~= file_paths(fv));
    }
    let universe = build_universe(&paths, &def.out_dir);
    let marked = mark(&def.entries, files);
    let unused = sweep(universe, &marked.visited);
    UnusedReport { unused, diagnostics: marked.diagnostics }
}

/// Idempotence (law): the report is a function of the definition and the
/// snapshot alone. Any two results that satisfy `get_unused_files`' contract
/// for the same entries, snapshot and output directory are identical — the
/// unused lists agree in contents and ordering, and the diagnostics agree.
pub proof fn lemma_run_idempotent(
    u1: Seq<Seq<char>>,
    d1: Seq<(Seq<char>, crate::engine::DiagnosticKind)>,
    u2: Seq<Seq<char>>,
    d2: Seq<(Seq<char>, crate::engine::DiagnosticKind)>,
    entries: Seq<Seq<char>>,
    files: Seq<(Seq<char>, ContentV)>,
    out_dir: Seq<char>,
)
    requires
        u1.to_set() == universe_spec(file_paths(files), out_dir).difference(
            mark_spec(entries, files).visited.to_set(),
        ),
        u1.no_duplicates(),
        sorted_by(u1, lex_leq()),
        d1 == mark_spec(entries, files).diagnostics,
        u2.to_set() == universe_spec(file_paths(files), out_dir).difference(
            mark_spec(entries, files).visited.to_set(),
        ),
        u2.no_duplicates(),
        sorted_by(u2, lex_leq()),
        d2 == mark_spec(entries, files).diagnostics,
    ensures
        u1 == u2,
        d1 == d2,
{
    crate::engine::lemma_report_deterministic(
        u1,
        u2,
        universe_spec(file_paths(files), out_dir).difference(
            mark_spec(entries, files).visited.to_set(),
        ),
    );
}

} // verus!
