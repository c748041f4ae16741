//! The reachability engine: a mark phase that walks the import graph from the
//! entry points over an in-memory snapshot of the project's files, and a sweep
//! that diffs the visited set against the universe. A file is marked before its
//! content is examined, so cyclic imports terminate and no file is processed
//! twice; a file that cannot be read or parsed stays visited and contributes a
//! diagnostic instead of edges, never aborting the run.

use vstd::prelude::*;
use vstd::relations::sorted_by;
use crate::parse::{
    extract_front_matter, front_matter_spec, get_import_sources, parse_ts_file, resolved_imports,
    ts_import_specifiers,
};
use crate::paths::{normalize, normalize_spec};
use crate::universe::PathSet;
use crate::order::{lex_leq, sort_paths};

verus! {

/// Why a visited file contributed no import edges. Informational only: a file
/// that fails stays visited, so the engine under-reports rather than
/// over-reports unused files.
#[derive(Clone, Copy, PartialEq, Eq, Structural, Debug)]
pub enum DiagnosticKind {
    /// The file could not be read at all (missing, permissions, ...).
    Unreadable,
    /// The file's bytes are not valid text.
    NotUtf8,
    /// The file's front matter is not a well-formed module.
    Unparseable,
}

/// A per-file failure observed during the mark phase.
pub struct Diagnostic {
    pub file: String,
    pub kind: DiagnosticKind,
}

impl View for Diagnostic {
    type V = (Seq<char>, DiagnosticKind);

    open spec fn view(&self) -> (Seq<char>, DiagnosticKind) {
        (self.file@, self.kind)
    }
}

impl DeepView for Diagnostic {
    type V = (Seq<char>, DiagnosticKind);

    open spec fn deep_view(&self) -> (Seq<char>, DiagnosticKind) {
        self@
    }
}

/// What reading one file produced: its text, or the failure seen. The caller
/// reads the filesystem; the engine never does.
pub enum FileContent {
    Text(String),
    Unreadable,
    NotUtf8,
}

/// The ghost image of a file's content.
pub enum ContentV {
    Text(Seq<char>),
    Unreadable,
    NotUtf8,
}

impl View for FileContent {
    type V = ContentV;

    open spec fn view(&self) -> ContentV {
        match self {
            FileContent::Text(t) => ContentV::Text(t@),
            FileContent::Unreadable => ContentV::Unreadable,
            FileContent::NotUtf8 => ContentV::NotUtf8,
        }
    }
}

impl DeepView for FileContent {
    type V = ContentV;

    open spec fn deep_view(&self) -> ContentV {
        self@
    }
}

/// One file of the snapshot the engine runs against.
pub struct SourceFile {
    pub path: String,
    pub content: FileContent,
}

impl View for SourceFile {
    type V = (Seq<char>, ContentV);

    open spec fn view(&self) -> (Seq<char>, ContentV) {
        (self.path@, self.content@)
    }
}

impl DeepView for SourceFile {
    type V = (Seq<char>, ContentV);

    open spec fn deep_view(&self) -> (Seq<char>, ContentV) {
        self@
    }
}

/// What one visited file contributes to the traversal: its outgoing edges, or
/// the diagnostic that replaced them.
pub enum OutcomeV {
    Edges(Seq<Seq<char>>),
    Failed(DiagnosticKind),
}

/// The edges a file's content yields. Imports live only in the front-matter
/// region; a file without one has no extractable imports, which is not an
/// error. A front matter that does not parse is a diagnostic and a leaf.
pub open spec fn content_outcome(path: Seq<char>, c: ContentV) -> OutcomeV {
    match c {
        ContentV::Unreadable => OutcomeV::Failed(DiagnosticKind::Unreadable),
        ContentV::NotUtf8 => OutcomeV::Failed(DiagnosticKind::NotUtf8),
        ContentV::Text(t) => match front_matter_spec(t) {
            None => OutcomeV::Edges(Seq::<Seq<char>>::empty()),
            Some(fm) => match ts_import_specifiers(fm) {
                None => OutcomeV::Failed(DiagnosticKind::Unparseable),
                Some(specs) => OutcomeV::Edges(resolved_imports(path, specs)),
            },
        },
    }
}

/// The first snapshot entry with this path, if any.
pub open spec fn lookup(files: Seq<(Seq<char>, ContentV)>, path: Seq<char>) -> Option<ContentV>
    decreases files.len(),
{
    if files.len() == 0 {
        None
    } else if files[0].0 == path {
        Some(files[0].1)
    } else {
        lookup(files.drop_first(), path)
    }
}

/// A path the snapshot does not hold reads as unreadable: an import target
/// outside the universe is visited, contributes nothing, and is inert.
pub open spec fn outcome_of(files: Seq<(Seq<char>, ContentV)>, path: Seq<char>) -> OutcomeV {
    match lookup(files, path) {
        None => OutcomeV::Failed(DiagnosticKind::Unreadable),
        Some(c) => content_outcome(path, c),
    }
}

proof fn lemma_lookup_some_key(files: Seq<(Seq<char>, ContentV)>, path: Seq<char>)
    ensures
        lookup(files, path) is Some <==> exists|i: int|
            0 <= i < files.len() && #[trigger] files[i].0 == path,
    decreases files.len(),
{
    if files.len() > 0 {
        lemma_lookup_some_key(files.drop_first(), path);
        if files[0].0 != path {
            if lookup(files, path) is Some {
                let i = choose|i: int|
                    0 <= i < files.drop_first().len() && #[trigger] files.drop_first()[i].0
                        == path;
                assert(files[i + 1].0 == path);
            }
            if exists|i: int| 0 <= i < files.len() && #[trigger] files[i].0 == path {
                let i = choose|i: int| 0 <= i < files.len() && #[trigger] files[i].0 == path;
                assert(files.drop_first()[i - 1].0 == path);
            }
        }
    }
}

proof fn lemma_unvisited_count_claim(
    files: Seq<(Seq<char>, ContentV)>,
    visited: Seq<Seq<char>>,
    f: Seq<char>,
)
    requires
        !visited.contains(f),
    ensures
        lookup(files, f) is Some ==> unvisited_count(files, visited.push(f)) < unvisited_count(
            files,
            visited,
        ),
        lookup(files, f) is None ==> unvisited_count(files, visited.push(f)) == unvisited_count(
            files,
            visited,
        ),
    decreases files.len(),
{
    reveal(Seq::filter);
    broadcast use vstd::seq_lib::lemma_seq_contains_after_push;

    lemma_lookup_some_key(files, f);
    if files.len() > 0 {
        let rest = files.drop_last();
        let e = files.last();
        lemma_unvisited_count_claim(rest, visited, f);
        lemma_lookup_some_key(rest, f);
        if lookup(files, f) is Some {
            if e.0 == f {
                // the last entry itself leaves the unvisited count
                assert(unvisited_count(files, visited) == unvisited_count(rest, visited) + 1);
                assert(unvisited_count(files, visited.push(f)) == unvisited_count(
                    rest,
                    visited.push(f),
                ));
            } else {
                // the key sits in the rest; the last entry contributes alike
                let w = choose|i: int| 0 <= i < files.len() && #[trigger] files[i].0 == f;
                assert(rest[w].0 == f);
                assert(lookup(rest, f) is Some);
            }
        } else {
            assert(e.0 != f);
        }
    }
}

/// How many snapshot entries are not yet visited: the part of the termination
/// measure that shrinks whenever a snapshot file is claimed.
pub open spec fn unvisited_count(
    files: Seq<(Seq<char>, ContentV)>,
    visited: Seq<Seq<char>>,
) -> nat {
    files.filter(|e: (Seq<char>, ContentV)| !visited.contains(e.0)).len()
}

/// What a finished run holds.
pub struct MarkResultV {
    pub visited: Seq<Seq<char>>,
    pub diagnostics: Seq<(Seq<char>, DiagnosticKind)>,
}

/// The whole mark phase, one worklist step at a time. The claimed file is
/// marked visited before its content is looked at; an already-visited file is
/// dropped, which is the cycle guard.
pub open spec fn mark_loop(
    files: Seq<(Seq<char>, ContentV)>,
    visited: Seq<Seq<char>>,
    worklist: Seq<Seq<char>>,
    diagnostics: Seq<(Seq<char>, DiagnosticKind)>,
) -> MarkResultV
    decreases unvisited_count(files, visited), worklist.len(),
        via mark_loop_decreases
{
    if worklist.len() == 0 {
        MarkResultV { visited, diagnostics }
    } else {
        let f = worklist.last();
        let rest = worklist.drop_last();
        if visited.contains(f) {
            mark_loop(files, visited, rest, diagnostics)
        } else {
            let visited2 = visited.push(f);
            match outcome_of(files, f) {
                OutcomeV::Failed(k) => mark_loop(files, visited2, rest, diagnostics.push((f, k))),
                OutcomeV::Edges(es) => mark_loop(files, visited2, rest + es, diagnostics),
            }
        }
    }
}

#[via_fn]
proof fn mark_loop_decreases(
    files: Seq<(Seq<char>, ContentV)>,
    visited: Seq<Seq<char>>,
    worklist: Seq<Seq<char>>,
    diagnostics: Seq<(Seq<char>, DiagnosticKind)>,
) {
    if worklist.len() > 0 {
        let f = worklist.last();
        if !visited.contains(f) {
            lemma_unvisited_count_claim(files, visited, f);
        }
    }
}

/// The mark phase over a snapshot, seeded with the (normalized) roots.
/// Every root, normalized, in order: the initial worklist.
pub open spec fn normalize_all(roots: Seq<Seq<char>>) -> Seq<Seq<char>> {
    Seq::new(roots.len(), |i: int| normalize_spec(roots[i]))
}

pub open spec fn mark_spec(
    roots: Seq<Seq<char>>,
    files: Seq<(Seq<char>, ContentV)>,
) -> MarkResultV {
    mark_loop(
        files,
        Seq::<Seq<char>>::empty(),
        normalize_all(roots),
        Seq::<(Seq<char>, DiagnosticKind)>::empty(),
    )
}

/// What the executable mark phase returns.
pub struct MarkResult {
    /// Every file reached from the roots, each exactly once, in claim order.
    pub visited: Vec<String>,
    /// The per-file failures seen, in claim order.
    pub diagnostics: Vec<Diagnostic>,
}

fn lookup_file<'a>(files: &'a Vec<SourceFile>, path: &String) -> (r: Option<&'a FileContent>)
    ensures
        match r {
            Some(c) => lookup(files.deep_view(), path@) == Some(c@),
            None => lookup(files.deep_view(), path@) is None,
        },
{
    let ghost fv = files.deep_view();
    let mut i: usize = 0;
    proof {
        assert(fv.subrange(0, fv.len() as int) =~= fv);
    }
    while i < files.len()
        invariant
            i <= files.len(),
            fv == files.deep_view(),
            fv.len() == files.len(),
            lookup(fv, path@) == lookup(fv.subrange(i as int, fv.len() as int), path@),
        decreases files.len() - i,
    {
        let ghost rest = fv.subrange(i as int, fv.len() as int);
        proof {
            assert(rest[0] == fv[i as int]);
            assert(rest.drop_first() =~= fv.subrange(i + 1, fv.len() as int));
        }
        if files[i].path == *path {
            return Some(&files[i].content);
        }
        i = i + 1;
    }
    proof {
        assert(fv.subrange(fv.len() as int, fv.len() as int) =~= Seq::<
            (Seq<char>, ContentV),
        >::empty());
    }
    None
}

fn vec_contains_path(v: &Vec<String>, path: &String) -> (r: bool)
    ensures
        r == v.deep_view().contains(path@),
{
    let ghost dv = v.deep_view();
    let mut i: usize = 0;
    while i < v.len()
        invariant
            i <= v.len(),
            dv == v.deep_view(),
            dv.len() == v.len(),
            forall|j: int| 0 <= j < i ==> dv[j] != path@,
        decreases v.len() - i,
    {
        if v[i] == *path {
            proof {
                assert(dv[i as int] == path@);
            }
            return true;
        }
        i = i + 1;
    }
    proof {
        assert(!dv.contains(path@));
    }
    false
}

/// The mark phase: starting from the roots, claims one file at a time, marks
/// it visited before reading it, follows the import edges its front matter
/// yields, and records a diagnostic where reading or parsing failed. The
/// worklist discipline makes the traversal safe on cyclic imports and
/// indifferent to sibling order; it always terminates.
pub fn mark(roots: &Vec<String>, files: &Vec<SourceFile>) -> (r: MarkResult)
    ensures
        r.visited.deep_view() == mark_spec(roots.deep_view(), files.deep_view()).visited,
        r.diagnostics.deep_view() == mark_spec(roots.deep_view(), files.deep_view()).diagnostics,
        r.visited.deep_view().no_duplicates(),
{
    let ghost rootsv = roots.deep_view();
    let ghost fv = files.deep_view();
    let mut worklist: Vec<String> = Vec::new();
    let mut k: usize = 0;
    while k < roots.len()
        invariant
            k <= roots.len(),
            rootsv == roots.deep_view(),
            rootsv.len() == roots.len(),
            worklist.deep_view() == normalize_all(rootsv.subrange(0, k as int)),
        decreases roots.len() - k,
    {
        let ghost pre = worklist.deep_view();
        let n = normalize(roots[k].as_str());
        let ghost nv = n@;
        worklist.push(n);
        proof {
            assert(worklist.deep_view() =~= pre.push(nv));
            assert(rootsv.subrange(0, k + 1) =~= rootsv.subrange(0, k as int).push(
                rootsv[k as int],
            ));
            assert(worklist.deep_view() =~= normalize_all(rootsv.subrange(0, k + 1)));
        }
        k = k + 1;
    }
    proof {
        assert(rootsv.subrange(0, rootsv.len() as int) =~= rootsv);
    }

    let mut visited: Vec<String> = Vec::new();
    let mut diagnostics: Vec<Diagnostic> = Vec::new();
    proof {
        assert(visited.deep_view() =~= Seq::<Seq<char>>::empty());
        assert(diagnostics.deep_view() =~= Seq::<(Seq<char>, DiagnosticKind)>::empty());
    }
    loop
        invariant
            fv == files.deep_view(),
            visited.deep_view().no_duplicates(),
            mark_loop(fv, visited.deep_view(), worklist.deep_view(), diagnostics.deep_view())
                == mark_spec(rootsv, fv),
        ensures
            worklist.deep_view().len() == 0,
            visited.deep_view().no_duplicates(),
            mark_loop(fv, visited.deep_view(), worklist.deep_view(), diagnostics.deep_view())
                == mark_spec(rootsv, fv),
        decreases unvisited_count(fv, visited.deep_view()), worklist.deep_view().len(),
    {
        let ghost wv = worklist.deep_view();
        let ghost vv = visited.deep_view();
        let ghost dgv = diagnostics.deep_view();
        let popped = worklist.pop();
        let f = match popped {
            None => {
                proof {
                    assert(wv.len() == 0);
                }
                break ;
            },
            Some(f) => f,
        };
        proof {
            assert(f@ == wv.last());
            assert(worklist.deep_view() =~= wv.drop_last());
        }
        if vec_contains_path(&visited, &f) {
            // cycle and duplicate guard: drop the claim, nothing changes
            continue ;
        }
        let ghost fpath = f@;
        proof {
            // claiming an unvisited file never grows the measure, and claiming
            // a snapshot key strictly shrinks it
            lemma_unvisited_count_claim(fv, vv, fpath);
        }
        match lookup_file(files, &f) {
            None => {
                visited.push(f.clone());
                let ghost pre = diagnostics.deep_view();
                diagnostics.push(
                    Diagnostic { file: f, kind: DiagnosticKind::Unreadable },
                );
                proof {
                    assert(visited.deep_view() =~= vv.push(fpath));
                    assert(diagnostics.deep_view() =~= dgv.push(
                        (fpath, DiagnosticKind::Unreadable),
                    ));
                }
            },
            Some(content) => {
                match content {
                    FileContent::Unreadable => {
                        visited.push(f.clone());
                        diagnostics.push(
                            Diagnostic { file: f, kind: DiagnosticKind::Unreadable },
                        );
                        proof {
                            assert(visited.deep_view() =~= vv.push(fpath));
                            assert(diagnostics.deep_view() =~= dgv.push(
                                (fpath, DiagnosticKind::Unreadable),
                            ));
                        }
                    },
                    FileContent::NotUtf8 => {
                        visited.push(f.clone());
                        diagnostics.push(
                            Diagnostic { file: f, kind: DiagnosticKind::NotUtf8 },
                        );
                        proof {
                            assert(visited.deep_view() =~= vv.push(fpath));
                            assert(diagnostics.deep_view() =~= dgv.push(
                                (fpath, DiagnosticKind::NotUtf8),
                            ));
                        }
                    },
                    FileContent::Text(text) => {
                        match extract_front_matter(text) {
                            None => {
                                visited.push(f.clone());
                                proof {
                                    assert(visited.deep_view() =~= vv.push(fpath));
                                    assert(worklist.deep_view() + Seq::<Seq<char>>::empty()
                                        =~= worklist.deep_view());
                                }
                            },
                            Some(fm) => {
                                match parse_ts_file(&fm) {
                                    None => {
                                        visited.push(f.clone());
                                        diagnostics.push(
                                            Diagnostic {
                                                file: f,
                                                kind: DiagnosticKind::Unparseable,
                                            },
                                        );
                                        proof {
                                            assert(visited.deep_view() =~= vv.push(fpath));
                                            assert(diagnostics.deep_view() =~= dgv.push(
                                                (fpath, DiagnosticKind::Unparseable),
                                            ));
                                        }
                                    },
                                    Some(specs) => {
                                        let edges = get_import_sources(&f, &specs);
                                        let ghost ev = edges.deep_view();
                                        visited.push(f.clone());
                                        let ghost wrest = worklist.deep_view();
                                        let mut t: usize = 0;
                                        while t < edges.len()
                                            invariant
                                                t <= edges.len(),
                                                ev == edges.deep_view(),
                                                ev.len() == edges.len(),
                                                worklist.deep_view() == wrest + ev.subrange(
                                                    0,
                                                    t as int,
                                                ),
                                            decreases edges.len() - t,
                                        {
                                            let ghost prew = worklist.deep_view();
                                            let e = edges[t].clone();
                                            proof {
                                                assert(e@ == ev[t as int]);
                                            }
                                            worklist.push(e);
                                            proof {
                                                assert(worklist.deep_view() =~= prew.push(
                                                    ev[t as int],
                                                ));
                                                assert(ev.subrange(0, t + 1) =~= ev.subrange(
                                                    0,
                                                    t as int,
                                                ).push(ev[t as int]));
                                                assert(worklist.deep_view() =~= wrest
                                                    + ev.subrange(0, t + 1));
                                            }
                                            t = t + 1;
                                        }
                                        proof {
                                            assert(ev.subrange(0, ev.len() as int) =~= ev);
                                            assert(visited.deep_view() =~= vv.push(fpath));
                                        }
                                    },
                                }
                            },
                        }
                    },
                }
            },
        }
    }
    proof {
        assert(mark_loop(
            fv,
            visited.deep_view(),
            worklist.deep_view(),
            diagnostics.deep_view(),
        ) == MarkResultV {
            visited: visited.deep_view(),
            diagnostics: diagnostics.deep_view(),
        });
    }
    MarkResult { visited, diagnostics }
}

/// Marks one file as used: removes it from the set of files still suspected
/// unused. A file marked used stays used; marking twice is the same as once.
pub fn mark_file_as_used(path: &String, unused_source_files: &mut PathSet)
    requires
        old(unused_source_files).wf(),
    ensures
        final(unused_source_files)@ == old(unused_source_files)@.remove(path@),
        final(unused_source_files).wf(),
{
    unused_source_files.remove(path);
}

/// The sweep: the unused report is exactly the universe minus the visited set,
/// sorted by path for reproducible output.
pub fn sweep(universe: PathSet, visited: &Vec<String>) -> (r: Vec<String>)
    requires
        universe.wf(),
    ensures
        r.deep_view().to_set() == universe@.difference(visited.deep_view().to_set()),
        r.deep_view().no_duplicates(),
        sorted_by(r.deep_view(), lex_leq()),
{
    let ghost u0 = universe@;
    let ghost vis = visited.deep_view();
    let mut unused = universe;
    let mut k: usize = 0;
    proof {
        assert(vis.subrange(0, 0) =~= Seq::<Seq<char>>::empty());
        assert(u0.difference(vis.subrange(0, 0).to_set()) =~= u0);
    }
    while k < visited.len()
        invariant
            k <= visited.len(),
            vis == visited.deep_view(),
            vis.len() == visited.len(),
            unused.wf(),
            unused@ == u0.difference(vis.subrange(0, k as int).to_set()),
        decreases visited.len() - k,
    {
        let ghost prefix = vis.subrange(0, k as int);
        mark_file_as_used(&visited[k], &mut unused);
        proof {
            assert(vis.subrange(0, k + 1) =~= prefix + seq![vis[k as int]]);
            Seq::<Seq<char>>::lemma_to_set_insert_commutes(prefix, vis[k as int]);
            assert(u0.difference(prefix.to_set()).remove(vis[k as int]) =~= u0.difference(
                prefix.to_set().insert(vis[k as int]),
            ));
        }
        k = k + 1;
    }
    proof {
        assert(vis.subrange(0, vis.len() as int) =~= vis);
    }
    let entries = unused.into_vec();
    let r = sort_paths(&entries);
    proof {
        broadcast use vstd::seq_lib::group_to_multiset_ensures;

        let ev = entries.deep_view();
        let rv = r.deep_view();
        crate::order::lemma_lex_total_ordering();
        ev.lemma_sort_by_ensures(lex_leq());
        assert(rv.to_set() =~= ev.to_set()) by {
            assert forall|x: Seq<char>| rv.contains(x) == ev.contains(x) by {
                assert(rv.contains(x) == (rv.to_multiset().count(x) > 0));
                assert(ev.contains(x) == (ev.to_multiset().count(x) > 0));
            }
        }
        ev.lemma_multiset_has_no_duplicates();
        assert forall|x: Seq<char>| rv.to_multiset().contains(x) implies rv.to_multiset().count(
            x,
        ) == 1 by {
            assert(ev.to_multiset().contains(x));
        }
        rv.lemma_multiset_has_no_duplicates_conv();
    }
    r
}

/// Root universality (law): everything on the worklist, and everything already
/// visited, ends up visited — the mark phase loses no claim.
proof fn lemma_mark_loop_covers(
    files: Seq<(Seq<char>, ContentV)>,
    visited: Seq<Seq<char>>,
    worklist: Seq<Seq<char>>,
    diagnostics: Seq<(Seq<char>, DiagnosticKind)>,
)
    ensures
        forall|x: Seq<char>| #[trigger]
            worklist.contains(x) ==> mark_loop(files, visited, worklist, diagnostics)
                .visited.contains(x),
        forall|x: Seq<char>| #[trigger]
            visited.contains(x) ==> mark_loop(files, visited, worklist, diagnostics)
                .visited.contains(x),
    decreases unvisited_count(files, visited), worklist.len(),
{
    broadcast use vstd::seq_lib::lemma_seq_contains_after_push;

    if worklist.len() > 0 {
        let f = worklist.last();
        let rest = worklist.drop_last();
        assert(worklist =~= rest.push(f));
        let r = mark_loop(files, visited, worklist, diagnostics);
        if visited.contains(f) {
            lemma_mark_loop_covers(files, visited, rest, diagnostics);
            assert(r == mark_loop(files, visited, rest, diagnostics));
            assert forall|x: Seq<char>| #[trigger] worklist.contains(x) implies r.visited.contains(
                x,
            ) by {
                assert(rest.push(f).contains(x));
            }
        } else {
            lemma_unvisited_count_claim(files, visited, f);
            let visited2 = visited.push(f);
            match outcome_of(files, f) {
                OutcomeV::Failed(k) => {
                    lemma_mark_loop_covers(files, visited2, rest, diagnostics.push((f, k)));
                    assert(r == mark_loop(files, visited2, rest, diagnostics.push((f, k))));
                },
                OutcomeV::Edges(es) => {
                    lemma_mark_loop_covers(files, visited2, rest + es, diagnostics);
                    assert(r == mark_loop(files, visited2, rest + es, diagnostics));
                    assert forall|x: Seq<char>| #[trigger] rest.contains(x) implies (rest
                        + es).contains(x) by {
                        let i = choose|i: int| 0 <= i < rest.len() && rest[i] == x;
                        assert((rest + es)[i] == x);
                    }
                },
            }
            assert(visited2.contains(f));
            assert forall|x: Seq<char>| #[trigger] worklist.contains(x) implies r.visited.contains(
                x,
            ) by {
                assert(rest.push(f).contains(x));
            }
            assert forall|x: Seq<char>| #[trigger] visited.contains(x) implies r.visited.contains(
                x,
            ) by {
                assert(visited2.contains(x));
            }
        }
    }
}

/// Root universality (law): every entry point is present in the visited set
/// after a run, even if no file imports it.
pub proof fn lemma_roots_visited(roots: Seq<Seq<char>>, files: Seq<(Seq<char>, ContentV)>)
    ensures
        forall|i: int|
            0 <= i < roots.len() ==> mark_spec(roots, files).visited.contains(
                normalize_spec(#[trigger] roots[i]),
            ),
{
    lemma_mark_loop_covers(
        files,
        Seq::<Seq<char>>::empty(),
        normalize_all(roots),
        Seq::<(Seq<char>, DiagnosticKind)>::empty(),
    );
    assert forall|i: int| 0 <= i < roots.len() implies mark_spec(roots, files).visited.contains(
        normalize_spec(#[trigger] roots[i]),
    ) by {
        assert(normalize_all(roots)[i] == normalize_spec(roots[i]));
        assert(normalize_all(roots).contains(normalize_spec(roots[i])));
    }
}

/// The outgoing edges of one file, and nothing where it failed or is missing.
pub open spec fn edges_of(files: Seq<(Seq<char>, ContentV)>, v: Seq<char>) -> Seq<Seq<char>> {
    match outcome_of(files, v) {
        OutcomeV::Edges(es) => es,
        OutcomeV::Failed(_) => Seq::<Seq<char>>::empty(),
    }
}

/// A walk along import edges that starts at a root.
pub open spec fn is_import_chain(
    files: Seq<(Seq<char>, ContentV)>,
    roots: Seq<Seq<char>>,
    c: Seq<Seq<char>>,
) -> bool {
    &&& c.len() > 0
    &&& roots.contains(c[0])
    &&& forall|i: int| 0 <= i < c.len() - 1 ==> #[trigger] edges_of(files, c[i]).contains(c[i + 1])
}

/// Transitively imported: some import chain from a root ends at `b`.
pub open spec fn reachable(
    files: Seq<(Seq<char>, ContentV)>,
    roots: Seq<Seq<char>>,
    b: Seq<char>,
) -> bool {
    exists|c: Seq<Seq<char>>| is_import_chain(files, roots, c) && c.last() == b
}

proof fn lemma_chain_extend(
    files: Seq<(Seq<char>, ContentV)>,
    roots: Seq<Seq<char>>,
    c: Seq<Seq<char>>,
    e: Seq<char>,
)
    requires
        is_import_chain(files, roots, c),
        edges_of(files, c.last()).contains(e),
    ensures
        is_import_chain(files, roots, c.push(e)),
        c.push(e).last() == e,
{
    let c2 = c.push(e);
    assert(c2[0] == c[0]);
    assert forall|i: int| 0 <= i < c2.len() - 1 implies #[trigger] edges_of(
        files,
        c2[i],
    ).contains(c2[i + 1]) by {
        if i < c.len() - 1 {
            assert(edges_of(files, c[i]).contains(c[i + 1]));
        } else {
            assert(c2[i] == c.last());
        }
    }
}

/// Soundness half: whatever the mark phase visits was handed to it reachable.
proof fn lemma_mark_loop_sound(
    files: Seq<(Seq<char>, ContentV)>,
    visited: Seq<Seq<char>>,
    worklist: Seq<Seq<char>>,
    diagnostics: Seq<(Seq<char>, DiagnosticKind)>,
    roots: Seq<Seq<char>>,
)
    requires
        forall|x: Seq<char>| #[trigger] visited.contains(x) ==> reachable(files, roots, x),
        forall|x: Seq<char>| #[trigger] worklist.contains(x) ==> reachable(files, roots, x),
    ensures
        forall|x: Seq<char>| #[trigger]
            mark_loop(files, visited, worklist, diagnostics).visited.contains(x) ==> reachable(
                files,
                roots,
                x,
            ),
    decreases unvisited_count(files, visited), worklist.len(),
{
    broadcast use vstd::seq_lib::lemma_seq_contains_after_push;

    if worklist.len() > 0 {
        let f = worklist.last();
        let rest = worklist.drop_last();
        let r = mark_loop(files, visited, worklist, diagnostics);
        assert(worklist =~= rest.push(f));
        assert(worklist.contains(f));
        assert forall|x: Seq<char>| #[trigger] rest.contains(x) implies reachable(
            files,
            roots,
            x,
        ) by {
            let i = choose|i: int| 0 <= i < rest.len() && rest[i] == x;
            assert(worklist[i] == x);
            assert(worklist.contains(x));
        }
        if visited.contains(f) {
            lemma_mark_loop_sound(files, visited, rest, diagnostics, roots);
            assert(r == mark_loop(files, visited, rest, diagnostics));
        } else {
            lemma_unvisited_count_claim(files, visited, f);
            let visited2 = visited.push(f);
            assert forall|x: Seq<char>| #[trigger] visited2.contains(x) implies reachable(
                files,
                roots,
                x,
            ) by {}
            match outcome_of(files, f) {
                OutcomeV::Failed(k) => {
                    lemma_mark_loop_sound(files, visited2, rest, diagnostics.push((f, k)), roots);
                    assert(r == mark_loop(files, visited2, rest, diagnostics.push((f, k))));
                },
                OutcomeV::Edges(es) => {
                    assert forall|x: Seq<char>| #[trigger] (rest + es).contains(x) implies
                        reachable(files, roots, x) by {
                        let i = choose|i: int| 0 <= i < (rest + es).len() && (rest + es)[i] == x;
                        if i < rest.len() {
                            assert(rest.contains(x));
                        } else {
                            // x is one of f's edges: extend a chain that ends at f
                            assert(es[i - rest.len()] == x);
                            assert(es.contains(x));
                            assert(edges_of(files, f).contains(x));
                            let c = choose|c: Seq<Seq<char>>|
                                is_import_chain(files, roots, c) && c.last() == f;
                            lemma_chain_extend(files, roots, c, x);
                        }
                    }
                    lemma_mark_loop_sound(files, visited2, rest + es, diagnostics, roots);
                    assert(r == mark_loop(files, visited2, rest + es, diagnostics));
                },
            }
        }
    }
}

/// Completeness half: when the worklist covers every pending edge, the final
/// visited set is closed under import edges.
proof fn lemma_mark_loop_closed(
    files: Seq<(Seq<char>, ContentV)>,
    visited: Seq<Seq<char>>,
    worklist: Seq<Seq<char>>,
    diagnostics: Seq<(Seq<char>, DiagnosticKind)>,
)
    requires
        forall|v: Seq<char>, e: Seq<char>|
            #[trigger] visited.contains(v) && #[trigger] edges_of(files, v).contains(e)
                ==> visited.contains(e) || worklist.contains(e),
    ensures
        forall|v: Seq<char>, e: Seq<char>|
            #[trigger] mark_loop(files, visited, worklist, diagnostics).visited.contains(v)
                && #[trigger] edges_of(files, v).contains(e) ==> mark_loop(
                files,
                visited,
                worklist,
                diagnostics,
            ).visited.contains(e),
    decreases unvisited_count(files, visited), worklist.len(),
{
    broadcast use vstd::seq_lib::lemma_seq_contains_after_push;

    if worklist.len() > 0 {
        let f = worklist.last();
        let rest = worklist.drop_last();
        let r = mark_loop(files, visited, worklist, diagnostics);
        assert(worklist =~= rest.push(f));
        if visited.contains(f) {
            assert forall|v: Seq<char>, e: Seq<char>|
                #[trigger] visited.contains(v) && #[trigger] edges_of(files, v).contains(e)
                    implies visited.contains(e) || rest.contains(e) by {
                if !visited.contains(e) {
                    assert(worklist.contains(e));
                    let i = choose|i: int| 0 <= i < worklist.len() && worklist[i] == e;
                    if i < rest.len() {
                        assert(rest[i] == e);
                    } else {
                        assert(e == f);
                    }
                }
            }
            lemma_mark_loop_closed(files, visited, rest, diagnostics);
            assert(r == mark_loop(files, visited, rest, diagnostics));
        } else {
            lemma_unvisited_count_claim(files, visited, f);
            let visited2 = visited.push(f);
            match outcome_of(files, f) {
                OutcomeV::Failed(k) => {
                    assert(edges_of(files, f) =~= Seq::<Seq<char>>::empty());
                    assert forall|v: Seq<char>, e: Seq<char>|
                        #[trigger] visited2.contains(v) && #[trigger] edges_of(
                            files,
                            v,
                        ).contains(e) implies visited2.contains(e) || rest.contains(e) by {
                        if v != f {
                            assert(visited.contains(v));
                            if !visited.contains(e) {
                                assert(worklist.contains(e));
                                let i = choose|i: int|
                                    0 <= i < worklist.len() && worklist[i] == e;
                                if i < rest.len() {
                                    assert(rest[i] == e);
                                } else {
                                    assert(e == f);
                                }
                            }
                        }
                    }
                    lemma_mark_loop_closed(files, visited2, rest, diagnostics.push((f, k)));
                    assert(r == mark_loop(files, visited2, rest, diagnostics.push((f, k))));
                },
                OutcomeV::Edges(es) => {
                    assert forall|v: Seq<char>, e: Seq<char>|
                        #[trigger] visited2.contains(v) && #[trigger] edges_of(
                            files,
                            v,
                        ).contains(e) implies visited2.contains(e) || (rest + es).contains(
                        e,
                    ) by {
                        if v == f {
                            // f's own edges were just pushed
                            assert(es.contains(e));
                            let i = choose|i: int| 0 <= i < es.len() && es[i] == e;
                            assert((rest + es)[rest.len() + i] == e);
                        } else {
                            assert(visited.contains(v));
                            if !visited.contains(e) {
                                assert(worklist.contains(e));
                                let i = choose|i: int|
                                    0 <= i < worklist.len() && worklist[i] == e;
                                if i < rest.len() {
                                    assert((rest + es)[i] == e);
                                } else {
                                    assert(e == f);
                                }
                            }
                        }
                    }
                    lemma_mark_loop_closed(files, visited2, rest + es, diagnostics);
                    assert(r == mark_loop(files, visited2, rest + es, diagnostics));
                },
            }
        }
    }
}

proof fn lemma_chain_end_visited(
    files: Seq<(Seq<char>, ContentV)>,
    roots: Seq<Seq<char>>,
    c: Seq<Seq<char>>,
    k: int,
)
    requires
        is_import_chain(files, normalize_all(roots), c),
        0 <= k < c.len(),
    ensures
        mark_spec(roots, files).visited.contains(c[k]),
    decreases k,
{
    let r = mark_spec(roots, files);
    if k == 0 {
        lemma_mark_loop_covers(
            files,
            Seq::<Seq<char>>::empty(),
            normalize_all(roots),
            Seq::<(Seq<char>, DiagnosticKind)>::empty(),
        );
        assert(normalize_all(roots).contains(c[0]));
    } else {
        lemma_chain_end_visited(files, roots, c, k - 1);
        lemma_mark_loop_closed(
            files,
            Seq::<Seq<char>>::empty(),
            normalize_all(roots),
            Seq::<(Seq<char>, DiagnosticKind)>::empty(),
        );
        assert(edges_of(files, c[k - 1]).contains(c[(k - 1) + 1]));
        assert(edges_of(files, c[k - 1]).contains(c[k]));
    }
}

/// The meaning of the mark phase (law): a file is visited if and only if some
/// chain of import edges from a (normalized) entry point reaches it — visited
/// is exactly the transitively-imported set, the glossary's "reachable".
pub proof fn lemma_mark_is_reachability(roots: Seq<Seq<char>>, files: Seq<(Seq<char>, ContentV)>)
    ensures
        forall|b: Seq<char>|
            #[trigger] mark_spec(roots, files).visited.contains(b) <==> reachable(
                files,
                normalize_all(roots),
                b,
            ),
{
    let nroots = normalize_all(roots);
    assert forall|b: Seq<char>| #[trigger]
        mark_spec(roots, files).visited.contains(b) implies reachable(files, nroots, b) by {
        assert forall|x: Seq<char>| #[trigger] nroots.contains(x) implies reachable(
            files,
            nroots,
            x,
        ) by {
            let c = seq![x];
            assert(c[0] == x && c.last() == x);
            assert(is_import_chain(files, nroots, c));
        }
        lemma_mark_loop_sound(
            files,
            Seq::<Seq<char>>::empty(),
            nroots,
            Seq::<(Seq<char>, DiagnosticKind)>::empty(),
            nroots,
        );
    }
    assert forall|b: Seq<char>| reachable(files, nroots, b) implies #[trigger]
        mark_spec(roots, files).visited.contains(b) by {
        let c = choose|c: Seq<Seq<char>>| is_import_chain(files, nroots, c) && c.last() == b;
        lemma_chain_end_visited(files, roots, c, c.len() - 1);
    }
}

/// Cycle safety (law): two files that import only each other, traversed from
/// one of them, leave the run with both visited, each exactly once, and the
/// traversal terminates (the mark phase is a total function).
pub proof fn lemma_cycle_safety(
    ra: Seq<char>,
    a: Seq<char>,
    b: Seq<char>,
    ca: ContentV,
    cb: ContentV,
)
    requires
        a != b,
        normalize_spec(ra) == a,
        content_outcome(a, ca) == OutcomeV::Edges(seq![b]),
        content_outcome(b, cb) == OutcomeV::Edges(seq![a]),
    ensures
        mark_spec(seq![ra], seq![(a, ca), (b, cb)]).visited == seq![a, b],
{
    let files = seq![(a, ca), (b, cb)];
    let e: Seq<Seq<char>> = Seq::empty();
    let ed: Seq<(Seq<char>, DiagnosticKind)> = Seq::empty();
    assert(normalize_all(seq![ra]) =~= seq![a]);

    // claim a: mark it, push its one edge b
    assert(!e.contains(a));
    assert(lookup(files, a) == Some(ca));
    assert(seq![a].drop_last() =~= e);
    assert(e + seq![b] =~= seq![b]);
    assert(e.push(a) =~= seq![a]);
    assert(mark_loop(files, e, seq![a], ed) == mark_loop(files, seq![a], seq![b], ed));

    // claim b: a != b, so b is fresh; its one edge a goes back on the list
    assert(!seq![a].contains(b));
    assert(files.drop_first() =~= seq![(b, cb)]);
    assert(lookup(seq![(b, cb)], b) == Some(cb));
    assert(lookup(files, b) == Some(cb));
    assert(seq![b].drop_last() =~= e);
    assert(e + seq![a] =~= seq![a]);
    assert(seq![a].push(b) =~= seq![a, b]);
    assert(mark_loop(files, seq![a], seq![b], ed) == mark_loop(files, seq![a, b], seq![a], ed));

    // the cycle guard: a is already visited, so the claim is dropped
    assert(seq![a, b][0] == a);
    assert(seq![a, b].contains(a));
    assert(seq![a].drop_last() =~= e);
    assert(mark_loop(files, seq![a, b], seq![a], ed) == mark_loop(files, seq![a, b], e, ed));
    assert(mark_loop(files, seq![a, b], e, ed).visited == seq![a, b]);
}

/// Idempotence (law): the sorted unused report is pinned down by its set of
/// paths alone — two runs that classify the same files as unused print the
/// same report, contents and order.
pub proof fn lemma_report_deterministic(r1: Seq<Seq<char>>, r2: Seq<Seq<char>>, s: Set<Seq<char>>)
    requires
        r1.to_set() == s,
        r2.to_set() == s,
        r1.no_duplicates(),
        r2.no_duplicates(),
        sorted_by(r1, lex_leq()),
        sorted_by(r2, lex_leq()),
    ensures
        r1 == r2,
{
    broadcast use vstd::seq_lib::group_to_multiset_ensures;

    crate::order::lemma_lex_total_ordering();
    r1.lemma_multiset_has_no_duplicates();
    r2.lemma_multiset_has_no_duplicates();
    assert(r1.to_multiset() =~= r2.to_multiset()) by {
        assert forall|x: Seq<char>| r1.to_multiset().count(x) == r2.to_multiset().count(x) by {
            assert(r1.contains(x) == s.contains(x));
            assert(r2.contains(x) == s.contains(x));
            assert(r1.contains(x) == (r1.to_multiset().count(x) > 0));
            assert(r2.contains(x) == (r2.to_multiset().count(x) > 0));
        }
    }
    vstd::seq_lib::lemma_sorted_unique(r1, r2, lex_leq());
}

/// Exclusion correctness (law): a path the exclusion policy rejects is never a
/// universe member, so no run's unused report can name it — imported or not.
pub proof fn lemma_excluded_never_reported(
    paths: Seq<Seq<char>>,
    out_dir: Seq<char>,
    x: Seq<char>,
    report: Seq<Seq<char>>,
    visited: Set<Seq<char>>,
)
    requires
        crate::universe::excluded_spec(x, out_dir),
        report.to_set() == crate::universe::universe_spec(paths, out_dir).difference(visited),
    ensures
        !report.contains(x),
{
    broadcast use vstd::seq_lib::group_filter_ensures;

    if report.contains(x) {
        assert(report.to_set().contains(x));
        let mapped = paths.map_values(|p: Seq<char>| normalize_spec(p));
        let kept = mapped.filter(|y: Seq<char>| !crate::universe::excluded_spec(y, out_dir));
        assert(crate::universe::universe_spec(paths, out_dir).contains(x));
        assert(kept.contains(x));
        let i = choose|i: int| 0 <= i < kept.len() && kept[i] == x;
        assert(false);
    }
}

} // verus!
