use ts_garbage_collector::astro::{get_unused_files, AstroDef, UnusedReport};
use ts_garbage_collector::engine::{mark, DiagnosticKind, FileContent, SourceFile};
use ts_garbage_collector::universe::{is_excluded, PathSet};
use ts_garbage_collector::engine::mark_file_as_used;

fn text_file(path: &str, contents: &str) -> SourceFile {
    SourceFile {
        path: String::from(path),
        content: FileContent::Text(String::from(contents)),
    }
}

/// The Astro fixture: a vanilla project plus one page importing the layout and
/// card, and one component nothing imports.
fn astro_fixture() -> (AstroDef, Vec<SourceFile>) {
    let root = String::from("/work/dist/frameworks/astro/4.8.0/vanilla");
    let page_front_matter = "
---
import Layout from '../layouts/Layout.astro';
import Card from '../components/Card.astro';
---

<div>Used</div>
";
    let files = vec![
        text_file(&format!("{}/src/pages/index.astro", root), page_front_matter),
        text_file(&format!("{}/src/pages/page.astro", root), page_front_matter),
        text_file(
            &format!("{}/src/layouts/Layout.astro", root),
            "---\ninterface Props { title: string; }\n---\n<html></html>",
        ),
        text_file(
            &format!("{}/src/components/Card.astro", root),
            "---\ninterface Props { href: string; }\n---\n<li></li>",
        ),
        text_file(&format!("{}/src/components/unused.tsx", root), "// unused!"),
        text_file(&format!("{}/src/env.d.ts", root), "/* ambient types */"),
        text_file(&format!("{}/README.md", root), "# Astro Starter Kit"),
        text_file(&format!("{}/astro.config.mjs", root), "export default {};"),
        text_file(&format!("{}/tsconfig.json", root), "{}"),
        text_file(&format!("{}/package.json", root), "{ \"name\": \"vanilla\" }"),
        text_file(&format!("{}/.gitignore", root), "dist"),
        text_file(&format!("{}/public/favicon.svg", root), "<svg></svg>"),
    ];
    let pages = vec![
        format!("{}/src/pages/index.astro", root),
        format!("{}/src/pages/page.astro", root),
    ];
    let def = ts_garbage_collector::astro::get_definition(&root, true, &pages).unwrap();
    (def, files)
}

#[test]
fn test_get_unused_files() {
    let (def, files) = astro_fixture();
    let root = String::from("/work/dist/frameworks/astro/4.8.0/vanilla");
    let report = get_unused_files(&def, &files);
    assert_eq!(
        vec![format!("{}/src/components/unused.tsx", root)],
        report.unused,
    );
}

#[test]
fn scenario_entry_imports_template() {
    // project root /p: the entry imports a template; a third file hangs loose
    let def = AstroDef {
        root: String::from("/p"),
        entries: vec![String::from("/p/app/page.tsx")],
        out_dir: String::from("/p/dist"),
    };
    let files = vec![
        text_file(
            "/p/app/page.tsx",
            "---\nimport T from './foo/template.tsx';\n---\n<T/>",
        ),
        text_file("/p/app/foo/template.tsx", "export default 1;"),
        text_file("/p/app/unused.tsx", "// unused!"),
    ];
    let report = get_unused_files(&def, &files);
    assert_eq!(vec![String::from("/p/app/unused.tsx")], report.unused);
    assert_eq!(report.diagnostics.len(), 0);
}

#[test]
fn scenario_front_matter_resolution() {
    // the front-matter import of /p/pages/index.ext lands on /p/foo/bar
    let paths = ts_garbage_collector::parse::extract_import_paths(
        &String::from("/p/pages/index.ext"),
        &String::from("---\nimport { x } from '../foo/bar';\n---\n<div></div>"),
    )
    .unwrap();
    assert_eq!(paths, vec![String::from("/p/foo/bar")]);

    let roots = vec![String::from("/p/pages/index.ext")];
    let files = vec![
        text_file(
            "/p/pages/index.ext",
            "---\nimport { x } from '../foo/bar';\n---\n<div></div>",
        ),
        text_file("/p/foo/bar", "export const x = 1;"),
    ];
    let marked = mark(&roots, &files);
    assert!(marked.visited.contains(&String::from("/p/foo/bar")));
}

#[test]
fn scenario_unreadable_file_is_visited_with_one_diagnostic() {
    let def = AstroDef {
        root: String::from("/p"),
        entries: vec![String::from("/p/entry.astro")],
        out_dir: String::from("/p/dist"),
    };
    let files = vec![
        text_file(
            "/p/entry.astro",
            "---\nimport b from './binary.dat';\n---\n<div></div>",
        ),
        SourceFile {
            path: String::from("/p/binary.dat"),
            content: FileContent::NotUtf8,
        },
    ];
    let report = get_unused_files(&def, &files);
    assert_eq!(report.diagnostics.len(), 1);
    assert_eq!(report.diagnostics[0].file, String::from("/p/binary.dat"));
    assert!(matches!(report.diagnostics[0].kind, DiagnosticKind::NotUtf8));
    // visited despite the failure: it is not reported unused
    assert_eq!(report.unused.len(), 0);
}

#[test]
fn scenario_manifest_always_live() {
    // package.json is never imported, yet never reported: it is an entry
    let root = String::from("/work/dist/frameworks/astro/4.8.0/vanilla");
    let (def, files) = astro_fixture();
    assert!(def.entries.contains(&format!("{}/package.json", root)));
    let report = get_unused_files(&def, &files);
    assert!(!report
        .unused
        .contains(&format!("{}/package.json", root)));
}

#[test]
fn cycle_terminates_with_both_visited_once() {
    let roots = vec![String::from("/p/a.astro")];
    let files = vec![
        text_file("/p/a.astro", "---\nimport b from './b.astro';\n---\n"),
        text_file("/p/b.astro", "---\nimport a from './a.astro';\n---\n"),
    ];
    let marked = mark(&roots, &files);
    assert_eq!(
        marked.visited,
        vec![String::from("/p/a.astro"), String::from("/p/b.astro")]
    );
}

#[test]
fn run_twice_yields_identical_reports() {
    let (def1, files1) = astro_fixture();
    let (def2, files2) = astro_fixture();
    let r1 = get_unused_files(&def1, &files1);
    let r2 = get_unused_files(&def2, &files2);
    assert_eq!(r1.unused, r2.unused);
    assert_eq!(r1.diagnostics.len(), r2.diagnostics.len());
}

#[test]
fn excluded_directories_never_reported() {
    let def = AstroDef {
        root: String::from("/p"),
        entries: vec![String::from("/p/entry.ts")],
        out_dir: String::from("/p/dist"),
    };
    let files = vec![
        text_file("/p/entry.ts", "// no front matter, no imports"),
        text_file("/p/node_modules/dep/index.js", "// vendored, unreferenced"),
        text_file("/p/.vscode/settings.json", "{}"),
        text_file("/p/public/favicon.svg", "<svg></svg>"),
        text_file("/p/dist/bundle.js", "// build output"),
        text_file("/p/orphan.ts", "// truly unused"),
    ];
    let report = get_unused_files(&def, &files);
    assert_eq!(vec![String::from("/p/orphan.ts")], report.unused);
}

#[test]
fn report_is_sorted_by_path() {
    let def = AstroDef {
        root: String::from("/p"),
        entries: vec![String::from("/p/entry.ts")],
        out_dir: String::from("/p/dist"),
    };
    let files = vec![
        text_file("/p/entry.ts", ""),
        text_file("/p/zebra.ts", ""),
        text_file("/p/alpha.ts", ""),
        text_file("/p/middle.ts", ""),
    ];
    let report = get_unused_files(&def, &files);
    assert_eq!(
        report.unused,
        vec![
            String::from("/p/alpha.ts"),
            String::from("/p/middle.ts"),
            String::from("/p/zebra.ts"),
        ]
    );
}

#[test]
fn missing_import_target_is_inert() {
    // an import pointing outside the snapshot is visited, diagnosed, and has
    // no effect on the report
    let def = AstroDef {
        root: String::from("/p"),
        entries: vec![String::from("/p/entry.astro")],
        out_dir: String::from("/p/dist"),
    };
    let files = vec![text_file(
        "/p/entry.astro",
        "---\nimport g from './gone.ts';\n---\n",
    )];
    let report = get_unused_files(&def, &files);
    assert_eq!(report.unused.len(), 0);
    assert_eq!(report.diagnostics.len(), 1);
    assert_eq!(report.diagnostics[0].file, String::from("/p/gone.ts"));
    assert!(matches!(
        report.diagnostics[0].kind,
        DiagnosticKind::Unreadable
    ));
}

#[test]
fn unparseable_front_matter_is_a_leaf_with_diagnostic() {
    let def = AstroDef {
        root: String::from("/p"),
        entries: vec![String::from("/p/entry.astro")],
        out_dir: String::from("/p/dist"),
    };
    let files = vec![text_file(
        "/p/entry.astro",
        "---\nimport { from ;;; (\n---\n",
    )];
    let report = get_unused_files(&def, &files);
    assert_eq!(report.diagnostics.len(), 1);
    assert!(matches!(
        report.diagnostics[0].kind,
        DiagnosticKind::Unparseable
    ));
    assert_eq!(report.unused.len(), 0);
}

#[test]
fn mark_file_as_used_removes_the_key() {
    let mut unused = PathSet::new();
    unused.insert(String::from("/p/a.ts"));
    unused.insert(String::from("/p/b.ts"));
    mark_file_as_used(&String::from("/p/a.ts"), &mut unused);
    assert!(!unused.contains(&String::from("/p/a.ts")));
    assert!(unused.contains(&String::from("/p/b.ts")));
    // marking twice is the same as once
    mark_file_as_used(&String::from("/p/a.ts"), &mut unused);
    assert!(!unused.contains(&String::from("/p/a.ts")));
}

#[test]
fn exclusion_policy_names_the_noise() {
    let out = String::from("/p/dist");
    assert!(is_excluded(&String::from("/p/node_modules/x.js"), &out));
    assert!(is_excluded(&String::from("/p/.vscode/settings.json"), &out));
    assert!(is_excluded(&String::from("/p/public/icon.svg"), &out));
    assert!(is_excluded(&String::from("/p/cache/.astro/types.d.ts"), &out));
    assert!(is_excluded(&String::from("/p/dist/out.js"), &out));
    assert!(!is_excluded(&String::from("/p/src/main.ts"), &out));
}

#[test]
fn report_carries_diagnostics_without_changing_contents() {
    // a failing file and an unused file: the diagnostic names one, the report
    // names the other
    let def = AstroDef {
        root: String::from("/p"),
        entries: vec![String::from("/p/entry.astro")],
        out_dir: String::from("/p/dist"),
    };
    let files = vec![
        text_file("/p/entry.astro", "---\nimport b from './bad.bin';\n---\n"),
        SourceFile {
            path: String::from("/p/bad.bin"),
            content: FileContent::Unreadable,
        },
        text_file("/p/orphan.ts", ""),
    ];
    let report = get_unused_files(&def, &files);
    assert_eq!(vec![String::from("/p/orphan.ts")], report.unused);
    assert_eq!(report.diagnostics.len(), 1);
    assert!(matches!(
        report.diagnostics[0].kind,
        DiagnosticKind::Unreadable
    ));
}

#[test]
fn unused_report_shape() {
    let (def, files) = astro_fixture();
    let UnusedReport {
        unused,
        diagnostics,
    } = get_unused_files(&def, &files);
    assert_eq!(unused.len(), 1);
    assert_eq!(diagnostics.len(), 0);
}
