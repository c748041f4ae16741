use ts_garbage_collector::astro;
use ts_garbage_collector::astro::AstroDef;
use ts_garbage_collector::def;
use ts_garbage_collector::frameworks;
use ts_garbage_collector::next;
use ts_garbage_collector::next::NextJsDef;

fn next_fixture_root() -> String {
    String::from("/work/dist/frameworks/next/14.2.3/app-dir-no-import-alias")
}

fn astro_fixture_root() -> String {
    String::from("/work/dist/frameworks/astro/4.8.0/vanilla")
}

/// Every file a walk of the Next.js fixture's app directory finds.
fn next_app_listing() -> Vec<String> {
    let root = next_fixture_root();
    vec![
        format!("{}/app/layout.tsx", root),
        format!("{}/app/page.tsx", root),
        format!("{}/app/favicon.ico", root),
        format!("{}/app/globals.css", root),
        format!("{}/app/page.module.css", root),
        format!("{}/app/foo/page.tsx", root),
        format!("{}/app/foo/template.tsx", root),
        format!("{}/app/unused.tsx", root),
    ]
}

fn next_expected_entries() -> Vec<String> {
    let root = next_fixture_root();
    vec![
        format!("{}/app/layout.tsx", root),
        format!("{}/app/page.tsx", root),
        format!("{}/app/foo/page.tsx", root),
        format!("{}/app/foo/template.tsx", root),
    ]
}

/// Every file a walk of the Astro fixture's pages directory finds.
fn astro_pages_listing() -> Vec<String> {
    let root = astro_fixture_root();
    vec![
        format!("{}/src/pages/index.astro", root),
        format!("{}/src/pages/page.astro", root),
    ]
}

#[test]
fn next_js() {
    let result = def::resolve_package_framework(true, &Some(next_app_listing()));
    assert!(matches!(result, def::Framework::NextJs(_config)));
}

#[test]
fn next_js_routes() {
    let result = def::resolve_package_framework(true, &Some(next_app_listing()));
    match result {
        def::Framework::NextJs(config) => {
            let mut expected = next_expected_entries();
            expected.sort();
            let mut entries = config.entries;
            entries.sort();
            assert_eq!(expected, entries);
        }
        def::Framework::Error => {
            panic!("Error!");
        }
        def::Framework::Unknown => {
            panic!("Error!");
        }
    }
}

#[test]
fn resolve_unknown_without_marker() {
    let result = def::resolve_package_framework(false, &Some(next_app_listing()));
    assert!(matches!(result, def::Framework::Unknown));
}

#[test]
fn resolve_error_when_walk_failed() {
    let result = def::resolve_package_framework(true, &None);
    assert!(matches!(result, def::Framework::Error));
}

#[test]
fn test_resolve_package_framework_nextjs() {
    let next_dir = next_fixture_root();
    let result = frameworks::resolve_package_framework(
        &next_dir,
        false,
        &Vec::new(),
        true,
        &next_app_listing(),
    );
    assert!(matches!(result, frameworks::Framework::NextJs(_config)));
}

#[test]
fn test_resolve_package_framework_astro() {
    let astro_dir = astro_fixture_root();
    let result = frameworks::resolve_package_framework(
        &astro_dir,
        true,
        &astro_pages_listing(),
        false,
        &Vec::new(),
    );
    assert!(matches!(result, frameworks::Framework::Astro(_config)));
}

#[test]
fn resolve_unknown_without_any_marker() {
    let dir = String::from("/work/plain-package");
    let result =
        frameworks::resolve_package_framework(&dir, false, &Vec::new(), false, &Vec::new());
    assert!(matches!(result, frameworks::Framework::Unknown));
}

#[test]
fn astro_test_get_definition() {
    let astro_dir = astro_fixture_root();
    let result = astro::get_definition(&astro_dir, true, &astro_pages_listing());
    assert!(matches!(
        result,
        Some(AstroDef {
            root: _,
            entries: _,
            out_dir: _,
        })
    ));
}

#[test]
fn definition() {
    let astro_dir = astro_fixture_root();
    let result = astro::get_definition(&astro_dir, true, &astro_pages_listing()).unwrap();

    assert_eq!(
        ts_garbage_collector::paths::normalize(&astro_dir),
        result.root,
    );

    let mut expected = vec![
        format!("{}/src/pages/index.astro", astro_dir),
        format!("{}/src/pages/page.astro", astro_dir),
        format!("{}/README.md", astro_dir),
        format!("{}/astro.config.mjs", astro_dir),
        format!("{}/.gitignore", astro_dir),
        format!("{}/tsconfig.json", astro_dir),
        format!("{}/package.json", astro_dir),
        format!("{}/src/env.d.ts", astro_dir),
    ];
    expected.sort();
    let mut entries = result.entries;
    entries.sort();
    assert_eq!(expected, entries);
    assert_eq!(format!("{}/dist", astro_dir), result.out_dir);
}

#[test]
fn astro_definition_requires_marker() {
    let astro_dir = astro_fixture_root();
    let result = astro::get_definition(&astro_dir, false, &astro_pages_listing());
    assert!(result.is_none());
}

#[test]
fn next_test_get_definition() {
    let result = next::get_definition(true, &next_app_listing());
    assert!(matches!(result, Some(NextJsDef { entries: _ })));
}

#[test]
fn test_get_definition_entries() {
    let result = next::get_definition(true, &next_app_listing());
    let mut expected = next_expected_entries();
    expected.sort();
    let mut entries = result.unwrap().entries;
    entries.sort();
    assert_eq!(expected, entries);
}

#[test]
fn next_definition_requires_marker() {
    let result = next::get_definition(false, &next_app_listing());
    assert!(result.is_none());
}
