use ts_garbage_collector::parse::{
    extract_front_matter, extract_import_paths, get_import_sources, parse_ts_file,
};

#[test]
fn test_extract_import_paths() {
    let source = String::from(
        "
        ---
          import { foo } from '../foo/bar.astro';
        ---

        <div>HTML</div>
        ",
    );

    assert_eq!(
        extract_import_paths(&String::from("/some/path/index.astro"), &source).unwrap(),
        vec![String::from("/some/foo/bar.astro")],
    );
}

#[test]
fn test_get_import_sources() {
    let parsed = parse_ts_file(&String::from("import { foo } from './somewhere';")).unwrap();
    let result = get_import_sources(&String::from("/path/to/test.ts"), &parsed);
    assert_eq!(result, vec![String::from("/path/to/somewhere")]);
}

#[test]
fn import_sources_keep_order() {
    let parsed = parse_ts_file(&String::from(
        "import a from './one';\nimport b from '../two';\nexport const c = 1;",
    ))
    .unwrap();
    let result = get_import_sources(&String::from("/p/src/main.ts"), &parsed);
    assert_eq!(
        result,
        vec![String::from("/p/src/one"), String::from("/p/two")]
    );
}

#[test]
fn absolute_specifier_stands_alone() {
    let parsed = parse_ts_file(&String::from("import a from '/lib/util.ts';")).unwrap();
    let result = get_import_sources(&String::from("/p/src/main.ts"), &parsed);
    assert_eq!(result, vec![String::from("/lib/util.ts")]);
}

#[test]
fn front_matter_needs_two_delimiters() {
    assert_eq!(extract_front_matter(&String::from("no delimiters here")), None);
    assert_eq!(
        extract_front_matter(&String::from("--- only one opens")),
        None
    );
    assert_eq!(
        extract_front_matter(&String::from("x --- head --- body")),
        Some(String::from(" head "))
    );
    assert_eq!(
        extract_front_matter(&String::from("---a---b---")),
        Some(String::from("a"))
    );
}

#[test]
fn module_without_imports_yields_nothing() {
    let parsed = parse_ts_file(&String::from("export const x = 1;")).unwrap();
    assert_eq!(parsed.len(), 0);
}

#[test]
fn broken_module_does_not_parse() {
    assert!(parse_ts_file(&String::from("import { from ;;; (")).is_none());
}

#[test]
fn file_without_front_matter_has_no_import_paths() {
    let result = extract_import_paths(
        &String::from("/p/a.ts"),
        &String::from("import { x } from './y';"),
    );
    assert_eq!(result, None);
}
