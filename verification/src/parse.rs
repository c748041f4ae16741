//! Import extraction: finding the delimited front-matter region of a template
//! file and turning its text into import targets resolved against the
//! importing file's directory. The TypeScript parse itself is the one outside
//! capability this module leans on.

use vstd::prelude::*;
use swc_common::sync::Lrc;
use swc_common::{FileName, SourceMap};
use swc_ecma_ast::{ModuleDecl, ModuleItem};
use swc_ecma_parser::lexer::Lexer;
use swc_ecma_parser::{Parser, StringInput, Syntax};
use crate::paths::{resolve_spec, resolve_import};

verus! {

/// The token that fences a template file's front matter.
pub open spec fn delim() -> Seq<char> {
    seq!['-', '-', '-']
}

/// Whether the delimiter occurs at position `i` of `s`.
pub open spec fn delim_at(s: Seq<char>, i: int) -> bool {
    0 <= i && i + 3 <= s.len() && s.subrange(i, i + 3) == delim()
}

/// Position of the first delimiter occurrence at or after `i`, if any.
pub open spec fn find_delim_from(s: Seq<char>, i: int) -> Option<int>
    decreases s.len() - i,
{
    if i + 3 > s.len() {
        None
    } else if delim_at(s, i) {
        Some(i)
    } else {
        find_delim_from(s, i + 1)
    }
}

fn find_delim(s: &str, from: usize) -> (r: Option<usize>)
    requires
        from <= s@.len(),
    ensures
        match r {
            Some(k) => find_delim_from(s@, from as int) == Some(k as int) && from <= k && k + 3
                <= s@.len() && k + 3 <= usize::MAX,
            None => find_delim_from(s@, from as int) is None,
        },
{
    let n = s.unicode_len();
    let mut i: usize = from;
    while n - i >= 3
        invariant
            from <= i <= n,
            n == s@.len(),
            find_delim_from(s@, from as int) == find_delim_from(s@, i as int),
        decreases n - i,
    {
        if s.get_char(i) == '-' && s.get_char(i + 1) == '-' && s.get_char(i + 2) == '-' {
            proof {
                assert(s@.subrange(i as int, i + 3) =~= delim());
            }
            return Some(i);
        }
        proof {
            if delim_at(s@, i as int) {
                assert(s@.subrange(i as int, i + 3)[0] == s@[i as int]);
                assert(s@.subrange(i as int, i + 3)[1] == s@[i + 1]);
                assert(s@.subrange(i as int, i + 3)[2] == s@[i + 2]);
            }
        }
        i = i + 1;
    }
    None
}

/// The front-matter region: the text strictly between the first delimiter and
/// the next one after it. A file with fewer than two delimiters has no front
/// matter, which means "no imports", not an error.
pub open spec fn front_matter_spec(s: Seq<char>) -> Option<Seq<char>> {
    match find_delim_from(s, 0) {
        None => None,
        Some(i) => match find_delim_from(s, i + 3) {
            None => None,
            Some(j) => Some(s.subrange(i + 3, j)),
        },
    }
}

/// Returns the front-matter region of a template file, where imports live.
pub fn extract_front_matter(contents: &String) -> (r: Option<String>)
    ensures
        r.deep_view() == front_matter_spec(contents@),
{
    let s = contents.as_str();
    match find_delim(s, 0) {
        None => None,
        Some(i) => match find_delim(s, i + 3) {
            None => None,
            Some(j) => Some(s.substring_char(i + 3, j).to_owned()),
        },
    }
}

/// What the TypeScript parser finds in a module text: its import specifiers,
/// in source order, or nothing when the text does not parse as a module. The
/// parse is pure, so this is a function of the text alone.
pub uninterp spec fn ts_import_specifiers(text: Seq<char>) -> Option<Seq<Seq<char>>>;

/// Relies on swc_ecma_parser's `Lexer` and `Parser` (over a
/// `swc_common::SourceMap`) to parse TypeScript source, and on
/// `swc_ecma_ast::Module`, whose `body` lists the module's items: each
/// `ModuleDecl::Import` carries the quoted specifier of one import statement.
/// Returns the specifiers in source order; `None` when the text does not parse
/// as a TypeScript module.
#[verifier::external_body]
pub fn parse_ts_file(source: &String) -> (r: Option<Vec<String>>)
    ensures
        r.deep_view() == ts_import_specifiers(source@),
{
    let cm: Lrc<SourceMap> = Default::default();
    let fm = cm.new_source_file(Lrc::new(FileName::Anon), source.to_string());
    let lexer = Lexer::new(Syntax::Typescript(Default::default()), Default::default(), StringInput::from(&*fm), None);
    let mut parser = Parser::new_from(lexer);
    let module = match parser.parse_typescript_module() { Ok(m) => m, Err(_) => return None };
    if !parser.take_errors().is_empty() { return None; }
    let mut out: Vec<String> = Vec::new();
    for item in module.body {
        if let ModuleItem::ModuleDecl(ModuleDecl::Import(d)) = item {
            out.push(d.src.value.to_string_lossy().into_owned());
        }
    }
    Some(out)
}

/// Each specifier resolved against the importing file's directory.
pub open spec fn resolved_imports(filepath: Seq<char>, specs: Seq<Seq<char>>) -> Seq<Seq<char>> {
    specs.map_values(|t: Seq<char>| resolve_spec(filepath, t))
}

/// Resolves raw import specifiers relative to the importing file's directory,
/// normalizing each target.
pub fn get_import_sources(filepath: &String, specifiers: &Vec<String>) -> (r: Vec<String>)
    ensures
        r.deep_view() == resolved_imports(filepath@, specifiers.deep_view()),
{
    let ghost specs = specifiers.deep_view();
    let mut r: Vec<String> = Vec::new();
    let mut k: usize = 0;
    while k < specifiers.len()
        invariant
            k <= specifiers.len(),
            specs == specifiers.deep_view(),
            specs.len() == specifiers.len(),
            r.deep_view() == resolved_imports(filepath@, specs.subrange(0, k as int)),
        decreases specifiers.len() - k,
    {
        let ghost pre = r.deep_view();
        let target = resolve_import(filepath.as_str(), specifiers[k].as_str());
        let ghost tv = target@;
        r.push(target);
        proof {
            assert(r.deep_view() =~= pre.push(tv));
            assert(specs.subrange(0, k + 1) =~= specs.subrange(0, k as int).push(
                specs[k as int],
            ));
            assert(r.deep_view() =~= resolved_imports(filepath@, specs.subrange(0, k + 1)));
        }
        k = k + 1;
    }
    proof {
        assert(specs.subrange(0, specs.len() as int) =~= specs);
    }
    r
}

/// The resolved import targets of a template file: its front-matter imports,
/// resolved relative to the file itself. `None` when the file has no front
/// matter or the front matter does not parse.
pub open spec fn import_paths_spec(filepath: Seq<char>, contents: Seq<char>) -> Option<
    Seq<Seq<char>>,
> {
    match front_matter_spec(contents) {
        None => None,
        Some(fm) => match ts_import_specifiers(fm) {
            None => None,
            Some(specs) => Some(resolved_imports(filepath, specs)),
        },
    }
}

/// Extracts and resolves the imports written in a template file's front matter.
pub fn extract_import_paths(filepath: &String, contents: &String) -> (r: Option<Vec<String>>)
    ensures
        r.deep_view() == import_paths_spec(filepath@, contents@),
{
    match extract_front_matter(contents) {
        None => None,
        Some(fm) => match parse_ts_file(&fm) {
            None => None,
            Some(specs) => Some(get_import_sources(filepath, &specs)),
        },
    }
}

} // verus!
