//! The combined framework resolver: tries the Astro detector first, then the
//! Next.js one. The filesystem probes run outside and hand in plain values:
//! whether each marker config exists, and the directory listings each detector
//! reads its entries from.

use vstd::prelude::*;
use crate::astro;
use crate::astro::{astro_page_files, astro_system_files};
use crate::next;
use crate::next::next_page_files;
use crate::paths::normalize_spec;

verus! {

/// What the resolver decided a package is.
pub enum Framework {
    NextJs(next::NextJsDef),
    Astro(astro::AstroDef),
    Unknown,
}

/// Decides what framework a package is: the Astro marker wins, the Next.js
/// marker comes second, and a package with neither is unknown.
pub fn resolve_package_framework(
    package_path: &String,
    has_astro_config: bool,
    astro_pages_files: &Vec<String>,
    has_next_config: bool,
    next_app_files: &Vec<String>,
) -> (r: Framework)
    ensures
        has_astro_config ==> (r matches Framework::Astro(d) && d.root@ == normalize_spec(
            package_path@,
        ) && d.entries.deep_view() == astro_page_files(astro_pages_files.deep_view())
            + astro_system_files(normalize_spec(package_path@)) && d.out_dir@ == package_path@
            + seq!['/'] + "dist"@),
        !has_astro_config && has_next_config ==> (r matches Framework::NextJs(d)
            && d.entries.deep_view() == next_page_files(next_app_files.deep_view())),
        !has_astro_config && !has_next_config ==> r is Unknown,
{
    if let Some(astro_def) = astro::get_definition(
        package_path,
        has_astro_config,
        astro_pages_files,
    ) {
        return Framework::Astro(astro_def);
    }
    if let Some(next_def) = next::get_definition(has_next_config, next_app_files) {
        return Framework::NextJs(next_def);
    }
    Framework::Unknown
}

} // verus!
