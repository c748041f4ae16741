//! Dead-file detection for front-end projects: a static reachability analysis
//! over a project's import graph. Framework entry files seed a mark phase that
//! follows import edges; every candidate file never visited is reported unused.

pub mod astro;
pub mod def;
pub mod diff_paths;
pub mod engine;
pub mod frameworks;
pub mod next;
pub mod order;
pub mod parse;
pub mod paths;
pub mod universe;
