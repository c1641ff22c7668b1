//! Rechunking library: turns a root filesystem tree into at most K layer
//! groups chosen to maximize expected byte reuse across rebuilds.
//!
//! The pipeline, leaves first: the scanner (`scan`) turns raw walk
//! records into an ordered file inventory (`filemap`); the component
//! providers (`components`) assign every path to a logical unit using
//! package-manager metadata or size heuristics; each component gets a
//! stability score (`utils`); the packer (`packing`) merges components
//! into at most K groups to maximize expected value; and the build glue
//! (`cmd_build`) folds label mutations and turns packed groups back into
//! named layer components.

pub mod cmd_build;
pub mod components;
pub mod filemap;
pub mod packing;
pub mod pathutil;
pub mod scan;
pub mod strutil;
pub mod utils;
