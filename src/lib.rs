//! Read-only views over mod packages (plain directories and ZIP files): the
//! canonical order of virtual paths, entry lists with directory lookup and
//! merging, ZIP central-directory parsing, the merged view of several sources,
//! and the load-order engine that consumes installed mods.
//!
//! - `order`: the path comparator and its laws.
//! - `list`: entries, entry lists, prefixes.
//! - `zip`: ZIP records, listing and member extraction.
//! - `archive`: the merged view, the copy plan and the layout check.
//! - `monitor`: the cancellation flag.
//! - `engine`: load-order file and dependency ordering of mods.
//! - `extract`, `patch`, `text`, `error`: supporting pieces.

pub mod archive;
pub mod engine;
pub mod error;
pub mod extract;
pub mod list;
pub mod monitor;
pub mod order;
pub mod patch;
pub mod text;
pub mod zip;
