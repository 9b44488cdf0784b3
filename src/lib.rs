//! Finds runs of duplicated lines across a set of files.
//!
//! Each file becomes a sequence of line signatures; windows of consecutive
//! signatures index candidate duplicates; candidates are extended to their
//! maximal length, merged into groups, scrubbed and ordered for reporting.

pub mod analysis;
pub mod config;
pub mod extend;
pub mod group;
pub mod hashing;
pub mod ignore;
pub mod interner;
pub mod parallel;
pub mod pipeline;
pub mod registry;
pub mod report;
pub mod text;
pub mod window;

pub use analysis::find_duplicates;
pub use config::{Options, MIN_LINES_FLOOR};
pub use extend::{maximize_collision, overlap, walk_collision, Anchor, Collision, Entry};
pub use ignore::{get_ignore_hashes, parse_ignore_line, IgnoreLine, IgnoreList};
pub use interner::FileId;
pub use pipeline::find_collisions;
pub use report::{apply_ignores, process_report, Summary};
pub use text::{hash_text, signatures_from_bytes};
pub use window::rolling_hashes;
