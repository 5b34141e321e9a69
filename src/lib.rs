//! Finding byte-identical files and collapsing them: staged grouping by size,
//! partial and full content fingerprints, canonical selection, presentation
//! order, and the safety rules of the delete / hard-link actions.

pub mod pathname;
pub mod group;
pub mod grouping;
pub mod order;
pub mod actions;
pub mod fingerprint;
pub mod filters;

pub use actions::{
    action_gate, dupe_positions, finish_dupe, plan_dupe, run_failed, same_device, same_inode,
    ActionGate, ActionMode, ActionStats, DupeOutcome, DupeRef, DupeStep, FileId,
};
pub use filters::{keep_file, matches_ext, parse_exts, ExtSet};
pub use fingerprint::{clamp_quick_bytes, Fingerprinter};
pub use group::DuplicateGroup;
pub use grouping::{
    collect_groups, files_in_groups, group_by_size, split_by_print, total_reclaimable, FileEntry,
    PrintBucket, SizeBucket,
};
pub use order::sort_for_presentation;
