//! Patches for source files: parsing, repair, and application.
//!
//! A patch is a text that says which files to add, delete or update. `parse_patch`
//! reads it, and repairs it first where its lines were run together. `apply_patch`
//! finds the lines to replace in the files that the patch names, moves the new lines
//! to the indentation of the code around them, checks that no file gets worse, and
//! says what there is to do.
use vstd::prelude::*;

pub mod account_laws;
pub mod action;
pub mod anchor_finder;
pub mod apply;
pub mod bytes;
pub mod calm;
pub mod diff_line;
pub mod error;
pub mod file_marker;
pub mod grammar;
pub mod indent;
pub mod language;
pub mod lines;
pub mod markers;
pub mod parse_laws;
pub mod parser;
pub mod patch_lines;
pub mod path;
pub mod probe_laws;
pub mod repair;
pub mod repair_laws;
pub mod replace;
pub mod report_laws;
pub mod robustness;
pub mod run_together;
pub mod scope_laws;
pub mod seek_sequence;
pub mod split_laws;
pub mod symbols;
pub mod syntax_guard;
pub mod syntax_tree;
pub mod text;
pub mod transaction;

pub use crate::action::{ApplyPatchAction, ApplyPatchFileChange, MaybeApplyPatchVerified};
pub use crate::apply::{
    apply_hunks, apply_patch, print_summary, unified_diff_from_chunks,
    unified_diff_from_chunks_with_context, Applied, ApplyPatchFileUpdate, FileSnapshot, Refused,
    CODEX_CORE_APPLY_PATCH_ARG1,
};
pub use crate::error::{ApplyPatchError, IoError};
pub use crate::indent::correct_indentation;
pub use crate::parser::{parse_patch, ApplyPatchArgs, Hunk, ParseError, UpdateFileChunk};
pub use crate::transaction::{AffectedPaths, Commit, FileOperation, OperationStep};

verus! {

} // verus!
