//! What a call of `apply_patch` asks for.
use vstd::prelude::*;

use crate::error::ApplyPatchError;
use crate::parser::option_text;
use crate::path::{absolute, file_name, file_name_of, parent, parent_of};
use crate::text::{append_str, chars_of, string_of};

verus! {

/// What happens to a file.
#[derive(Debug, PartialEq, Eq)]
pub enum ApplyPatchFileChange {
    Add { content: String },
    Delete { content: String },
    Update {
        unified_diff: String,
        move_path: Option<String>,
        /// The contents of the file afterwards.
        new_content: String,
    },
}

/// Whether a call is one of `apply_patch`, and what it asks for.
#[derive(Debug, PartialEq)]
pub enum MaybeApplyPatchVerified {
    /// The changes that the call asks for.
    Body(ApplyPatchAction),
    /// The call could not be understood: why.
    ShellParseError(String),
    /// The call is one of `apply_patch` that cannot be carried out.
    CorrectnessError(ApplyPatchError),
    /// The call is none of `apply_patch`.
    NotApplyPatch,
}

/// What happens to which file: at most one change for a path.
#[derive(Debug, PartialEq, Eq)]
struct FileChanges {
    entries: Vec<(String, ApplyPatchFileChange)>,
}

/// The changes that a call of `apply_patch` asks for. All paths are absolute.
#[derive(Debug, PartialEq, Eq)]
pub struct ApplyPatchAction {
    changes: FileChanges,
    /// The text of the patch, without what a shell put around it.
    pub patch: String,
    /// The directory that relative paths in the patch start from.
    pub cwd: String,
}

/// The text of a patch that adds a line with the given contents to a file.
pub open spec fn sample_patch(name: Seq<char>, content: Seq<char>) -> Seq<char> {
    "*** Begin Patch\n*** Update File: "@ + name + "\n@@\n+ "@ + content + "\n*** End Patch"@
}

/// What happens to a file, by its texts.
#[verifier::ext_equal]
pub ghost enum FileChangeModel {
    Add { content: Seq<char> },
    Delete { content: Seq<char> },
    Update { unified_diff: Seq<char>, move_path: Option<Seq<char>>, new_content: Seq<char> },
}

impl View for ApplyPatchFileChange {
    type V = FileChangeModel;

    open spec fn view(&self) -> FileChangeModel {
        match self {
            ApplyPatchFileChange::Add { content } => FileChangeModel::Add { content: content@ },
            ApplyPatchFileChange::Delete { content } => FileChangeModel::Delete {
                content: content@,
            },
            ApplyPatchFileChange::Update { unified_diff, move_path, new_content } =>
                FileChangeModel::Update {
                unified_diff: unified_diff@,
                move_path: option_text(*move_path),
                new_content: new_content@,
            },
        }
    }
}

/// What an action holds.
#[verifier::ext_equal]
pub ghost struct ActionModel {
    pub changes: Seq<(Seq<char>, FileChangeModel)>,
    pub patch: Seq<char>,
    pub cwd: Seq<char>,
}

pub open spec fn file_changes(v: Seq<(String, ApplyPatchFileChange)>) -> Seq<
    (Seq<char>, FileChangeModel),
> {
    Seq::new(v.len(), |i: int| (v[i].0@, v[i].1@))
}

/// No path occurs twice.
pub open spec fn distinct_paths(changes: Seq<(Seq<char>, FileChangeModel)>) -> bool {
    forall|i: int, j: int|
        0 <= i < j < changes.len() ==> (#[trigger] changes[i]).0 != (#[trigger] changes[j]).0
}

impl FileChanges {
    #[verifier::type_invariant]
    spec fn has_distinct_paths(&self) -> bool {
        distinct_paths(file_changes(self.entries@))
    }
}

impl View for ApplyPatchAction {
    type V = ActionModel;

    closed spec fn view(&self) -> ActionModel {
        ActionModel {
            changes: file_changes(self.changes.entries@),
            patch: self.patch@,
            cwd: self.cwd@,
        }
    }
}

impl ApplyPatchAction {
    /// Whether nothing changes.
    pub fn is_empty(&self) -> (r: bool)
        ensures
            r == (self@.changes.len() == 0),
    {
        self.changes.entries.len() == 0
    }

    /// The changes, each with the path of its file. No path occurs twice.
    pub fn changes(&self) -> (r: &[(String, ApplyPatchFileChange)])
        ensures
            file_changes(r@) == self@.changes,
            distinct_paths(self@.changes),
    {
        proof {
            use_type_invariant(&self.changes);
        }
        self.changes.entries.as_slice()
    }

    /// An action that adds one file, for tests.
    pub fn new_add_for_test(path: &str, content: String) -> (r: Self)
        requires
            absolute(path@),
            file_name_of(path@) is Some,
        ensures
            r@ == (ActionModel {
                changes: seq![(path@, FileChangeModel::Add { content: content@ })],
                patch: sample_patch(file_name_of(path@)->0, content@),
                cwd: parent_of(path@),
            }),
    {
        let mut patch: Vec<char> = chars_of("*** Begin Patch\n*** Update File: ");
        match file_name(path) {
            Some(name) => {
                append_str(&mut patch, name.as_str());
            },
            None => {},
        }
        append_str(&mut patch, "\n@@\n+ ");
        append_str(&mut patch, content.as_str());
        append_str(&mut patch, "\n*** End Patch");
        let mut entries: Vec<(String, ApplyPatchFileChange)> = Vec::new();
        let ghost added = FileChangeModel::Add { content: content@ };
        entries.push((path.to_string(), ApplyPatchFileChange::Add { content }));
        assert(file_changes(entries@) =~= seq![(path@, added)]);
        let changes: FileChanges = FileChanges { entries };
        ApplyPatchAction { changes, patch: string_of(patch.as_slice()), cwd: parent(path) }
    }
}

} // verus!
