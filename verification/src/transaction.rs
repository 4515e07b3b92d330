//! Changes of several files that are made together or not at all.
use vstd::prelude::*;

use crate::language::{language_of, SupportedLanguage};
use crate::lines::strings;
use crate::syntax_guard::{
    compute_error_delta, delta_of, diagnostic_models, diagnostics, error_models, extract_errors,
    file_validation, generate_diagnostics, in_tree, is_broken, is_sound,
    law_breaking_a_sound_file_is_refused, lemma_broken_node_is_told, new_count, opt_range,
    source_errors, validate_file_change, DiagnosticInfo, DiagnosticModel, ErrorDelta, ErrorModel,
    SyntaxError, ValidationModel, ValidationResult,
};
use crate::syntax_tree::{syntax_tree, SyntaxModel};

verus! {

// ---------------------------------------------------------------------------
// Changes
// ---------------------------------------------------------------------------
/// A change of a file that has not been made yet.
#[derive(Debug)]
pub enum PendingChange {
    Add { path: String, content: String },
    Update {
        path: String,
        original_content: String,
        new_content: String,
        patch_byte_range: Option<(usize, usize)>,
    },
    Delete { path: String, original_content: String },
}

/// What a change holds.
#[verifier::ext_equal]
pub ghost enum ChangeModel {
    Add { path: Seq<char>, content: Seq<char> },
    Update {
        path: Seq<char>,
        original_content: Seq<char>,
        new_content: Seq<char>,
        patch_byte_range: Option<(int, int)>,
    },
    Delete { path: Seq<char>, original_content: Seq<char> },
}

impl View for PendingChange {
    type V = ChangeModel;

    open spec fn view(&self) -> ChangeModel {
        match self {
            PendingChange::Add { path, content } => ChangeModel::Add {
                path: path@,
                content: content@,
            },
            PendingChange::Update { path, original_content, new_content, patch_byte_range } =>
                ChangeModel::Update {
                path: path@,
                original_content: original_content@,
                new_content: new_content@,
                patch_byte_range: opt_range(*patch_byte_range),
            },
            PendingChange::Delete { path, original_content } => ChangeModel::Delete {
                path: path@,
                original_content: original_content@,
            },
        }
    }
}

impl Clone for PendingChange {
    fn clone(&self) -> (r: Self)
        ensures
            r@ == self@,
    {
        match self {
            PendingChange::Add { path, content } => PendingChange::Add {
                path: path.clone(),
                content: content.clone(),
            },
            PendingChange::Update { path, original_content, new_content, patch_byte_range } =>
                PendingChange::Update {
                path: path.clone(),
                original_content: original_content.clone(),
                new_content: new_content.clone(),
                patch_byte_range: *patch_byte_range,
            },
            PendingChange::Delete { path, original_content } => PendingChange::Delete {
                path: path.clone(),
                original_content: original_content.clone(),
            },
        }
    }
}

pub open spec fn change_models(v: Seq<PendingChange>) -> Seq<ChangeModel> {
    Seq::new(v.len(), |i: int| v[i]@)
}

/// What is done to the file system.
#[derive(Debug, PartialEq, Eq)]
pub enum FileOperation {
    /// A new file, in directories that may have to be made first.
    Create { path: String, content: String },
    /// New contents for a file.
    Overwrite { path: String, content: String },
    /// A file less.
    Remove { path: String },
}

/// What an operation holds.
#[verifier::ext_equal]
pub ghost enum OperationModel {
    Create { path: Seq<char>, content: Seq<char> },
    Overwrite { path: Seq<char>, content: Seq<char> },
    Remove { path: Seq<char> },
}

impl View for FileOperation {
    type V = OperationModel;

    open spec fn view(&self) -> OperationModel {
        match self {
            FileOperation::Create { path, content } => OperationModel::Create {
                path: path@,
                content: content@,
            },
            FileOperation::Overwrite { path, content } => OperationModel::Overwrite {
                path: path@,
                content: content@,
            },
            FileOperation::Remove { path } => OperationModel::Remove { path: path@ },
        }
    }
}

pub open spec fn operation_models(v: Seq<FileOperation>) -> Seq<OperationModel> {
    Seq::new(v.len(), |i: int| v[i]@)
}

/// The step of an operation that failed.
#[derive(Clone, Copy, Debug, PartialEq, Eq, Structural)]
pub enum OperationStep {
    /// Making the directories of a new file.
    Directories,
    /// Writing or removing the file itself.
    File,
}

/// What is said of a failed operation.
pub open spec fn operation_failure(op: OperationModel, step: OperationStep) -> Seq<char> {
    match (op, step) {
        (OperationModel::Create { path, .. }, OperationStep::Directories) =>
            "Failed to create parent directories for "@ + path,
        (OperationModel::Create { path, .. }, OperationStep::File) => "Failed to write file "@
            + path,
        (OperationModel::Overwrite { path, .. }, _) => "Failed to write file "@ + path,
        (OperationModel::Remove { path }, _) => "Failed to delete file "@ + path,
    }
}

impl FileOperation {
    /// What is said if a step of the operation fails.
    pub fn failure_text(&self, step: OperationStep) -> (r: String)
        ensures
            r@ == operation_failure(self@, step),
    {
        match self {
            FileOperation::Create { path, .. } => match step {
                OperationStep::Directories => labelled_path(
                    "Failed to create parent directories for ",
                    path.as_str(),
                ),
                OperationStep::File => labelled_path("Failed to write file ", path.as_str()),
            },
            FileOperation::Overwrite { path, .. } => labelled_path(
                "Failed to write file ",
                path.as_str(),
            ),
            FileOperation::Remove { path } => labelled_path(
                "Failed to delete file ",
                path.as_str(),
            ),
        }
    }
}

/// A text and a path behind it.
pub fn labelled_path(label: &str, path: &str) -> (r: String)
    ensures
        r@ == label@ + path@,
{
    let mut out: Vec<char> = crate::text::chars_of(label);
    crate::text::append_str(&mut out, path);
    crate::text::string_of(out.as_slice())
}

/// The files that a patch touches.
#[derive(Debug, PartialEq, Eq)]
pub struct AffectedPaths {
    pub added: Vec<String>,
    pub modified: Vec<String>,
    pub deleted: Vec<String>,
}

/// What the list of touched files holds.
#[verifier::ext_equal]
pub ghost struct AffectedModel {
    pub added: Seq<Seq<char>>,
    pub modified: Seq<Seq<char>>,
    pub deleted: Seq<Seq<char>>,
}

impl View for AffectedPaths {
    type V = AffectedModel;

    open spec fn view(&self) -> AffectedModel {
        AffectedModel {
            added: strings(self.added@),
            modified: strings(self.modified@),
            deleted: strings(self.deleted@),
        }
    }
}

/// The operation that makes a change.
pub open spec fn operation_of(change: ChangeModel) -> OperationModel {
    match change {
        ChangeModel::Add { path, content } => OperationModel::Create { path, content },
        ChangeModel::Update { path, new_content, .. } => OperationModel::Overwrite {
            path,
            content: new_content,
        },
        ChangeModel::Delete { path, .. } => OperationModel::Remove { path },
    }
}

pub open spec fn operations_of(changes: Seq<ChangeModel>) -> Seq<OperationModel> {
    Seq::new(changes.len(), |i: int| operation_of(changes[i]))
}

/// The files that changes touch, each list in the order of the changes.
pub open spec fn affected_by(changes: Seq<ChangeModel>) -> AffectedModel
    decreases changes.len(),
{
    if changes.len() == 0 {
        AffectedModel { added: Seq::empty(), modified: Seq::empty(), deleted: Seq::empty() }
    } else {
        let before = affected_by(changes.drop_last());
        match changes.last() {
            ChangeModel::Add { path, .. } => AffectedModel {
                added: before.added.push(path),
                modified: before.modified,
                deleted: before.deleted,
            },
            ChangeModel::Update { path, .. } => AffectedModel {
                added: before.added,
                modified: before.modified.push(path),
                deleted: before.deleted,
            },
            ChangeModel::Delete { path, .. } => AffectedModel {
                added: before.added,
                modified: before.modified,
                deleted: before.deleted.push(path),
            },
        }
    }
}

// ---------------------------------------------------------------------------
// The check of the changes
// ---------------------------------------------------------------------------
/// The errors of a new file; a file without a grammar has none.
pub open spec fn added_errors(content: Seq<char>, language: SupportedLanguage) -> Seq<ErrorModel> {
    match source_errors(content, language) {
        Some(errors) => errors,
        None => Seq::empty(),
    }
}

/// The outcome for a new file with given errors: it is valid if it has none.
pub open spec fn added_validation(
    path: Seq<char>,
    language: SupportedLanguage,
    errors: Seq<ErrorModel>,
) -> ValidationModel {
    ValidationModel {
        path,
        language,
        before_errors: Seq::empty(),
        after_errors: errors,
        is_valid: errors.len() == 0,
        error_delta: delta_of(errors.len() as int, 0),
    }
}

/// The outcome for a change; a deletion needs no check.
pub open spec fn change_validation(change: ChangeModel) -> Option<ValidationModel> {
    match change {
        ChangeModel::Add { path, content } => Some(
            added_validation(path, language_of(path), added_errors(content, language_of(path))),
        ),
        ChangeModel::Update { path, original_content, new_content, patch_byte_range } => Some(
            file_validation(path, original_content, new_content, patch_byte_range),
        ),
        ChangeModel::Delete { .. } => None,
    }
}

/// The outcomes for changes, in their order.
pub open spec fn change_validations(changes: Seq<ChangeModel>) -> Seq<ValidationModel>
    decreases changes.len(),
{
    if changes.len() == 0 {
        Seq::empty()
    } else {
        let before = change_validations(changes.drop_last());
        match change_validation(changes.last()) {
            Some(v) => before.push(v),
            None => before,
        }
    }
}

pub open spec fn all_valid(validations: Seq<ValidationModel>) -> bool {
    forall|i: int| 0 <= i < validations.len() ==> (#[trigger] validations[i]).is_valid
}

/// The outcomes that are not valid.
pub open spec fn failures_of(validations: Seq<ValidationModel>) -> Seq<ValidationModel>
    decreases validations.len(),
{
    if validations.len() == 0 {
        Seq::empty()
    } else {
        let before = failures_of(validations.drop_last());
        if validations.last().is_valid {
            before
        } else {
            before.push(validations.last())
        }
    }
}

pub open spec fn validation_models(v: Seq<ValidationResult>) -> Seq<ValidationModel> {
    Seq::new(v.len(), |i: int| v[i]@)
}

proof fn lemma_all_new_at_first(after: Seq<ErrorModel>, n: int)
    requires
        0 <= n,
    ensures
        new_count(Seq::empty(), after, None, n) == n,
    decreases n,
{
    if n > 0 {
        lemma_all_new_at_first(after, n - 1);
    }
}

/// Checks a new file with the given errors.
pub fn validate_added(path: &str, language: SupportedLanguage, errors: Vec<SyntaxError>) -> (r:
    ValidationResult)
    ensures
        r@ == added_validation(path@, language, error_models(errors@)),
{
    let before_errors: Vec<SyntaxError> = Vec::new();
    assert(error_models(before_errors@) =~= Seq::<ErrorModel>::empty());
    let error_delta: ErrorDelta = compute_error_delta(
        before_errors.as_slice(),
        errors.as_slice(),
        None,
    );
    proof {
        lemma_all_new_at_first(error_models(errors@), errors@.len() as int);
    }
    let is_valid: bool = errors.len() == 0;
    ValidationResult {
        path: path.to_string(),
        language,
        before_errors,
        after_errors: errors,
        is_valid,
        error_delta,
    }
}

fn validate_change(change: &PendingChange) -> (r: Option<ValidationResult>)
    ensures
        match r {
            Some(v) => change_validation(change@) == Some(v@),
            None => change_validation(change@) is None,
        },
{
    match change {
        PendingChange::Add { path, content } => {
            let language: SupportedLanguage = SupportedLanguage::from_path(path.as_str());
            let errors: Vec<SyntaxError> = match extract_errors(content.as_str(), language) {
                Some(errors) => errors,
                None => {
                    let none: Vec<SyntaxError> = Vec::new();
                    assert(error_models(none@) =~= Seq::<ErrorModel>::empty());
                    none
                },
            };
            Some(validate_added(path.as_str(), language, errors))
        },
        PendingChange::Update { path, original_content, new_content, patch_byte_range } => Some(
            validate_file_change(
                path.as_str(),
                original_content.as_str(),
                new_content.as_str(),
                *patch_byte_range,
            ),
        ),
        PendingChange::Delete { .. } => None,
    }
}

// ---------------------------------------------------------------------------
// Transactions
// ---------------------------------------------------------------------------
/// Changes that are checked and made together.
#[derive(Debug)]
pub struct PatchTransaction {
    pending_changes: Vec<PendingChange>,
    validations: Vec<ValidationResult>,
}

/// What a transaction holds.
#[verifier::ext_equal]
pub ghost struct TransactionModel {
    pub changes: Seq<ChangeModel>,
    pub validations: Seq<ValidationModel>,
}

impl View for PatchTransaction {
    type V = TransactionModel;

    closed spec fn view(&self) -> TransactionModel {
        TransactionModel {
            changes: change_models(self.pending_changes@),
            validations: validation_models(self.validations@),
        }
    }
}

/// What there is to do once the changes have been checked.
#[derive(Debug, PartialEq, Eq)]
pub struct Commit {
    /// The operations, in the order in which they are to be made.
    pub operations: Vec<FileOperation>,
    /// The files that they touch.
    pub affected: AffectedPaths,
}

/// What a commit holds.
#[verifier::ext_equal]
pub ghost struct CommitModel {
    pub operations: Seq<OperationModel>,
    pub affected: AffectedModel,
}

impl View for Commit {
    type V = CommitModel;

    open spec fn view(&self) -> CommitModel {
        CommitModel {
            operations: operation_models(self.operations@),
            affected: self.affected@,
        }
    }
}

/// The operations for changes, and the files that they touch.
pub open spec fn commit_of(changes: Seq<ChangeModel>) -> CommitModel {
    CommitModel { operations: operations_of(changes), affected: affected_by(changes) }
}

/// The failures that a transaction reports, with their diagnostics.
pub open spec fn failure_models(v: Seq<(&ValidationResult, Vec<DiagnosticInfo>)>) -> Seq<
    (ValidationModel, Seq<DiagnosticModel>),
> {
    Seq::new(v.len(), |i: int| (v[i].0@, diagnostic_models(v[i].1@)))
}

pub open spec fn with_diagnostics(list: Seq<ValidationModel>) -> Seq<
    (ValidationModel, Seq<DiagnosticModel>),
> {
    Seq::new(list.len(), |i: int| (list[i], diagnostics(list[i])))
}

impl Default for PatchTransaction {
    fn default() -> (r: Self)
        ensures
            r@.changes.len() == 0,
            r@.validations.len() == 0,
    {
        PatchTransaction::new()
    }
}

impl PatchTransaction {
    /// A transaction without changes.
    pub fn new() -> (r: Self)
        ensures
            r@.changes.len() == 0,
            r@.validations.len() == 0,
    {
        PatchTransaction { pending_changes: Vec::new(), validations: Vec::new() }
    }

    /// Adds a change.
    pub fn stage(&mut self, change: PendingChange)
        ensures
            final(self)@.changes == old(self)@.changes.push(change@),
            final(self)@.validations == old(self)@.validations,
    {
        let ghost before = self.pending_changes@;
        self.pending_changes.push(change);
        assert(change_models(self.pending_changes@) =~= change_models(before).push(change@));
    }

    /// Checks all changes, and tells whether all are valid.
    pub fn validate_all(&mut self) -> (r: bool)
        ensures
            final(self)@.changes == old(self)@.changes,
            final(self)@.validations == change_validations(old(self)@.changes),
            r == all_valid(change_validations(old(self)@.changes)),
    {
        let ghost changes = change_models(self.pending_changes@);
        let mut validations: Vec<ValidationResult> = Vec::new();
        let mut valid: bool = true;
        let mut i: usize = 0;
        assert(validation_models(validations@) =~= Seq::<ValidationModel>::empty());
        assert(changes.take(0) =~= Seq::<ChangeModel>::empty());
        while i < self.pending_changes.len()
            invariant
                i <= self.pending_changes@.len(),
                changes == change_models(self.pending_changes@),
                self.pending_changes@ == old(self).pending_changes@,
                validation_models(validations@) == change_validations(changes.take(i as int)),
                valid == all_valid(validation_models(validations@)),
            decreases self.pending_changes@.len() - i,
        {
            assert(changes.take(i + 1).drop_last() =~= changes.take(i as int));
            assert(changes.take(i + 1).last() == self.pending_changes@[i as int]@);
            match validate_change(&self.pending_changes[i]) {
                Some(v) => {
                    let ghost before = validation_models(validations@);
                    valid = valid && v.is_valid;
                    validations.push(v);
                    let ghost now = validation_models(validations@);
                    assert(now =~= before.push(v@));
                    assert(valid == all_valid(now)) by {
                        if all_valid(now) {
                            assert forall|k: int| 0 <= k < before.len() implies (
                            #[trigger] before[k]).is_valid by {
                                assert(now[k] == before[k]);
                            }
                            assert(now[before.len() as int].is_valid);
                        }
                    }
                },
                None => {},
            }
            i += 1;
        }
        assert(changes.take(changes.len() as int) =~= changes);
        self.validations = validations;
        valid
    }

    /// The outcomes of the last check.
    pub fn get_validations(&self) -> (r: &[ValidationResult])
        ensures
            validation_models(r@) == self@.validations,
    {
        self.validations.as_slice()
    }

    /// The outcomes of the last check that are not valid, with diagnostics.
    pub fn get_failures(&self) -> (r: Vec<(&ValidationResult, Vec<DiagnosticInfo>)>)
        ensures
            failure_models(r@) == with_diagnostics(failures_of(self@.validations)),
    {
        let ghost all = validation_models(self.validations@);
        let mut out: Vec<(&ValidationResult, Vec<DiagnosticInfo>)> = Vec::new();
        let mut i: usize = 0;
        assert(all.take(0) =~= Seq::<ValidationModel>::empty());
        assert(failure_models(out@) =~= with_diagnostics(failures_of(all.take(0))));
        while i < self.validations.len()
            invariant
                i <= self.validations@.len(),
                all == validation_models(self.validations@),
                failure_models(out@) == with_diagnostics(failures_of(all.take(i as int))),
            decreases self.validations@.len() - i,
        {
            let v: &ValidationResult = &self.validations[i];
            assert(all.take(i + 1).drop_last() =~= all.take(i as int));
            assert(all.take(i + 1).last() == v@);
            if !v.is_valid {
                let ghost before = out@;
                let found: Vec<DiagnosticInfo> = generate_diagnostics(v);
                out.push((v, found));
                assert(failure_models(out@) =~= failure_models(before).push(
                    (v@, diagnostics(v@)),
                ));
                assert(with_diagnostics(failures_of(all.take(i + 1))) =~= with_diagnostics(
                    failures_of(all.take(i as int)),
                ).push((v@, diagnostics(v@))));
            }
            i += 1;
        }
        assert(all.take(all.len() as int) =~= all);
        out
    }

    /// The operations that make the changes, and the files that they touch. To be
    /// called once all changes are valid.
    pub fn commit(self) -> (r: Commit)
        ensures
            r@ == commit_of(self@.changes),
    {
        let ghost changes = change_models(self.pending_changes@);
        let mut operations: Vec<FileOperation> = Vec::new();
        let mut added: Vec<String> = Vec::new();
        let mut modified: Vec<String> = Vec::new();
        let mut deleted: Vec<String> = Vec::new();
        let mut i: usize = 0;
        assert(changes.take(0) =~= Seq::<ChangeModel>::empty());
        assert(operation_models(operations@) =~= operations_of(changes.take(0)));
        assert(strings(added@) =~= Seq::<Seq<char>>::empty());
        assert(strings(modified@) =~= Seq::<Seq<char>>::empty());
        assert(strings(deleted@) =~= Seq::<Seq<char>>::empty());
        while i < self.pending_changes.len()
            invariant
                i <= self.pending_changes@.len(),
                changes == change_models(self.pending_changes@),
                operation_models(operations@) == operations_of(changes.take(i as int)),
                (AffectedModel {
                    added: strings(added@),
                    modified: strings(modified@),
                    deleted: strings(deleted@),
                }) == affected_by(changes.take(i as int)),
            decreases self.pending_changes@.len() - i,
        {
            let ghost change = changes[i as int];
            let ghost ops_before = operations@;
            let ghost added_before = added@;
            let ghost modified_before = modified@;
            let ghost deleted_before = deleted@;
            assert(changes.take(i + 1).drop_last() =~= changes.take(i as int));
            assert(changes.take(i + 1).last() == change);
            match &self.pending_changes[i] {
                PendingChange::Add { path, content } => {
                    operations.push(
                        FileOperation::Create { path: path.clone(), content: content.clone() },
                    );
                    added.push(path.clone());
                    assert(strings(added@) =~= strings(added_before).push(path@));
                },
                PendingChange::Update { path, new_content, .. } => {
                    operations.push(
                        FileOperation::Overwrite {
                            path: path.clone(),
                            content: new_content.clone(),
                        },
                    );
                    modified.push(path.clone());
                    assert(strings(modified@) =~= strings(modified_before).push(path@));
                },
                PendingChange::Delete { path, .. } => {
                    operations.push(FileOperation::Remove { path: path.clone() });
                    deleted.push(path.clone());
                    assert(strings(deleted@) =~= strings(deleted_before).push(path@));
                },
            }
            assert(operation_models(operations@) =~= operation_models(ops_before).push(
                operation_of(change),
            ));
            assert(operations_of(changes.take(i + 1)) =~= operations_of(
                changes.take(i as int),
            ).push(operation_of(change)));
            i += 1;
        }
        assert(changes.take(changes.len() as int) =~= changes);
        Commit { operations, affected: AffectedPaths { added, modified, deleted } }
    }

    /// Drops the changes. Nothing has been written, so nothing is left to undo.
    pub fn rollback(self) {
    }
}

// ---------------------------------------------------------------------------
// Laws
// ---------------------------------------------------------------------------
proof fn lemma_failures(validations: Seq<ValidationModel>)
    ensures
        all_valid(validations) == (failures_of(validations).len() == 0),
    decreases validations.len(),
{
    if validations.len() > 0 {
        let rest = validations.drop_last();
        lemma_failures(rest);
        if all_valid(rest) && validations.last().is_valid {
            assert forall|i: int| 0 <= i < validations.len() implies (
            #[trigger] validations[i]).is_valid by {
                if i < rest.len() {
                    assert(rest[i].is_valid);
                }
            }
        }
        if all_valid(validations) {
            assert forall|i: int| 0 <= i < rest.len() implies (#[trigger] rest[i]).is_valid by {
                assert(validations[i].is_valid);
            }
            assert(validations[validations.len() - 1].is_valid);
        }
    }
}

/// Changes are all valid exactly where none is reported as a failure.
pub proof fn law_valid_means_no_failures(changes: Seq<ChangeModel>)
    ensures
        all_valid(change_validations(changes)) == (with_diagnostics(
            failures_of(change_validations(changes)),
        ).len() == 0),
{
    lemma_failures(change_validations(changes));
}

/// A commit makes one operation for each change, in the order of the changes, and
/// lists each file once for each change of it.
pub proof fn law_commit_covers_every_change(changes: Seq<ChangeModel>)
    ensures
        commit_of(changes).operations.len() == changes.len(),
        forall|i: int|
            0 <= i < changes.len() ==> #[trigger] commit_of(changes).operations[i] == operation_of(
                changes[i],
            ),
        ({
            let a = commit_of(changes).affected;
            a.added.len() + a.modified.len() + a.deleted.len() == changes.len()
        }),
    decreases changes.len(),
{
    if changes.len() > 0 {
        law_commit_covers_every_change(changes.drop_last());
    }
}

proof fn lemma_every_change_is_checked(changes: Seq<ChangeModel>, i: int)
    requires
        0 <= i < changes.len(),
        all_valid(change_validations(changes)),
    ensures
        change_validation(changes[i]) matches Some(v) ==> v.is_valid,
    decreases changes.len(),
{
    let before = change_validations(changes.drop_last());
    let all = change_validations(changes);
    assert(all_valid(before)) by {
        assert forall|k: int| 0 <= k < before.len() implies (#[trigger] before[k]).is_valid by {
            assert(before[k] == all[k]);
        }
    }
    if i < changes.len() - 1 {
        lemma_every_change_is_checked(changes.drop_last(), i);
    } else if change_validation(changes[i]) is Some {
        assert(all.last() == all[all.len() - 1]);
    }
}

/// Changes that pass the check break no file: the tree of a new file is sound, and
/// that of an updated one is sound if it was so before.
pub proof fn law_valid_changes_break_no_file(
    changes: Seq<ChangeModel>,
    i: int,
    old_root: SyntaxModel,
    new_root: SyntaxModel,
)
    requires
        0 <= i < changes.len(),
        all_valid(change_validations(changes)),
    ensures
        match changes[i] {
            ChangeModel::Add { path, content } => syntax_tree(content, language_of(path)) == Some(
                new_root,
            ) ==> is_sound(new_root),
            ChangeModel::Update {
                path,
                original_content,
                new_content,
                patch_byte_range,
            } => patch_byte_range is None && syntax_tree(original_content, language_of(path))
                == Some(old_root) && is_sound(old_root) && syntax_tree(
                new_content,
                language_of(path),
            ) == Some(new_root) ==> is_sound(new_root),
            ChangeModel::Delete { .. } => true,
        },
{
    lemma_every_change_is_checked(changes, i);
    match changes[i] {
        ChangeModel::Add { path, content } => {
            if syntax_tree(content, language_of(path)) == Some(new_root) {
                assert forall|node: SyntaxModel| #[trigger]
                    in_tree(new_root, node) implies !is_broken(node) by {
                    if is_broken(node) {
                        lemma_broken_node_is_told(new_root, node, content);
                    }
                }
            }
        },
        ChangeModel::Update { path, original_content, new_content, .. } => {
            if syntax_tree(original_content, language_of(path)) == Some(old_root) && is_sound(
                old_root,
            ) && syntax_tree(new_content, language_of(path)) == Some(new_root)
                && changes[i]->patch_byte_range is None {
                assert forall|node: SyntaxModel| #[trigger]
                    in_tree(new_root, node) implies !is_broken(node) by {
                    if is_broken(node) {
                        law_breaking_a_sound_file_is_refused(
                            path,
                            original_content,
                            new_content,
                            None,
                            old_root,
                            new_root,
                            node,
                        );
                    }
                }
            }
        },
        ChangeModel::Delete { .. } => {},
    }
}

} // verus!
