//! Applying patches to files.
//!
//! A patch is applied to a snapshot of the files that it names. The outcome is what
//! there is to do to the file system and to say about it; a patch that cannot be
//! applied as a whole does nothing.
use vstd::prelude::*;

use crate::error::{apply_error_text, io_error, ApplyErrorModel, ApplyPatchError, IoError};
use crate::grammar::{
    are_hunks, hunk_meanings, law_written_patch_is_read, written_lines, WrittenHunk,
};
use crate::language::language_of;
use crate::lines::joined;
use crate::parse_laws::separable;
use crate::parser::{
    chunk_models, hunk_models, hunk_path, option_text, parse_patch, parse_text, ChunkModel, Hunk,
    HunkModel, ParseError, ParseErrorModel, ParseMode, UpdateFileChunk,
};
use crate::repair::needs_repair;
use crate::replace::{
    apply_chunks, as_apply_error, contents_fit, do_contents_fit, file_lines, index_after,
    law_new_contents_end_with_a_line_feed, lemma_plan_has_index, new_contents, ordered_plan,
    with_replacements,
};
use crate::syntax_guard::{
    diagnostic_text, is_sound, DiagnosticInfo, DiagnosticModel, ValidationModel,
};
use crate::syntax_tree::syntax_tree;
use crate::text::{append_str, append_text, chars_of, decimal, decimal_text, same_text, string_of};
use crate::transaction::{
    affected_by, all_valid, change_validations, commit_of, failure_models, failures_of,
    labelled_path, law_commit_covers_every_change, law_valid_changes_break_no_file, operation_failure, operation_of, operations_of, with_diagnostics, AffectedModel,
    AffectedPaths, ChangeModel, Commit, CommitModel, FileOperation, OperationModel, OperationStep,
    PatchTransaction, PendingChange,
};

verus! {

/// The first argument by which a program that calls itself asks for a patch to be
/// applied.
pub const CODEX_CORE_APPLY_PATCH_ARG1: &'static str = "--codex-run-as-apply-patch";

// ---------------------------------------------------------------------------
// Files
// ---------------------------------------------------------------------------
/// What reading files gave: for each path the contents, or what the file system
/// said.
#[derive(Debug)]
pub struct FileSnapshot {
    pub files: Vec<(String, Result<String, String>)>,
}

/// The outcome of reading a file, by its texts.
pub open spec fn read_model(r: Result<String, String>) -> Result<Seq<char>, Seq<char>> {
    match r {
        Ok(t) => Ok(t@),
        Err(e) => Err(e@),
    }
}

impl View for FileSnapshot {
    type V = Seq<(Seq<char>, Result<Seq<char>, Seq<char>>)>;

    open spec fn view(&self) -> Seq<(Seq<char>, Result<Seq<char>, Seq<char>>)> {
        Seq::new(
            self.files@.len(),
            |i: int| (self.files@[i].0@, read_model(self.files@[i].1)),
        )
    }
}

/// What is said of a file that is not there.
pub open spec fn missing_file() -> Seq<char> {
    "No such file or directory (os error 2)"@
}

/// What reading a file gives: the first entry for its path among those from `i` on.
/// A file without an entry is not there.
pub open spec fn read_from(
    files: Seq<(Seq<char>, Result<Seq<char>, Seq<char>>)>,
    path: Seq<char>,
    i: int,
) -> Result<Seq<char>, Seq<char>>
    decreases files.len() - i,
{
    if i < 0 || i >= files.len() {
        Err(missing_file())
    } else if files[i].0 == path {
        files[i].1
    } else {
        read_from(files, path, i + 1)
    }
}

pub open spec fn read_file(
    files: Seq<(Seq<char>, Result<Seq<char>, Seq<char>>)>,
    path: Seq<char>,
) -> Result<Seq<char>, Seq<char>> {
    read_from(files, path, 0)
}

impl FileSnapshot {
    /// A snapshot without files.
    pub fn new() -> (r: Self)
        ensures
            r@.len() == 0,
    {
        FileSnapshot { files: Vec::new() }
    }

    /// Adds what reading a file gave.
    pub fn insert(&mut self, path: &str, contents: Result<String, String>)
        ensures
            final(self)@ == old(self)@.push((path@, read_model(contents))),
    {
        let ghost before = self@;
        self.files.push((path.to_string(), contents));
        assert(self@ =~= before.push((path@, read_model(contents))));
    }

    /// What reading a file gives.
    pub fn read(&self, path: &str) -> (r: Result<String, String>)
        ensures
            read_model(r) == read_file(self@, path@),
    {
        let wanted: Vec<char> = chars_of(path);
        let mut i: usize = 0;
        while i < self.files.len()
            invariant
                i <= self.files@.len(),
                wanted@ == path@,
                read_file(self@, path@) == read_from(self@, path@, i as int),
            decreases self.files@.len() - i,
        {
            let entry: &(String, Result<String, String>) = &self.files[i];
            assert(self@[i as int] == (entry.0@, read_model(entry.1)));
            if same_text(chars_of(entry.0.as_str()).as_slice(), wanted.as_slice()) {
                return match &entry.1 {
                    Ok(t) => Ok(t.clone()),
                    Err(e) => Err(e.clone()),
                };
            }
            i += 1;
        }
        Err("No such file or directory (os error 2)".to_string())
    }
}

/// The files that the hunks of a patch read.
pub open spec fn read_paths(hunks: Seq<HunkModel>) -> Seq<Seq<char>>
    decreases hunks.len(),
{
    if hunks.len() == 0 {
        Seq::empty()
    } else {
        let before = read_paths(hunks.drop_last());
        match hunks.last() {
            HunkModel::AddFile { .. } => before,
            HunkModel::DeleteFile { path } => before.push(path),
            HunkModel::UpdateFile { path, .. } => before.push(path),
        }
    }
}

/// The files that have to be read before the hunks can be applied.
pub fn paths_to_read(hunks: &[Hunk]) -> (r: Vec<String>)
    ensures
        crate::lines::strings(r@) == read_paths(hunk_models(hunks@)),
{
    let ghost all = hunk_models(hunks@);
    let mut out: Vec<String> = Vec::new();
    let mut i: usize = 0;
    assert(all.take(0) =~= Seq::<HunkModel>::empty());
    assert(crate::lines::strings(out@) =~= Seq::<Seq<char>>::empty());
    while i < hunks.len()
        invariant
            i <= hunks@.len(),
            all == hunk_models(hunks@),
            crate::lines::strings(out@) == read_paths(all.take(i as int)),
        decreases hunks@.len() - i,
    {
        let ghost before = out@;
        assert(all.take(i + 1).drop_last() =~= all.take(i as int));
        assert(all.take(i + 1).last() == hunks@[i as int]@);
        match &hunks[i] {
            Hunk::AddFile { .. } => {},
            Hunk::DeleteFile { path } => {
                out.push(path.clone());
                assert(crate::lines::strings(out@) =~= crate::lines::strings(before).push(path@));
            },
            Hunk::UpdateFile { path, .. } => {
                out.push(path.clone());
                assert(crate::lines::strings(out@) =~= crate::lines::strings(before).push(path@));
            },
        }
        i += 1;
    }
    assert(all.take(all.len() as int) =~= all);
    out
}

// ---------------------------------------------------------------------------
// One file
// ---------------------------------------------------------------------------
/// The contents of a file before and after an update.
#[derive(Debug, PartialEq, Eq)]
pub struct AppliedPatch {
    pub original_contents: String,
    pub new_contents: String,
}

/// The contents of a file before and after an update, or why there is none.
pub open spec fn derived(
    path: Seq<char>,
    chunks: Seq<ChunkModel>,
    read: Result<Seq<char>, Seq<char>>,
) -> Result<(Seq<char>, Seq<char>), ApplyErrorModel> {
    match read {
        Err(e) => Err(
            ApplyErrorModel::Io { context: "Failed to read file to update "@ + path, source: e },
        ),
        Ok(contents) => match as_apply_error(new_contents(path, contents, chunks)) {
            Ok(text) => Ok((contents, text)),
            Err(e) => Err(e),
        },
    }
}

pub open spec fn derived_outcome(r: Result<AppliedPatch, ApplyPatchError>) -> Result<
    (Seq<char>, Seq<char>),
    ApplyErrorModel,
> {
    match r {
        Ok(a) => Ok((a.original_contents@, a.new_contents@)),
        Err(e) => Err(e@),
    }
}

/// The file can be read, and every chunk has a place in it.
pub open spec fn lines_found(
    path: Seq<char>,
    chunks: Seq<ChunkModel>,
    read: Result<Seq<char>, Seq<char>>,
) -> bool {
    read matches Ok(contents) && index_after(
        file_lines(contents),
        path,
        chunks,
        chunks.len() as int,
    ) is Some
}

proof fn lemma_derived_where_lines_are_found(
    path: Seq<char>,
    chunks: Seq<ChunkModel>,
    read: Result<Seq<char>, Seq<char>>,
)
    ensures
        lines_found(path, chunks, read) == (derived(path, chunks, read) is Ok),
{
    match read {
        Ok(contents) => {
            let finder = crate::anchor_finder::finder_for(
                path,
                contents,
                crate::lines::piece_seq(contents).len() as int,
            );
            lemma_plan_has_index(
                file_lines(contents),
                finder,
                path,
                chunks,
                chunks.len() as int,
            );
        },
        Err(_) => {},
    }
}

/// Where the file can be read and every chunk has a place in it, none puts lines
/// behind its end.
pub open spec fn read_fits(
    path: Seq<char>,
    chunks: Seq<ChunkModel>,
    read: Result<Seq<char>, Seq<char>>,
) -> bool {
    read matches Ok(contents) ==> contents_fit(path, contents, chunks)
}

/// The contents of a file before and after an update.
pub fn derive_new_contents_from_chunks(
    path: &str,
    chunks: &[UpdateFileChunk],
    files: &FileSnapshot,
) -> (r: Result<AppliedPatch, ApplyPatchError>)
    requires
        read_fits(path@, chunk_models(chunks@), read_file(files@, path@)),
    ensures
        derived_outcome(r) == derived(path@, chunk_models(chunks@), read_file(files@, path@)),
{
    let original_contents: String = match files.read(path) {
        Ok(t) => t,
        Err(e) => {
            return Err(
                ApplyPatchError::IoError(
                    IoError {
                        context: labelled_path("Failed to read file to update ", path),
                        source: e,
                    },
                ),
            );
        },
    };
    match apply_chunks(path, original_contents.as_str(), chunks) {
        Ok(new_contents) => Ok(AppliedPatch { original_contents, new_contents }),
        Err(e) => Err(e),
    }
}

/// What an update of a file will do.
#[derive(Debug, PartialEq, Eq)]
pub struct ApplyPatchFileUpdate {
    pub unified_diff: String,
    pub content: String,
}

/// The unified diff that `similar` gives for two texts.
pub uninterp spec fn unified_diff_text(old: Seq<char>, new: Seq<char>, radius: int) -> Seq<char>;

/// `similar::TextDiff::from_lines`, shown as a unified diff with so many lines of
/// context: a function of the two texts and the number, and `unified_diff_text` is
/// the name for it. The number is doubled on the way, so twice it must fit.
#[verifier::external_body]
fn unified_diff(old: &str, new: &str, radius: usize) -> (r: String)
    requires
        radius <= usize::MAX / 2,
    ensures
        r@ == unified_diff_text(old@, new@, radius as int),
{
    similar::TextDiff::from_lines(old, new).unified_diff().context_radius(radius).to_string()
}

/// What an update of a file does, or why it cannot be made.
pub open spec fn file_update(
    path: Seq<char>,
    chunks: Seq<ChunkModel>,
    radius: int,
    read: Result<Seq<char>, Seq<char>>,
) -> Result<(Seq<char>, Seq<char>), ApplyErrorModel> {
    match derived(path, chunks, read) {
        Ok((old, new)) => Ok((unified_diff_text(old, new, radius), new)),
        Err(e) => Err(e),
    }
}

pub open spec fn update_outcome(r: Result<ApplyPatchFileUpdate, ApplyPatchError>) -> Result<
    (Seq<char>, Seq<char>),
    ApplyErrorModel,
> {
    match r {
        Ok(u) => Ok((u.unified_diff@, u.content@)),
        Err(e) => Err(e@),
    }
}

/// What an update of a file does, with one line of context in the diff.
pub fn unified_diff_from_chunks(path: &str, chunks: &[UpdateFileChunk], files: &FileSnapshot) -> (r:
    Result<ApplyPatchFileUpdate, ApplyPatchError>)
    requires
        read_fits(path@, chunk_models(chunks@), read_file(files@, path@)),
    ensures
        update_outcome(r) == file_update(
            path@,
            chunk_models(chunks@),
            1,
            read_file(files@, path@),
        ),
{
    unified_diff_from_chunks_with_context(path, chunks, 1, files)
}

/// What an update of a file does, with so many lines of context in the diff.
pub fn unified_diff_from_chunks_with_context(
    path: &str,
    chunks: &[UpdateFileChunk],
    context: usize,
    files: &FileSnapshot,
) -> (r: Result<ApplyPatchFileUpdate, ApplyPatchError>)
    requires
        lines_found(path@, chunk_models(chunks@), read_file(files@, path@)) ==> context
            <= usize::MAX / 2,
        read_fits(path@, chunk_models(chunks@), read_file(files@, path@)),
    ensures
        update_outcome(r) == file_update(
            path@,
            chunk_models(chunks@),
            context as int,
            read_file(files@, path@),
        ),
{
    proof {
        lemma_derived_where_lines_are_found(
            path@,
            chunk_models(chunks@),
            read_file(files@, path@),
        );
    }
    match derive_new_contents_from_chunks(path, chunks, files) {
        Ok(applied) => {
            let text: String = unified_diff(
                applied.original_contents.as_str(),
                applied.new_contents.as_str(),
                context,
            );
            Ok(ApplyPatchFileUpdate { unified_diff: text, content: applied.new_contents })
        },
        Err(e) => Err(e),
    }
}

// ---------------------------------------------------------------------------
// All files
// ---------------------------------------------------------------------------
/// Why hunks cannot be applied.
#[derive(Debug, PartialEq, Eq)]
pub struct ApplyFailure {
    pub message: String,
    /// What the file system said, if it failed.
    pub io: Option<String>,
}

/// What a failure holds.
#[verifier::ext_equal]
pub ghost struct FailureModel {
    pub message: Seq<char>,
    pub io: Option<Seq<char>>,
}

impl View for ApplyFailure {
    type V = FailureModel;

    open spec fn view(&self) -> FailureModel {
        FailureModel { message: self.message@, io: option_text(self.io) }
    }
}

pub open spec fn read_failure(path: Seq<char>, e: Seq<char>) -> FailureModel {
    FailureModel { message: "Failed to read file "@ + path, io: Some(e) }
}

/// The changes of an update that makes the text of a file another one.
pub open spec fn update_changes(
    path: Seq<char>,
    move_path: Option<Seq<char>>,
    old_text: Seq<char>,
    new_text: Seq<char>,
) -> Seq<ChangeModel> {
    match move_path {
        Some(dest) => seq![
            ChangeModel::Delete { path, original_content: old_text },
            ChangeModel::Add { path: dest, content: new_text },
        ],
        None => seq![
            ChangeModel::Update {
                path,
                original_content: old_text,
                new_content: new_text,
                patch_byte_range: None,
            },
        ],
    }
}

/// The changes that a hunk asks for, or why it cannot be applied.
pub open spec fn hunk_changes(
    hunk: HunkModel,
    files: Seq<(Seq<char>, Result<Seq<char>, Seq<char>>)>,
) -> Result<Seq<ChangeModel>, FailureModel> {
    match hunk {
        HunkModel::AddFile { path, contents } => Ok(
            seq![ChangeModel::Add { path, content: contents }],
        ),
        HunkModel::DeleteFile { path } => match read_file(files, path) {
            Err(e) => Err(read_failure(path, e)),
            Ok(contents) => Ok(
                seq![ChangeModel::Delete { path, original_content: contents }],
            ),
        },
        HunkModel::UpdateFile { path, move_path, chunks } => match read_file(files, path) {
            Err(e) => Err(read_failure(path, e)),
            Ok(contents) => match derived(path, chunks, Ok(contents)) {
                Err(e) => Err(FailureModel { message: apply_error_text(e), io: None }),
                Ok((_, text)) => Ok(update_changes(path, move_path, contents, text)),
            },
        },
    }
}

/// The changes that the first `n` hunks ask for, or why one cannot be applied.
pub open spec fn staged(
    hunks: Seq<HunkModel>,
    files: Seq<(Seq<char>, Result<Seq<char>, Seq<char>>)>,
    n: int,
) -> Result<Seq<ChangeModel>, FailureModel>
    decreases n,
{
    if n <= 0 {
        Ok(Seq::empty())
    } else {
        match staged(hunks, files, n - 1) {
            Err(e) => Err(e),
            Ok(before) => match hunk_changes(hunks[n - 1], files) {
                Err(e) => Err(e),
                Ok(more) => Ok(before + more),
            },
        }
    }
}

/// The texts of diagnostics, each with a line feed behind it.
pub open spec fn diagnostics_text(list: Seq<DiagnosticModel>) -> Seq<char>
    decreases list.len(),
{
    if list.len() == 0 {
        Seq::empty()
    } else {
        diagnostics_text(list.drop_last()) + diagnostic_text(list.last()) + seq!['\n']
    }
}

/// The diagnostics of failed checks, one failure behind the other.
pub open spec fn failures_text(list: Seq<(ValidationModel, Seq<DiagnosticModel>)>) -> Seq<char>
    decreases list.len(),
{
    if list.len() == 0 {
        Seq::empty()
    } else {
        failures_text(list.drop_last()) + diagnostics_text(list.last().1)
    }
}

/// What is said of changes that do not pass the check.
pub open spec fn refusal(changes: Seq<ChangeModel>) -> Seq<char> {
    "Syntax validation failed for the following changes:\n"@ + failures_text(
        with_diagnostics(failures_of(change_validations(changes))),
    )
}

/// What there is to do for hunks: all of their changes, if every one of them can be
/// made and passes the check.
pub open spec fn hunks_commit(
    hunks: Seq<HunkModel>,
    files: Seq<(Seq<char>, Result<Seq<char>, Seq<char>>)>,
) -> Result<CommitModel, FailureModel> {
    if hunks.len() == 0 {
        Err(FailureModel { message: "No files were modified."@, io: None })
    } else {
        match staged(hunks, files, hunks.len() as int) {
            Err(e) => Err(e),
            Ok(changes) => if all_valid(change_validations(changes)) {
                Ok(commit_of(changes))
            } else {
                Err(FailureModel { message: refusal(changes), io: None })
            },
        }
    }
}

/// A hunk finds its files and its lines.
pub open spec fn hunk_ready(
    hunk: HunkModel,
    files: Seq<(Seq<char>, Result<Seq<char>, Seq<char>>)>,
) -> bool {
    match hunk {
        HunkModel::AddFile { .. } => true,
        HunkModel::DeleteFile { path } => read_file(files, path) is Ok,
        HunkModel::UpdateFile { path, chunks, .. } => lines_found(
            path,
            chunks,
            read_file(files, path),
        ),
    }
}

/// The hunk behind the first `n` puts no lines behind the end of its file, if it finds
/// its lines there and those before it can be applied.
pub open spec fn hunk_fits(
    hunks: Seq<HunkModel>,
    files: Seq<(Seq<char>, Result<Seq<char>, Seq<char>>)>,
    n: int,
) -> bool {
    (forall|k: int| 0 <= k < n ==> hunk_ready(#[trigger] hunks[k], files)) ==> (
    hunks[n] matches HunkModel::UpdateFile { path, chunks, .. } ==> read_fits(
        path,
        chunks,
        read_file(files, path),
    ))
}

/// No hunk that is reached and finds its lines puts any behind the end of its file.
pub open spec fn hunks_fit(
    hunks: Seq<HunkModel>,
    files: Seq<(Seq<char>, Result<Seq<char>, Seq<char>>)>,
) -> bool {
    forall|n: int| 0 <= n < hunks.len() ==> #[trigger] hunk_fits(hunks, files, n)
}

/// The outcome for hunks.
pub open spec fn commit_outcome(r: Result<Commit, ApplyFailure>) -> Result<
    CommitModel,
    FailureModel,
> {
    match r {
        Ok(c) => Ok(c@),
        Err(e) => Err(e@),
    }
}

proof fn lemma_ready(
    hunk: HunkModel,
    files: Seq<(Seq<char>, Result<Seq<char>, Seq<char>>)>,
)
    ensures
        hunk_ready(hunk, files) == (hunk_changes(hunk, files) is Ok),
{
    match hunk {
        HunkModel::UpdateFile { path, chunks, .. } => {
            lemma_derived_where_lines_are_found(path, chunks, read_file(files, path));
        },
        _ => {},
    }
}

proof fn lemma_staging_fails(
    hunks: Seq<HunkModel>,
    files: Seq<(Seq<char>, Result<Seq<char>, Seq<char>>)>,
    k: int,
    n: int,
)
    requires
        0 <= k <= n,
        staged(hunks, files, k) is Err,
    ensures
        staged(hunks, files, n) == staged(hunks, files, k),
    decreases n,
{
    if k < n {
        lemma_staging_fails(hunks, files, k, n - 1);
    }
}

fn stage_update(
    transaction: &mut PatchTransaction,
    path: &String,
    move_path: &Option<String>,
    original_content: String,
    new_content: String,
)
    ensures
        final(transaction)@.changes == old(transaction)@.changes + update_changes(
            path@,
            option_text(*move_path),
            original_content@,
            new_content@,
        ),
{
    let ghost before = transaction@.changes;
    let ghost more = update_changes(
        path@,
        option_text(*move_path),
        original_content@,
        new_content@,
    );
    match move_path {
        Some(dest) => {
            transaction.stage(PendingChange::Delete { path: path.clone(), original_content });
            transaction.stage(PendingChange::Add { path: dest.clone(), content: new_content });
        },
        None => {
            transaction.stage(
                PendingChange::Update {
                    path: path.clone(),
                    original_content,
                    new_content,
                    patch_byte_range: None,
                },
            );
        },
    }
    assert(transaction@.changes =~= before + more);
}

fn stage_hunk(transaction: &mut PatchTransaction, hunk: &Hunk, files: &FileSnapshot) -> (r: Result<
    (),
    ApplyFailure,
>)
    requires
        hunk@ matches HunkModel::UpdateFile { path, chunks, .. } ==> read_fits(
            path,
            chunks,
            read_file(files@, path),
        ),
    ensures
        match r {
            Ok(()) => hunk_changes(hunk@, files@) matches Ok(more) && final(transaction)@.changes
                == old(transaction)@.changes + more,
            Err(e) => hunk_changes(hunk@, files@) == Err::<Seq<ChangeModel>, FailureModel>(e@),
        },
{
    let ghost before = transaction@.changes;
    match hunk {
        Hunk::AddFile { path, contents } => {
            transaction.stage(
                PendingChange::Add { path: path.clone(), content: contents.clone() },
            );
            assert(transaction@.changes =~= before + hunk_changes(hunk@, files@)->Ok_0);
        },
        Hunk::DeleteFile { path } => match files.read(path.as_str()) {
            Ok(original_content) => {
                transaction.stage(PendingChange::Delete { path: path.clone(), original_content });
                assert(transaction@.changes =~= before + hunk_changes(hunk@, files@)->Ok_0);
            },
            Err(e) => {
                return Err(unreadable(path.as_str(), e));
            },
        },
        Hunk::UpdateFile { path, move_path, chunks } => match files.read(path.as_str()) {
            Ok(original_content) => {
                match derive_new_contents_from_chunks(path.as_str(), chunks.as_slice(), files) {
                    Ok(applied) => {
                        stage_update(
                            transaction,
                            path,
                            move_path,
                            original_content,
                            applied.new_contents,
                        );
                    },
                    Err(e) => {
                        return Err(ApplyFailure { message: e.to_text(), io: None });
                    },
                }
            },
            Err(e) => {
                return Err(unreadable(path.as_str(), e));
            },
        },
    }
    Ok(())
}

fn unreadable(path: &str, e: String) -> (r: ApplyFailure)
    ensures
        r@ == read_failure(path@, e@),
{
    ApplyFailure { message: labelled_path("Failed to read file ", path), io: Some(e) }
}

fn append_diagnostics(out: &mut Vec<char>, list: &[DiagnosticInfo])
    ensures
        final(out)@ == old(out)@ + diagnostics_text(
            crate::syntax_guard::diagnostic_models(list@),
        ),
{
    let ghost all = crate::syntax_guard::diagnostic_models(list@);
    let ghost start = out@;
    let mut i: usize = 0;
    assert(all.take(0) =~= Seq::<DiagnosticModel>::empty());
    assert(out@ =~= start + diagnostics_text(all.take(0)));
    while i < list.len()
        invariant
            i <= list@.len(),
            all == crate::syntax_guard::diagnostic_models(list@),
            out@ == start + diagnostics_text(all.take(i as int)),
        decreases list@.len() - i,
    {
        assert(all.take(i + 1).drop_last() =~= all.take(i as int));
        assert(all.take(i + 1).last() == list@[i as int]@);
        append_str(out, list[i].to_text().as_str());
        out.push('\n');
        assert(out@ =~= start + diagnostics_text(all.take(i + 1)));
        i += 1;
    }
    assert(all.take(all.len() as int) =~= all);
}

fn refusal_text(transaction: &PatchTransaction) -> (r: String)
    ensures
        r@ == "Syntax validation failed for the following changes:\n"@ + failures_text(
            with_diagnostics(failures_of(transaction@.validations)),
        ),
{
    let failures = transaction.get_failures();
    let ghost all = failure_models(failures@);
    let mut out: Vec<char> = chars_of("Syntax validation failed for the following changes:\n");
    let ghost start = out@;
    let mut i: usize = 0;
    assert(all.take(0) =~= Seq::<(ValidationModel, Seq<DiagnosticModel>)>::empty());
    assert(out@ =~= start + failures_text(all.take(0)));
    while i < failures.len()
        invariant
            i <= failures@.len(),
            all == failure_models(failures@),
            out@ == start + failures_text(all.take(i as int)),
        decreases failures@.len() - i,
    {
        assert(all.take(i + 1).drop_last() =~= all.take(i as int));
        assert(all.take(i + 1).last() == all[i as int]);
        append_diagnostics(&mut out, failures[i].1.as_slice());
        assert(out@ =~= start + failures_text(all.take(i + 1)));
        i += 1;
    }
    assert(all.take(all.len() as int) =~= all);
    string_of(out.as_slice())
}

/// What there is to do for hunks. Nothing is to be done unless every change can be
/// made and passes the check.
pub fn apply_hunks_to_files(hunks: &[Hunk], files: &FileSnapshot) -> (r: Result<
    Commit,
    ApplyFailure,
>)
    requires
        hunks_fit(hunk_models(hunks@), files@),
    ensures
        commit_outcome(r) == hunks_commit(hunk_models(hunks@), files@),
{
    if hunks.len() == 0 {
        return Err(ApplyFailure { message: "No files were modified.".to_string(), io: None });
    }
    let ghost models = hunk_models(hunks@);
    let mut transaction: PatchTransaction = PatchTransaction::new();
    let mut i: usize = 0;
    assert(transaction@.changes =~= Seq::<ChangeModel>::empty());
    while i < hunks.len()
        invariant
            i <= hunks@.len(),
            models == hunk_models(hunks@),
            hunks_fit(models, files@),
            forall|k: int| 0 <= k < i ==> hunk_ready(#[trigger] models[k], files@),
            staged(models, files@, i as int) == Ok::<Seq<ChangeModel>, FailureModel>(
                transaction@.changes,
            ),
        decreases hunks@.len() - i,
    {
        assert(models[i as int] == hunks@[i as int]@);
        assert(hunk_fits(models, files@, i as int));
        proof {
            lemma_ready(models[i as int], files@);
        }
        match stage_hunk(&mut transaction, &hunks[i], files) {
            Ok(()) => {},
            Err(e) => {
                proof {
                    lemma_staging_fails(models, files@, i + 1, models.len() as int);
                }
                return Err(e);
            },
        }
        i += 1;
    }
    if !transaction.validate_all() {
        let message: String = refusal_text(&transaction);
        transaction.rollback();
        return Err(ApplyFailure { message, io: None });
    }
    Ok(transaction.commit())
}

/// Whether no hunk that is reached and finds its lines puts any behind the end of its
/// file.
pub fn do_hunks_fit(hunks: &[Hunk], files: &FileSnapshot) -> (r: bool)
    ensures
        r == hunks_fit(hunk_models(hunks@), files@),
{
    let ghost models = hunk_models(hunks@);
    let mut i: usize = 0;
    while i < hunks.len()
        invariant
            i <= hunks@.len(),
            models == hunk_models(hunks@),
            forall|n: int| 0 <= n < i ==> #[trigger] hunk_fits(models, files@, n),
            forall|k: int| 0 <= k < i ==> hunk_ready(#[trigger] models[k], files@),
        decreases hunks@.len() - i,
    {
        assert(models[i as int] == hunks@[i as int]@);
        let ready: bool = match &hunks[i] {
            Hunk::AddFile { .. } => true,
            Hunk::DeleteFile { path } => files.read(path.as_str()).is_ok(),
            Hunk::UpdateFile { path, chunks, .. } => match files.read(path.as_str()) {
                Ok(contents) => {
                    if !do_contents_fit(path.as_str(), contents.as_str(), chunks.as_slice()) {
                        assert(!hunk_fits(models, files@, i as int));
                        return false;
                    }
                    proof {
                        lemma_ready(models[i as int], files@);
                    }
                    apply_chunks(path.as_str(), contents.as_str(), chunks.as_slice()).is_ok()
                },
                Err(_) => false,
            },
        };
        assert(ready == hunk_ready(models[i as int], files@));
        assert(hunk_fits(models, files@, i as int));
        if !ready {
            proof {
                assert forall|n: int| 0 <= n < models.len() implies #[trigger] hunk_fits(
                    models,
                    files@,
                    n,
                ) by {
                    if n > i {
                        assert(!hunk_ready(models[i as int], files@));
                    }
                }
            }
            return true;
        }
        i += 1;
    }
    true
}

// ---------------------------------------------------------------------------
// What is said
// ---------------------------------------------------------------------------
/// The paths, each on a line behind a letter.
pub open spec fn path_lines(letter: Seq<char>, paths: Seq<Seq<char>>) -> Seq<char>
    decreases paths.len(),
{
    if paths.len() == 0 {
        Seq::empty()
    } else {
        path_lines(letter, paths.drop_last()) + letter + paths.last() + seq!['\n']
    }
}

/// The list of the files that were touched.
pub open spec fn summary(affected: AffectedModel) -> Seq<char> {
    "Success. Updated the following files:\n"@ + path_lines("A "@, affected.added) + path_lines(
        "M "@,
        affected.modified,
    ) + path_lines("D "@, affected.deleted)
}

fn push_paths(out: &mut Vec<char>, letter: &str, paths: &[String])
    ensures
        final(out)@ == old(out)@ + path_lines(letter@, crate::lines::strings(paths@)),
{
    let ghost all = crate::lines::strings(paths@);
    let ghost start = out@;
    let mut i: usize = 0;
    assert(all.take(0) =~= Seq::<Seq<char>>::empty());
    assert(out@ =~= start + path_lines(letter@, all.take(0)));
    while i < paths.len()
        invariant
            i <= paths@.len(),
            all == crate::lines::strings(paths@),
            out@ == start + path_lines(letter@, all.take(i as int)),
        decreases paths@.len() - i,
    {
        assert(all.take(i + 1).drop_last() =~= all.take(i as int));
        assert(all.take(i + 1).last() == paths@[i as int]@);
        append_str(out, letter);
        append_str(out, paths[i].as_str());
        out.push('\n');
        assert(out@ =~= start + path_lines(letter@, all.take(i + 1)));
        i += 1;
    }
    assert(all.take(all.len() as int) =~= all);
}

/// The list of the files that were touched.
pub fn print_summary(affected: &AffectedPaths) -> (r: String)
    ensures
        r@ == summary(affected@),
{
    let mut out: Vec<char> = chars_of("Success. Updated the following files:\n");
    push_paths(&mut out, "A ", affected.added.as_slice());
    push_paths(&mut out, "M ", affected.modified.as_slice());
    push_paths(&mut out, "D ", affected.deleted.as_slice());
    string_of(out.as_slice())
}

/// A patch that can be applied: what there is to do, and what is then said.
#[derive(Debug, PartialEq, Eq)]
pub struct Applied {
    pub commit: Commit,
    pub stdout: String,
}

/// A patch that cannot be applied: what is said, and why.
#[derive(Debug, PartialEq)]
pub struct Refused {
    pub stderr: String,
    pub error: ApplyPatchError,
}

/// What a refusal holds.
#[verifier::ext_equal]
pub ghost struct RefusedModel {
    pub stderr: Seq<char>,
    pub error: ApplyErrorModel,
}

impl View for Refused {
    type V = RefusedModel;

    open spec fn view(&self) -> RefusedModel {
        RefusedModel { stderr: self.stderr@, error: self.error@ }
    }
}

/// The refusal for a failure: the file system's own words are kept where it failed,
/// else the message stands for them.
pub open spec fn refused(failure: FailureModel) -> RefusedModel {
    RefusedModel {
        stderr: failure.message + seq!['\n'],
        error: match failure.io {
            Some(e) => io_error(e),
            None => ApplyErrorModel::Io { context: failure.message, source: failure.message },
        },
    }
}

/// The outcome for a patch: the commit and what is said of it, or the refusal.
pub open spec fn apply_outcome(r: Result<Applied, Refused>) -> Result<
    (CommitModel, Seq<char>),
    RefusedModel,
> {
    match r {
        Ok(a) => Ok((a.commit@, a.stdout@)),
        Err(e) => Err(e@),
    }
}

/// The outcome for hunks.
pub open spec fn hunks_outcome(
    hunks: Seq<HunkModel>,
    files: Seq<(Seq<char>, Result<Seq<char>, Seq<char>>)>,
) -> Result<(CommitModel, Seq<char>), RefusedModel> {
    match hunks_commit(hunks, files) {
        Ok(commit) => Ok((commit, summary(commit.affected))),
        Err(failure) => Err(refused(failure)),
    }
}

/// What is said of a text that is no patch.
pub open spec fn invalid_patch_text(e: ParseErrorModel) -> Seq<char> {
    match e {
        ParseErrorModel::InvalidPatch(message) => "Invalid patch: "@ + message + seq!['\n'],
        ParseErrorModel::InvalidHunk { message, line_number } => "Invalid patch hunk on line "@
            + decimal(line_number as nat) + ": "@ + message + seq!['\n'],
    }
}

/// The outcome for the text of a patch.
pub open spec fn patch_outcome(
    patch: Seq<char>,
    files: Seq<(Seq<char>, Result<Seq<char>, Seq<char>>)>,
) -> Result<(CommitModel, Seq<char>), RefusedModel> {
    match parse_text(patch, ParseMode::Lenient) {
        Ok(args) => hunks_outcome(args.hunks, files),
        Err(e) => Err(
            RefusedModel { stderr: invalid_patch_text(e), error: ApplyErrorModel::Parse(e) },
        ),
    }
}

/// The refusal for a failure.
pub fn refuse(failure: ApplyFailure) -> (r: Refused)
    ensures
        r@ == refused(failure@),
{
    let mut said: Vec<char> = chars_of(failure.message.as_str());
    said.push('\n');
    assert(said@ =~= failure.message@ + seq!['\n']);
    let stderr: String = string_of(said.as_slice());
    match failure.io {
        Some(e) => Refused { stderr, error: ApplyPatchError::from_io(e.as_str()) },
        None => {
            let source: String = failure.message.clone();
            Refused {
                stderr,
                error: ApplyPatchError::IoError(IoError { context: failure.message, source }),
            }
        },
    }
}

/// The refusal for an operation of a commit at which the file system failed.
pub fn refuse_operation(operation: &FileOperation, step: OperationStep, source: &str) -> (r: Refused)
    ensures
        r@ == refused(
            FailureModel {
                message: operation_failure(operation@, step),
                io: Some(source@),
            },
        ),
{
    refuse(
        ApplyFailure { message: operation.failure_text(step), io: Some(source.to_string()) },
    )
}

/// Applies hunks to files.
pub fn apply_hunks(hunks: &[Hunk], files: &FileSnapshot) -> (r: Result<Applied, Refused>)
    requires
        hunks_fit(hunk_models(hunks@), files@),
    ensures
        apply_outcome(r) == hunks_outcome(hunk_models(hunks@), files@),
{
    match apply_hunks_to_files(hunks, files) {
        Ok(commit) => {
            let stdout: String = print_summary(&commit.affected);
            Ok(Applied { commit, stdout })
        },
        Err(failure) => Err(refuse(failure)),
    }
}

fn invalid_patch(e: &ParseError) -> (r: String)
    ensures
        r@ == invalid_patch_text(e@),
{
    let mut out: Vec<char> = Vec::new();
    match e {
        ParseError::InvalidPatchError(message) => {
            append_str(&mut out, "Invalid patch: ");
            append_str(&mut out, message.as_str());
        },
        ParseError::InvalidHunkError { message, line_number } => {
            append_str(&mut out, "Invalid patch hunk on line ");
            append_text(&mut out, decimal_text(*line_number as u128).as_slice());
            append_str(&mut out, ": ");
            append_str(&mut out, message.as_str());
        },
    }
    out.push('\n');
    assert(out@ =~= invalid_patch_text(e@));
    string_of(out.as_slice())
}

/// Applies a patch to files.
pub fn apply_patch(patch: &str, files: &FileSnapshot) -> (r: Result<Applied, Refused>)
    requires
        parse_text(patch@, ParseMode::Lenient) matches Ok(args) ==> hunks_fit(args.hunks, files@),
    ensures
        apply_outcome(r) == patch_outcome(patch@, files@),
{
    match parse_patch(patch) {
        Ok(args) => apply_hunks(args.hunks.as_slice(), files),
        Err(e) => {
            let stderr: String = invalid_patch(&e);
            Err(Refused { stderr, error: ApplyPatchError::ParseError(e) })
        },
    }
}

// ---------------------------------------------------------------------------
// Laws
// ---------------------------------------------------------------------------
/// All or nothing: there is something to do for hunks exactly where there are hunks,
/// each of them can be applied, and every change passes the check; and then it is
/// the changes of all hunks.
pub proof fn law_all_or_nothing(
    hunks: Seq<HunkModel>,
    files: Seq<(Seq<char>, Result<Seq<char>, Seq<char>>)>,
)
    ensures
        hunks_commit(hunks, files) is Ok <==> {
            &&& hunks.len() > 0
            &&& forall|i: int|
                0 <= i < hunks.len() ==> hunk_changes(#[trigger] hunks[i], files) is Ok
            &&& all_valid(change_validations(all_changes(hunks, files, hunks.len() as int)))
        },
        hunks_commit(hunks, files) matches Ok(commit) ==> commit == commit_of(
            all_changes(hunks, files, hunks.len() as int),
        ),
{
    lemma_staged(hunks, files, hunks.len() as int);
}

/// The changes of the first `n` hunks, as far as they can be applied.
pub open spec fn all_changes(
    hunks: Seq<HunkModel>,
    files: Seq<(Seq<char>, Result<Seq<char>, Seq<char>>)>,
    n: int,
) -> Seq<ChangeModel>
    decreases n,
{
    if n <= 0 {
        Seq::empty()
    } else {
        let before = all_changes(hunks, files, n - 1);
        match hunk_changes(hunks[n - 1], files) {
            Ok(more) => before + more,
            Err(_) => before,
        }
    }
}

proof fn lemma_staged(
    hunks: Seq<HunkModel>,
    files: Seq<(Seq<char>, Result<Seq<char>, Seq<char>>)>,
    n: int,
)
    requires
        0 <= n <= hunks.len(),
    ensures
        staged(hunks, files, n) is Ok <==> forall|i: int|
            0 <= i < n ==> hunk_changes(#[trigger] hunks[i], files) is Ok,
        staged(hunks, files, n) matches Ok(changes) ==> changes == all_changes(hunks, files, n),
    decreases n,
{
    if n > 0 {
        lemma_staged(hunks, files, n - 1);
        if staged(hunks, files, n) is Ok {
            assert forall|i: int| 0 <= i < n implies hunk_changes(#[trigger] hunks[i], files)
                is Ok by {
                if i == n - 1 {
                    assert(hunk_changes(hunks[n - 1], files) is Ok);
                }
            }
        }
    }
}

proof fn lemma_changes_of_hunk(
    hunks: Seq<HunkModel>,
    files: Seq<(Seq<char>, Result<Seq<char>, Seq<char>>)>,
    n: int,
    i: int,
    k: int,
)
    requires
        0 <= i < n <= hunks.len(),
        hunk_changes(hunks[i], files) is Ok,
        0 <= k < hunk_changes(hunks[i], files)->Ok_0.len(),
    ensures
        exists|m: int|
            0 <= m < all_changes(hunks, files, n).len() && #[trigger] all_changes(
                hunks,
                files,
                n,
            )[m] == hunk_changes(hunks[i], files)->Ok_0[k],
    decreases n,
{
    let before = all_changes(hunks, files, n - 1);
    let all = all_changes(hunks, files, n);
    let change = hunk_changes(hunks[i], files)->Ok_0[k];
    if i == n - 1 {
        assert(all[before.len() + k] == change);
    } else {
        lemma_changes_of_hunk(hunks, files, n - 1, i, k);
        let m = choose|m: int| 0 <= m < before.len() && #[trigger] before[m] == change;
        assert(all[m] == change);
    }
}

/// One of the operations is this one.
pub open spec fn is_asked_for(commit: CommitModel, operation: OperationModel) -> bool {
    exists|m: int| 0 <= m < commit.operations.len() && #[trigger] commit.operations[m] == operation
}

/// The file is sound: where its text has a tree in its language, no node is broken.
pub open spec fn is_sound_file(path: Seq<char>, text: Seq<char>) -> bool {
    syntax_tree(text, language_of(path)) matches Some(root) ==> is_sound(root)
}

proof fn lemma_hunk_operation(
    hunks: Seq<HunkModel>,
    files: Seq<(Seq<char>, Result<Seq<char>, Seq<char>>)>,
    i: int,
    k: int,
)
    requires
        hunks_commit(hunks, files) is Ok,
        0 <= i < hunks.len(),
        0 <= k < hunk_changes(hunks[i], files)->Ok_0.len(),
    ensures
        hunk_changes(hunks[i], files) is Ok,
        is_asked_for(
            hunks_commit(hunks, files)->Ok_0,
            operation_of(hunk_changes(hunks[i], files)->Ok_0[k]),
        ),
        is_harmless(hunk_changes(hunks[i], files)->Ok_0[k]),
{
    law_all_or_nothing(hunks, files);
    assert(hunk_changes(hunks[i], files) is Ok);
    let change = hunk_changes(hunks[i], files)->Ok_0[k];
    let changes = all_changes(hunks, files, hunks.len() as int);
    lemma_changes_of_hunk(hunks, files, hunks.len() as int, i, k);
    let m = choose|m: int| 0 <= m < changes.len() && #[trigger] changes[m] == change;
    law_commit_covers_every_change(changes);
    assert(commit_of(changes).operations[m] == operation_of(change));
    match change {
        ChangeModel::Add { path, content } => {
            if let Some(root) = syntax_tree(content, language_of(path)) {
                law_valid_changes_break_no_file(changes, m, root, root);
            }
        },
        ChangeModel::Update { path, original_content, new_content, .. } => {
            if let Some(old_root) = syntax_tree(original_content, language_of(path)) {
                if let Some(new_root) = syntax_tree(new_content, language_of(path)) {
                    law_valid_changes_break_no_file(changes, m, old_root, new_root);
                }
            }
        },
        ChangeModel::Delete { .. } => {},
    }
}

/// What there is to do carries a hunk out: a new file is created with its contents, a
/// deleted file is removed, an updated file is overwritten with its new contents, and a
/// moved file is removed and created anew with them.
pub open spec fn is_carried_out(
    hunk: HunkModel,
    files: Seq<(Seq<char>, Result<Seq<char>, Seq<char>>)>,
    commit: CommitModel,
) -> bool {
    match hunk {
        HunkModel::AddFile { path, contents } => is_asked_for(
            commit,
            OperationModel::Create { path, content: contents },
        ),
        HunkModel::DeleteFile { path } => read_file(files, path) is Ok && is_asked_for(
            commit,
            OperationModel::Remove { path },
        ),
        HunkModel::UpdateFile { path, move_path, chunks } => {
            &&& read_file(files, path) matches Ok(old_text)
            &&& new_contents(path, old_text, chunks) matches Ok(new_text)
            &&& match move_path {
                None => is_asked_for(
                    commit,
                    OperationModel::Overwrite { path, content: new_text },
                ),
                Some(dest) => is_asked_for(commit, OperationModel::Remove { path })
                    && is_asked_for(
                    commit,
                    OperationModel::Create { path: dest, content: new_text },
                ),
            }
        },
    }
}

proof fn lemma_changes_carry_out(
    hunk: HunkModel,
    files: Seq<(Seq<char>, Result<Seq<char>, Seq<char>>)>,
    commit: CommitModel,
)
    requires
        hunk_changes(hunk, files) is Ok,
        forall|k: int|
            0 <= k < hunk_changes(hunk, files)->Ok_0.len() ==> is_asked_for(
                commit,
                operation_of(#[trigger] hunk_changes(hunk, files)->Ok_0[k]),
            ),
    ensures
        is_carried_out(hunk, files, commit),
{
    let more = hunk_changes(hunk, files)->Ok_0;
    assert(is_asked_for(commit, operation_of(more[0])));
    match hunk {
        HunkModel::UpdateFile { path, move_path: Some(dest), chunks } => {
            assert(more.len() == 2);
            assert(is_asked_for(commit, operation_of(more[1])));
        },
        _ => {},
    }
}

/// Every hunk of a patch that is applied is carried out.
pub proof fn law_every_hunk_is_carried_out(
    hunks: Seq<HunkModel>,
    files: Seq<(Seq<char>, Result<Seq<char>, Seq<char>>)>,
    i: int,
)
    requires
        hunks_commit(hunks, files) is Ok,
        0 <= i < hunks.len(),
    ensures
        is_carried_out(hunks[i], files, hunks_commit(hunks, files)->Ok_0),
{
    let commit = hunks_commit(hunks, files)->Ok_0;
    let hunk = hunks[i];
    assert(hunk_changes(hunk, files) is Ok) by {
        law_all_or_nothing(hunks, files);
    }
    let more = hunk_changes(hunk, files)->Ok_0;
    assert forall|k: int| 0 <= k < more.len() implies is_asked_for(
        commit,
        operation_of(#[trigger] more[k]),
    ) by {
        lemma_hunk_operation(hunks, files, i, k);
    }
    lemma_changes_carry_out(hunk, files, commit);
}

/// A hunk breaks no file: a file that it creates is sound, and so is a file that it
/// updates in place if it was so before.
pub open spec fn breaks_no_file(
    hunk: HunkModel,
    files: Seq<(Seq<char>, Result<Seq<char>, Seq<char>>)>,
) -> bool {
    match hunk {
        HunkModel::AddFile { path, contents } => is_sound_file(path, contents),
        HunkModel::DeleteFile { .. } => true,
        HunkModel::UpdateFile { path, move_path, chunks } => {
            let old_text = read_file(files, path)->Ok_0;
            let new_text = new_contents(path, old_text, chunks)->Ok_0;
            match move_path {
                None => syntax_tree(old_text, language_of(path)) is Some && is_sound_file(
                    path,
                    old_text,
                ) ==> is_sound_file(path, new_text),
                Some(dest) => is_sound_file(dest, new_text),
            }
        },
    }
}

/// A change that breaks no file.
spec fn is_harmless(change: ChangeModel) -> bool {
    match change {
        ChangeModel::Add { path, content } => is_sound_file(path, content),
        ChangeModel::Update { path, original_content, new_content, patch_byte_range } =>
            patch_byte_range is None && syntax_tree(original_content, language_of(path)) is Some
                && is_sound_file(path, original_content) ==> is_sound_file(path, new_content),
        ChangeModel::Delete { .. } => true,
    }
}

proof fn lemma_harmless_changes(
    hunk: HunkModel,
    files: Seq<(Seq<char>, Result<Seq<char>, Seq<char>>)>,
)
    requires
        hunk_changes(hunk, files) is Ok,
        forall|k: int|
            0 <= k < hunk_changes(hunk, files)->Ok_0.len() ==> is_harmless(
                #[trigger] hunk_changes(hunk, files)->Ok_0[k],
            ),
    ensures
        breaks_no_file(hunk, files),
{
    let more = hunk_changes(hunk, files)->Ok_0;
    assert(is_harmless(more[0]));
    match hunk {
        HunkModel::UpdateFile { path, move_path: Some(dest), chunks } => {
            assert(more.len() == 2);
            assert(is_harmless(more[1]));
        },
        _ => {},
    }
}

/// A patch that is applied breaks no file.
pub proof fn law_applied_patch_breaks_no_file(
    hunks: Seq<HunkModel>,
    files: Seq<(Seq<char>, Result<Seq<char>, Seq<char>>)>,
    i: int,
)
    requires
        hunks_commit(hunks, files) is Ok,
        0 <= i < hunks.len(),
    ensures
        breaks_no_file(hunks[i], files),
{
    let hunk = hunks[i];
    assert(hunk_changes(hunk, files) is Ok) by {
        law_all_or_nothing(hunks, files);
    }
    let more = hunk_changes(hunk, files)->Ok_0;
    assert forall|k: int| 0 <= k < more.len() implies is_harmless(#[trigger] more[k]) by {
        lemma_hunk_operation(hunks, files, i, k);
    }
    lemma_harmless_changes(hunk, files);
}

/// A moved file is a file less and a new one: its old path is removed, and the
/// updated contents appear under the new path.
pub proof fn law_move_is_delete_and_add(
    path: Seq<char>,
    dest: Seq<char>,
    chunks: Seq<ChunkModel>,
    files: Seq<(Seq<char>, Result<Seq<char>, Seq<char>>)>,
)
    requires
        hunk_changes(
            HunkModel::UpdateFile { path, move_path: Some(dest), chunks },
            files,
        ) is Ok,
    ensures
        ({
            let hunk = HunkModel::UpdateFile { path, move_path: Some(dest), chunks };
            let changes = hunk_changes(hunk, files)->Ok_0;
            let text = derived(path, chunks, read_file(files, path))->Ok_0.1;
            &&& operations_of(changes) == seq![
                OperationModel::Remove { path },
                OperationModel::Create { path: dest, content: text },
            ]
            &&& affected_by(changes).added == seq![dest]
            &&& affected_by(changes).deleted == seq![path]
            &&& affected_by(changes).modified.len() == 0
        }),
{
    let hunk = HunkModel::UpdateFile { path, move_path: Some(dest), chunks };
    let changes = hunk_changes(hunk, files)->Ok_0;
    let text = derived(path, chunks, read_file(files, path))->Ok_0.1;
    assert(operations_of(changes) =~= seq![
        OperationModel::Remove { path },
        OperationModel::Create { path: dest, content: text },
    ]);
    let first = changes.drop_last();
    let none = first.drop_last();
    assert(none =~= Seq::<ChangeModel>::empty());
    assert(affected_by(none).added =~= Seq::<Seq<char>>::empty());
    assert(first.last() == changes[0]);
    assert(changes.last() == changes[1]);
    assert(affected_by(first).deleted =~= seq![path]);
    assert(affected_by(changes).added =~= seq![dest]);
}

/// A text that is no patch changes nothing and is refused with the error of the
/// parser.
pub proof fn law_invalid_patch_is_refused(
    patch: Seq<char>,
    files: Seq<(Seq<char>, Result<Seq<char>, Seq<char>>)>,
)
    requires
        parse_text(patch, ParseMode::Lenient) is Err,
    ensures
        patch_outcome(patch, files) matches Err(refusal) && refusal.error
            == ApplyErrorModel::Parse(parse_text(patch, ParseMode::Lenient)->Err_0),
{
}

/// The file that an operation touches.
pub open spec fn operation_path(op: OperationModel) -> Seq<char> {
    match op {
        OperationModel::Create { path, .. } => path,
        OperationModel::Overwrite { path, .. } => path,
        OperationModel::Remove { path } => path,
    }
}

/// A hunk names a file: as its own, or as the one that it moves its own to.
pub open spec fn names_file(hunk: HunkModel, path: Seq<char>) -> bool {
    hunk_path(hunk) == path || (hunk matches HunkModel::UpdateFile { move_path, .. } && move_path
        == Some(path))
}

/// One of the first `n` hunks names the file that a change is about.
spec fn is_named(hunks: Seq<HunkModel>, change: ChangeModel, n: int) -> bool {
    exists|i: int|
        0 <= i < n && #[trigger] names_file(hunks[i], operation_path(operation_of(change)))
}

#[verifier::spinoff_prover]
proof fn lemma_changes_are_named(
    hunks: Seq<HunkModel>,
    files: Seq<(Seq<char>, Result<Seq<char>, Seq<char>>)>,
    n: int,
    k: int,
)
    requires
        0 <= n <= hunks.len(),
        0 <= k < all_changes(hunks, files, n).len(),
    ensures
        is_named(hunks, all_changes(hunks, files, n)[k], n),
    decreases n,
{
    if n > 0 {
        let before = all_changes(hunks, files, n - 1);
        let change = all_changes(hunks, files, n)[k];
        if k < before.len() {
            lemma_changes_are_named(hunks, files, n - 1, k);
            assert(change == before[k]);
            let i = choose|i: int|
                0 <= i < n - 1 && #[trigger] names_file(
                    hunks[i],
                    operation_path(operation_of(change)),
                );
            assert(names_file(hunks[i], operation_path(operation_of(change))));
        } else {
            let more = hunk_changes(hunks[n - 1], files)->Ok_0;
            assert(change == more[k - before.len()]);
            assert(names_file(hunks[n - 1], operation_path(operation_of(change))));
        }
    }
}

/// Nothing is done to a file that no hunk names.
pub proof fn law_only_named_files_are_touched(
    hunks: Seq<HunkModel>,
    files: Seq<(Seq<char>, Result<Seq<char>, Seq<char>>)>,
    k: int,
)
    requires
        hunks_commit(hunks, files) is Ok,
        0 <= k < hunks_commit(hunks, files)->Ok_0.operations.len(),
    ensures
        exists|i: int|
            0 <= i < hunks.len() && #[trigger] names_file(
                hunks[i],
                operation_path(hunks_commit(hunks, files)->Ok_0.operations[k]),
            ),
{
    law_all_or_nothing(hunks, files);
    let changes = all_changes(hunks, files, hunks.len() as int);
    lemma_changes_are_named(hunks, files, hunks.len() as int, k);
    assert(commit_of(changes).operations[k] == operation_of(changes[k]));
}

/// An update keeps the old text of the file beside the new one, and the new text is
/// empty or ends with a line feed.
pub proof fn law_update_keeps_the_old_text(
    path: Seq<char>,
    chunks: Seq<ChunkModel>,
    contents: Seq<char>,
)
    ensures
        derived(path, chunks, Ok(contents)) matches Ok((old_text, new_text)) ==> old_text
            == contents && (new_text.len() == 0 || new_text.last() == '\n'),
{
    let lines = file_lines(contents);
    let finder = crate::anchor_finder::finder_for(
        path,
        contents,
        crate::lines::piece_seq(contents).len() as int,
    );
    match ordered_plan(lines, finder, path, chunks) {
        Ok(list) => {
            law_new_contents_end_with_a_line_feed(
                with_replacements(lines, list, list.len() as int),
            );
        },
        Err(_) => {},
    }
}

/// The text of a patch that does not look as if it needed repair does to the files
/// what the hunks that it was written for mean.
pub proof fn law_written_patch_is_applied(
    hunks: Seq<WrittenHunk>,
    files: Seq<(Seq<char>, Result<Seq<char>, Seq<char>>)>,
)
    requires
        are_hunks(hunks),
        separable(written_lines(hunks)),
        !needs_repair(joined(written_lines(hunks))),
    ensures
        patch_outcome(joined(written_lines(hunks)), files) == hunks_outcome(
            hunk_meanings(hunks),
            files,
        ),
{
    law_written_patch_is_read(hunks);
}

} // verus!
