//! Parsing of patches into hunks.
//!
//! A patch starts with `*** Begin Patch` and ends with `*** End Patch`. Between
//! the two stand hunks: a file to add, with its lines behind `+`; a file to
//! delete; or a file to update, with chunks of changed lines. White space around
//! the markers is allowed.
use vstd::prelude::*;
use vstd::slice::slice_subrange;

use crate::file_marker::strip_prefix;
use crate::lines::{
    copy_texts, ended, join_lines, joined, lemma_ended_push, lemma_texts_push, line_seq, push_line,
    split_lines, strings, strings_of, texts,
};
use crate::markers::{
    prefix_char, ADD_FILE_MARKER, BEGIN_PATCH_MARKER, CHANGE_CONTEXT_MARKER, DELETE_FILE_MARKER,
    EMPTY_CHANGE_CONTEXT_MARKER, END_PATCH_MARKER, EOF_MARKER, MOVE_TO_MARKER, UPDATE_FILE_MARKER,
};
use crate::path::{join, joined_path};
use crate::repair::{
    auto_repair_patch_with_mode, needs_proactive_repair, needs_repair, repaired_patch,
};
use crate::text::{
    append_str, append_text, chars_of, concat3, contains, contains_text, copy_text, decimal,
    decimal_text, ends_with, has_char, has_prefix, has_suffix, is_blank, is_blank_text, replace,
    replaced, span, starts_with, string_of, text_is, trim, trim_end, trim_start, trimmed,
    trimmed_end, trimmed_start,
};

verus! {

// ---------------------------------------------------------------------------
// Hunks and errors
// ---------------------------------------------------------------------------
/// Why a text is no patch.
#[derive(Debug, PartialEq)]
pub enum ParseError {
    InvalidPatchError(String),
    InvalidHunkError { message: String, line_number: usize },
}

/// What is done to a file.
#[derive(Debug, PartialEq)]
pub enum Hunk {
    AddFile { path: String, contents: String },
    DeleteFile { path: String },
    UpdateFile {
        path: String,
        move_path: Option<String>,
        /// In the order of their places in the file.
        chunks: Vec<UpdateFileChunk>,
    },
}

/// A run of lines to replace.
#[derive(Debug, PartialEq)]
pub struct UpdateFileChunk {
    /// A line before the run that narrows down its place.
    pub change_context: Option<String>,
    /// The lines to replace.
    pub old_lines: Vec<String>,
    /// The lines that take their place.
    pub new_lines: Vec<String>,
    /// The run ends the file.
    pub is_end_of_file: bool,
}

/// A parsed patch.
#[derive(Debug, PartialEq)]
pub struct ApplyPatchArgs {
    pub patch: String,
    pub hunks: Vec<Hunk>,
    pub workdir: Option<String>,
}

/// How much a text may differ from a patch.
#[derive(Clone, Copy, Debug, PartialEq, Eq, Structural)]
pub enum ParseMode {
    /// The text is the patch.
    Strict,
    /// The text may hold the patch between the lines of a shell's here document,
    /// and lines of it may have been run together.
    Lenient,
}

/// What a parse error holds.
#[verifier::ext_equal]
pub ghost enum ParseErrorModel {
    InvalidPatch(Seq<char>),
    InvalidHunk { message: Seq<char>, line_number: int },
}

/// What a chunk holds.
#[verifier::ext_equal]
pub ghost struct ChunkModel {
    pub change_context: Option<Seq<char>>,
    pub old_lines: Seq<Seq<char>>,
    pub new_lines: Seq<Seq<char>>,
    pub is_end_of_file: bool,
}

/// What a hunk holds.
#[verifier::ext_equal]
pub ghost enum HunkModel {
    AddFile { path: Seq<char>, contents: Seq<char> },
    DeleteFile { path: Seq<char> },
    UpdateFile { path: Seq<char>, move_path: Option<Seq<char>>, chunks: Seq<ChunkModel> },
}

/// What a parsed patch holds.
#[verifier::ext_equal]
pub ghost struct PatchModel {
    pub patch: Seq<char>,
    pub hunks: Seq<HunkModel>,
    pub workdir: Option<Seq<char>>,
}

/// The text of an optional string.
pub open spec fn option_text(s: Option<String>) -> Option<Seq<char>> {
    match s {
        Some(t) => Some(t@),
        None => None,
    }
}

impl View for ParseError {
    type V = ParseErrorModel;

    open spec fn view(&self) -> ParseErrorModel {
        match self {
            ParseError::InvalidPatchError(message) => ParseErrorModel::InvalidPatch(message@),
            ParseError::InvalidHunkError { message, line_number } => ParseErrorModel::InvalidHunk {
                message: message@,
                line_number: *line_number as int,
            },
        }
    }
}

impl View for UpdateFileChunk {
    type V = ChunkModel;

    open spec fn view(&self) -> ChunkModel {
        ChunkModel {
            change_context: option_text(self.change_context),
            old_lines: strings(self.old_lines@),
            new_lines: strings(self.new_lines@),
            is_end_of_file: self.is_end_of_file,
        }
    }
}

pub open spec fn chunk_models(v: Seq<UpdateFileChunk>) -> Seq<ChunkModel> {
    Seq::new(v.len(), |i: int| v[i]@)
}

impl View for Hunk {
    type V = HunkModel;

    open spec fn view(&self) -> HunkModel {
        match self {
            Hunk::AddFile { path, contents } => HunkModel::AddFile {
                path: path@,
                contents: contents@,
            },
            Hunk::DeleteFile { path } => HunkModel::DeleteFile { path: path@ },
            Hunk::UpdateFile { path, move_path, chunks } => HunkModel::UpdateFile {
                path: path@,
                move_path: option_text(*move_path),
                chunks: chunk_models(chunks@),
            },
        }
    }
}

pub open spec fn hunk_models(v: Seq<Hunk>) -> Seq<HunkModel> {
    Seq::new(v.len(), |i: int| v[i]@)
}

impl View for ApplyPatchArgs {
    type V = PatchModel;

    open spec fn view(&self) -> PatchModel {
        PatchModel {
            patch: self.patch@,
            hunks: hunk_models(self.hunks@),
            workdir: option_text(self.workdir),
        }
    }
}

/// A copy of an optional string.
pub fn copy_option(s: &Option<String>) -> (r: Option<String>)
    ensures
        option_text(r) == option_text(*s),
{
    match s {
        Some(t) => Some(t.clone()),
        None => None,
    }
}

/// A copy of a list of strings.
pub fn copy_strings(v: &[String]) -> (r: Vec<String>)
    ensures
        strings(r@) == strings(v@),
{
    let mut out: Vec<String> = Vec::new();
    let mut i: usize = 0;
    while i < v.len()
        invariant
            i <= v@.len(),
            strings(out@) == strings(v@).take(i as int),
        decreases v@.len() - i,
    {
        let ghost before = out@;
        out.push(v[i].clone());
        assert(strings(out@) =~= strings(before).push(v@[i as int]@));
        i += 1;
        assert(strings(out@) =~= strings(v@).take(i as int));
    }
    assert(strings(v@).take(v@.len() as int) =~= strings(v@));
    out
}

impl Clone for ParseError {
    fn clone(&self) -> (r: Self)
        ensures
            r@ == self@,
    {
        match self {
            ParseError::InvalidPatchError(message) => ParseError::InvalidPatchError(
                message.clone(),
            ),
            ParseError::InvalidHunkError { message, line_number } => ParseError::InvalidHunkError {
                message: message.clone(),
                line_number: *line_number,
            },
        }
    }
}

impl Clone for UpdateFileChunk {
    fn clone(&self) -> (r: Self)
        ensures
            r@ == self@,
    {
        UpdateFileChunk {
            change_context: copy_option(&self.change_context),
            old_lines: copy_strings(self.old_lines.as_slice()),
            new_lines: copy_strings(self.new_lines.as_slice()),
            is_end_of_file: self.is_end_of_file,
        }
    }
}

fn copy_chunks(v: &[UpdateFileChunk]) -> (r: Vec<UpdateFileChunk>)
    ensures
        chunk_models(r@) == chunk_models(v@),
{
    let mut out: Vec<UpdateFileChunk> = Vec::new();
    let mut i: usize = 0;
    while i < v.len()
        invariant
            i <= v@.len(),
            chunk_models(out@) == chunk_models(v@).take(i as int),
        decreases v@.len() - i,
    {
        let ghost before = out@;
        out.push(v[i].clone());
        assert(chunk_models(out@) =~= chunk_models(before).push(v@[i as int]@));
        i += 1;
        assert(chunk_models(out@) =~= chunk_models(v@).take(i as int));
    }
    assert(chunk_models(v@).take(v@.len() as int) =~= chunk_models(v@));
    out
}

impl Clone for Hunk {
    fn clone(&self) -> (r: Self)
        ensures
            r@ == self@,
    {
        match self {
            Hunk::AddFile { path, contents } => Hunk::AddFile {
                path: path.clone(),
                contents: contents.clone(),
            },
            Hunk::DeleteFile { path } => Hunk::DeleteFile { path: path.clone() },
            Hunk::UpdateFile { path, move_path, chunks } => Hunk::UpdateFile {
                path: path.clone(),
                move_path: copy_option(move_path),
                chunks: copy_chunks(chunks.as_slice()),
            },
        }
    }
}

/// The outcome of a parse.
pub open spec fn parse_outcome(r: Result<ApplyPatchArgs, ParseError>) -> Result<
    PatchModel,
    ParseErrorModel,
> {
    match r {
        Ok(args) => Ok(args@),
        Err(e) => Err(e@),
    }
}

/// The text of a parse error.
pub open spec fn parse_error_text(e: ParseErrorModel) -> Seq<char> {
    match e {
        ParseErrorModel::InvalidPatch(message) => "invalid patch: "@ + message,
        ParseErrorModel::InvalidHunk { message, line_number } => "invalid hunk at line "@ + decimal(
            line_number as nat,
        ) + ", "@ + message,
    }
}

impl ParseError {
    /// The text of the error.
    pub fn to_text(&self) -> (r: String)
        ensures
            r@ == parse_error_text(self@),
    {
        match self {
            ParseError::InvalidPatchError(message) => {
                let mut out: Vec<char> = chars_of("invalid patch: ");
                append_str(&mut out, message.as_str());
                string_of(out.as_slice())
            },
            ParseError::InvalidHunkError { message, line_number } => {
                let mut out: Vec<char> = chars_of("invalid hunk at line ");
                append_text(&mut out, decimal_text(*line_number as u128).as_slice());
                append_str(&mut out, ", ");
                append_str(&mut out, message.as_str());
                string_of(out.as_slice())
            },
        }
    }
}

/// The path that a hunk names.
pub open spec fn hunk_path(h: HunkModel) -> Seq<char> {
    match h {
        HunkModel::AddFile { path, .. } => path,
        HunkModel::DeleteFile { path } => path,
        HunkModel::UpdateFile { path, .. } => path,
    }
}

impl Hunk {
    /// The path of the hunk's file as seen from a directory.
    pub fn resolve_path(&self, cwd: &str) -> (r: String)
        ensures
            r@ == joined_path(cwd@, hunk_path(self@)),
    {
        match self {
            Hunk::AddFile { path, .. } => join(cwd, path.as_str()),
            Hunk::DeleteFile { path } => join(cwd, path.as_str()),
            Hunk::UpdateFile { path, .. } => join(cwd, path.as_str()),
        }
    }
}

pub open spec fn hunk_error(message: Seq<char>, line_number: int) -> ParseErrorModel {
    ParseErrorModel::InvalidHunk { message, line_number }
}

// ---------------------------------------------------------------------------
// Chunks
// ---------------------------------------------------------------------------
/// A line of a chunk: empty, or behind a space, a plus or a minus.
pub open spec fn is_change_line(line: Seq<char>) -> bool {
    line.len() == 0 || line[0] == ' ' || prefix_char(line[0])
}

/// The first line at or after `i` that is no line of a chunk.
pub open spec fn changes_end(lines: Seq<Seq<char>>, i: int) -> int
    decreases lines.len() - i,
{
    if 0 <= i < lines.len() && is_change_line(lines[i]) {
        changes_end(lines, i + 1)
    } else {
        i
    }
}

/// The lines that a chunk takes away: the context lines and those behind a minus.
pub open spec fn old_part(lines: Seq<Seq<char>>) -> Seq<Seq<char>>
    decreases lines.len(),
{
    if lines.len() == 0 {
        Seq::empty()
    } else {
        let rest = old_part(lines.drop_last());
        let line = lines.last();
        if line.len() == 0 {
            rest.push(line)
        } else if line[0] == '+' {
            rest
        } else {
            rest.push(line.skip(1))
        }
    }
}

/// The lines that a chunk puts in: the context lines and those behind a plus.
pub open spec fn new_part(lines: Seq<Seq<char>>) -> Seq<Seq<char>>
    decreases lines.len(),
{
    if lines.len() == 0 {
        Seq::empty()
    } else {
        let rest = new_part(lines.drop_last());
        let line = lines.last();
        if line.len() == 0 {
            rest.push(line)
        } else if line[0] == '-' {
            rest
        } else {
            rest.push(line.skip(1))
        }
    }
}

/// The context of a chunk, and the number of lines that it takes up.
pub open spec fn chunk_context(line: Seq<char>) -> Option<(Option<Seq<char>>, int)> {
    if line == EMPTY_CHANGE_CONTEXT_MARKER@ {
        Some((None, 1))
    } else if has_prefix(line, CHANGE_CONTEXT_MARKER@) {
        Some((Some(line.skip(CHANGE_CONTEXT_MARKER@.len() as int)), 1))
    } else {
        None
    }
}

/// The chunk at the start of `lines`, behind its context, and the number of lines
/// that it takes up.
pub open spec fn chunk_at(
    lines: Seq<Seq<char>>,
    line_number: int,
    context: Option<Seq<char>>,
    start: int,
) -> Result<(ChunkModel, int), ParseErrorModel> {
    let end = changes_end(lines, start);
    let is_end_of_file = end < lines.len() && lines[end] == EOF_MARKER@;
    if start >= lines.len() || (end == start && is_end_of_file) {
        Err(hunk_error("Update hunk empty"@, line_number + 1))
    } else if end == start {
        Err(hunk_error("Unexpected line: '"@ + lines[start] + "'"@, line_number + 1))
    } else {
        let body = lines.subrange(start, end);
        Ok(
            (
                ChunkModel {
                    change_context: context,
                    old_lines: old_part(body),
                    new_lines: new_part(body),
                    is_end_of_file,
                },
                if is_end_of_file {
                    end + 1
                } else {
                    end
                },
            ),
        )
    }
}

/// The chunk at the start of `lines`. Only the first chunk of a hunk may lack its
/// context line.
pub open spec fn parse_chunk(lines: Seq<Seq<char>>, line_number: int, allow_missing: bool) -> Result<
    (ChunkModel, int),
    ParseErrorModel,
> {
    if lines.len() == 0 {
        Err(hunk_error("Update hunk does not contain any lines"@, line_number))
    } else {
        match chunk_context(lines[0]) {
            Some((context, start)) => chunk_at(lines, line_number, context, start),
            None => if allow_missing {
                chunk_at(lines, line_number, None, 0)
            } else {
                Err(hunk_error("Expected @@ marker, got: '"@ + lines[0] + "'"@, line_number))
            },
        }
    }
}

pub proof fn lemma_changes_end(lines: Seq<Seq<char>>, i: int)
    requires
        0 <= i <= lines.len(),
    ensures
        i <= changes_end(lines, i) <= lines.len(),
    decreases lines.len() - i,
{
    if i < lines.len() && is_change_line(lines[i]) {
        lemma_changes_end(lines, i + 1);
    }
}

/// A chunk takes up at least one line, and lines of the patch alone.
pub proof fn lemma_parse_chunk(lines: Seq<Seq<char>>, line_number: int, allow_missing: bool)
    ensures
        parse_chunk(lines, line_number, allow_missing) matches Ok((_, n)) ==> 0 < n <= lines.len(),
{
    if lines.len() > 0 {
        lemma_changes_end(lines, 0);
        lemma_changes_end(lines, 1);
    }
}

fn hunk_failure(message: String, line_number: usize) -> (r: ParseError)
    ensures
        r@ == hunk_error(message@, line_number as int),
{
    ParseError::InvalidHunkError { message, line_number }
}

fn is_change(line: &[char]) -> (r: bool)
    ensures
        r == is_change_line(line@),
{
    line.len() == 0 || line[0] == ' ' || line[0] == '+' || line[0] == '-'
}

fn find_changes_end(lines: &[Vec<char>], start: usize) -> (r: usize)
    requires
        start <= lines@.len(),
    ensures
        r == changes_end(texts(lines@), start as int),
        start <= r <= lines@.len(),
{
    let mut i: usize = start;
    while i < lines.len() && is_change(lines[i].as_slice())
        invariant
            start <= i <= lines@.len(),
            changes_end(texts(lines@), start as int) == changes_end(texts(lines@), i as int),
        decreases lines@.len() - i,
    {
        i += 1;
    }
    i
}

fn text_after(line: &[char]) -> (r: Vec<char>)
    requires
        line@.len() > 0,
    ensures
        r@ == line@.skip(1),
{
    let out: Vec<char> = copy_text(span(line, 1, line.len()));
    assert(out@ =~= line@.skip(1));
    out
}

fn take_old(lines: &[Vec<char>]) -> (r: Vec<String>)
    ensures
        strings(r@) == old_part(texts(lines@)),
{
    let mut out: Vec<Vec<char>> = Vec::new();
    let mut i: usize = 0;
    let ghost all = texts(lines@);
    assert(all.take(0) =~= Seq::<Seq<char>>::empty());
    assert(texts(out@) =~= Seq::<Seq<char>>::empty());
    while i < lines.len()
        invariant
            i <= lines@.len(),
            all == texts(lines@),
            texts(out@) == old_part(all.take(i as int)),
        decreases lines@.len() - i,
    {
        let line: &[char] = lines[i].as_slice();
        assert(all.take(i + 1).drop_last() =~= all.take(i as int));
        assert(all.take(i + 1).last() == line@);
        let ghost before = out@;
        if line.len() == 0 {
            let t: Vec<char> = copy_text(line);
            proof {
                lemma_texts_push(before, t);
            }
            out.push(t);
        } else if line[0] != '+' {
            let t: Vec<char> = text_after(line);
            proof {
                lemma_texts_push(before, t);
            }
            out.push(t);
        }
        i += 1;
    }
    assert(all.take(lines@.len() as int) =~= all);
    strings_of(out.as_slice())
}

fn take_new(lines: &[Vec<char>]) -> (r: Vec<String>)
    ensures
        strings(r@) == new_part(texts(lines@)),
{
    let mut out: Vec<Vec<char>> = Vec::new();
    let mut i: usize = 0;
    let ghost all = texts(lines@);
    assert(all.take(0) =~= Seq::<Seq<char>>::empty());
    assert(texts(out@) =~= Seq::<Seq<char>>::empty());
    while i < lines.len()
        invariant
            i <= lines@.len(),
            all == texts(lines@),
            texts(out@) == new_part(all.take(i as int)),
        decreases lines@.len() - i,
    {
        let line: &[char] = lines[i].as_slice();
        assert(all.take(i + 1).drop_last() =~= all.take(i as int));
        assert(all.take(i + 1).last() == line@);
        let ghost before = out@;
        if line.len() == 0 {
            let t: Vec<char> = copy_text(line);
            proof {
                lemma_texts_push(before, t);
            }
            out.push(t);
        } else if line[0] != '-' {
            let t: Vec<char> = text_after(line);
            proof {
                lemma_texts_push(before, t);
            }
            out.push(t);
        }
        i += 1;
    }
    assert(all.take(lines@.len() as int) =~= all);
    strings_of(out.as_slice())
}

/// The outcome of parsing a chunk.
pub open spec fn chunk_outcome(r: Result<(UpdateFileChunk, usize), ParseError>) -> Result<
    (ChunkModel, int),
    ParseErrorModel,
> {
    match r {
        Ok((chunk, n)) => Ok((chunk@, n as int)),
        Err(e) => Err(e@),
    }
}

fn read_chunk(
    lines: &[Vec<char>],
    line_number: usize,
    change_context: Option<String>,
    start: usize,
) -> (r: Result<(UpdateFileChunk, usize), ParseError>)
    requires
        start <= lines@.len(),
        line_number < usize::MAX,
    ensures
        chunk_outcome(r) == chunk_at(
            texts(lines@),
            line_number as int,
            option_text(change_context),
            start as int,
        ),
{
    let end: usize = find_changes_end(lines, start);
    let is_end_of_file: bool = end < lines.len() && text_is(lines[end].as_slice(), EOF_MARKER);
    if start >= lines.len() || (end == start && is_end_of_file) {
        return Err(hunk_failure("Update hunk empty".to_string(), line_number + 1));
    }
    if end == start {
        return Err(
            hunk_failure(
                concat3("Unexpected line: '", lines[start].as_slice(), "'"),
                line_number + 1,
            ),
        );
    }
    let body: &[Vec<char>] = slice_subrange(lines, start, end);
    assert(texts(body@) =~= texts(lines@).subrange(start as int, end as int));
    let chunk: UpdateFileChunk = UpdateFileChunk {
        change_context,
        old_lines: take_old(body),
        new_lines: take_new(body),
        is_end_of_file,
    };
    let taken: usize = if is_end_of_file {
        end + 1
    } else {
        end
    };
    Ok((chunk, taken))
}

/// Parses the chunk at the start of `lines`.
pub fn parse_update_file_chunk(
    lines: &[Vec<char>],
    line_number: usize,
    allow_missing_context: bool,
) -> (r: Result<(UpdateFileChunk, usize), ParseError>)
    requires
        line_number < usize::MAX,
    ensures
        chunk_outcome(r) == parse_chunk(texts(lines@), line_number as int, allow_missing_context),
{
    if lines.len() == 0 {
        return Err(
            hunk_failure("Update hunk does not contain any lines".to_string(), line_number),
        );
    }
    let first: &[char] = lines[0].as_slice();
    assert(first@ == texts(lines@)[0]);
    if text_is(first, EMPTY_CHANGE_CONTEXT_MARKER) {
        return read_chunk(lines, line_number, None, 1);
    }
    match strip_prefix(first, CHANGE_CONTEXT_MARKER) {
        Some(context) => {
            return read_chunk(lines, line_number, Some(string_of(context)), 1);
        },
        None => {},
    }
    if !allow_missing_context {
        return Err(hunk_failure(concat3("Expected @@ marker, got: '", first, "'"), line_number));
    }
    read_chunk(lines, line_number, None, 0)
}

// ---------------------------------------------------------------------------
// Hunks
// ---------------------------------------------------------------------------
/// The first line at or after `i` that does not start with a plus.
pub open spec fn added_end(lines: Seq<Seq<char>>, i: int) -> int
    decreases lines.len() - i,
{
    if 0 <= i < lines.len() && lines[i].len() > 0 && lines[i][0] == '+' {
        added_end(lines, i + 1)
    } else {
        i
    }
}

/// The lines without their first characters.
pub open spec fn without_firsts(lines: Seq<Seq<char>>) -> Seq<Seq<char>> {
    Seq::new(lines.len(), |i: int| lines[i].skip(1))
}

/// The chunks of an update hunk from line `i` of the hunk on, behind `chunks`, and
/// the line where they end.
pub open spec fn chunks_from(
    lines: Seq<Seq<char>>,
    line_number: int,
    i: int,
    chunks: Seq<ChunkModel>,
) -> Result<(Seq<ChunkModel>, int), ParseErrorModel>
    decreases lines.len() - i,
{
    if i < 0 || i >= lines.len() || (!is_blank_text(lines[i]) && has_prefix(lines[i], "***"@)) {
        Ok((chunks, i))
    } else if is_blank_text(lines[i]) {
        chunks_from(lines, line_number, i + 1, chunks)
    } else {
        proof {
            lemma_parse_chunk(lines.skip(i), line_number + i, chunks.len() == 0);
        }
        match parse_chunk(lines.skip(i), line_number + i, chunks.len() == 0) {
            Ok((chunk, n)) => chunks_from(lines, line_number, i + n, chunks.push(chunk)),
            Err(e) => Err(e),
        }
    }
}

/// The path that an update hunk moves its file to.
pub open spec fn move_target(lines: Seq<Seq<char>>) -> Option<Seq<char>> {
    if lines.len() > 1 && has_prefix(lines[1], MOVE_TO_MARKER@) {
        Some(lines[1].skip(MOVE_TO_MARKER@.len() as int))
    } else {
        None
    }
}

/// The update hunk at the start of `lines`, and the number of lines it takes up. It
/// may have no chunks, as where it moves its file alone.
pub open spec fn update_hunk(lines: Seq<Seq<char>>, line_number: int, path: Seq<char>) -> Result<
    (HunkModel, int),
    ParseErrorModel,
> {
    let start: int = if move_target(lines).is_some() {
        2
    } else {
        1
    };
    match chunks_from(lines, line_number, start, Seq::empty()) {
        Err(e) => Err(e),
        Ok((chunks, end)) => Ok(
            (HunkModel::UpdateFile { path, move_path: move_target(lines), chunks }, end),
        ),
    }
}

/// The hunk at the start of `lines`, and the number of lines that it takes up.
pub open spec fn parse_hunk(lines: Seq<Seq<char>>, line_number: int) -> Result<
    (HunkModel, int),
    ParseErrorModel,
> {
    let first = trimmed(lines[0]);
    if has_prefix(first, ADD_FILE_MARKER@) {
        let end = added_end(lines, 1);
        Ok(
            (
                HunkModel::AddFile {
                    path: first.skip(ADD_FILE_MARKER@.len() as int),
                    contents: ended(without_firsts(lines.subrange(1, end))),
                },
                end,
            ),
        )
    } else if has_prefix(first, DELETE_FILE_MARKER@) {
        Ok((HunkModel::DeleteFile { path: first.skip(DELETE_FILE_MARKER@.len() as int) }, 1))
    } else if has_prefix(first, UPDATE_FILE_MARKER@) {
        update_hunk(lines, line_number, first.skip(UPDATE_FILE_MARKER@.len() as int))
    } else {
        Err(
            hunk_error(
                "'"@ + first
                    + "' is not a valid hunk header. Valid hunk headers: '*** Add File: {path}', '*** Delete File: {path}', '*** Update File: {path}'"@,
                line_number,
            ),
        )
    }
}

pub proof fn lemma_added_end(lines: Seq<Seq<char>>, i: int)
    requires
        0 <= i <= lines.len(),
    ensures
        i <= added_end(lines, i) <= lines.len(),
    decreases lines.len() - i,
{
    if i < lines.len() && lines[i].len() > 0 && lines[i][0] == '+' {
        lemma_added_end(lines, i + 1);
    }
}

pub proof fn lemma_chunks_from(
    lines: Seq<Seq<char>>,
    line_number: int,
    i: int,
    chunks: Seq<ChunkModel>,
)
    requires
        0 <= i <= lines.len(),
    ensures
        chunks_from(lines, line_number, i, chunks) matches Ok((_, end)) ==> i <= end <= lines.len(),
    decreases lines.len() - i,
{
    if i < lines.len() {
        if is_blank_text(lines[i]) {
            lemma_chunks_from(lines, line_number, i + 1, chunks);
        } else if !has_prefix(lines[i], "***"@) {
            lemma_parse_chunk(lines.skip(i), line_number + i, chunks.len() == 0);
            match parse_chunk(lines.skip(i), line_number + i, chunks.len() == 0) {
                Ok((chunk, n)) => {
                    lemma_chunks_from(lines, line_number, i + n, chunks.push(chunk));
                },
                Err(_) => {},
            }
        }
    }
}

/// A hunk takes up at least one line, and lines of the patch alone.
pub proof fn lemma_parse_hunk(lines: Seq<Seq<char>>, line_number: int)
    requires
        lines.len() > 0,
    ensures
        parse_hunk(lines, line_number) matches Ok((_, n)) ==> 0 < n <= lines.len(),
{
    lemma_added_end(lines, 1);
    lemma_chunks_from(lines, line_number, 1, Seq::empty());
    if lines.len() > 1 {
        lemma_chunks_from(lines, line_number, 2, Seq::empty());
    }
}

/// The outcome of parsing a hunk.
pub open spec fn hunk_outcome(r: Result<(Hunk, usize), ParseError>) -> Result<
    (HunkModel, int),
    ParseErrorModel,
> {
    match r {
        Ok((hunk, n)) => Ok((hunk@, n as int)),
        Err(e) => Err(e@),
    }
}

fn read_added(lines: &[Vec<char>]) -> (r: (String, usize))
    requires
        lines@.len() > 0,
    ensures
        r.1 == added_end(texts(lines@), 1),
        r.0@ == ended(without_firsts(texts(lines@).subrange(1, r.1 as int))),
{
    let mut out: Vec<char> = Vec::new();
    let mut i: usize = 1;
    let ghost all = texts(lines@);
    assert(without_firsts(all.subrange(1, 1)) =~= Seq::<Seq<char>>::empty());
    while i < lines.len() && lines[i].len() > 0 && lines[i][0] == '+'
        invariant
            1 <= i <= lines@.len(),
            all == texts(lines@),
            added_end(all, 1) == added_end(all, i as int),
            out@ == ended(without_firsts(all.subrange(1, i as int))),
        decreases lines@.len() - i,
    {
        let line: &[char] = lines[i].as_slice();
        let rest: Vec<char> = text_after(line);
        push_line(&mut out, rest.as_slice());
        proof {
            let done = without_firsts(all.subrange(1, i as int));
            lemma_ended_push(done, rest@);
            crate::lines::lemma_ended_one(rest@);
            assert(done.push(rest@) =~= without_firsts(all.subrange(1, i + 1)));
            assert(out@ =~= ended(done.push(rest@)));
        }
        i += 1;
    }
    (string_of(out.as_slice()), i)
}

fn read_chunks(lines: &[Vec<char>], line_number: usize, start: usize) -> (r: Result<
    (Vec<UpdateFileChunk>, usize),
    ParseError,
>)
    requires
        start <= lines@.len(),
        line_number + lines@.len() <= usize::MAX,
    ensures
        match r {
            Ok((chunks, end)) => chunks_from(
                texts(lines@),
                line_number as int,
                start as int,
                Seq::empty(),
            ) == Ok::<(Seq<ChunkModel>, int), ParseErrorModel>(
                (chunk_models(chunks@), end as int),
            ),
            Err(e) => chunks_from(texts(lines@), line_number as int, start as int, Seq::empty())
                == Err::<(Seq<ChunkModel>, int), ParseErrorModel>(e@),
        },
{
    let mut chunks: Vec<UpdateFileChunk> = Vec::new();
    let mut i: usize = start;
    let ghost all = texts(lines@);
    let ghost whole = chunks_from(all, line_number as int, start as int, Seq::empty());
    assert(chunk_models(chunks@) =~= Seq::<ChunkModel>::empty());
    while i < lines.len()
        invariant
            i <= lines@.len(),
            all == texts(lines@),
            line_number + lines@.len() <= usize::MAX,
            chunks_from(all, line_number as int, i as int, chunk_models(chunks@)) == whole,
            whole == chunks_from(
                texts(lines@),
                line_number as int,
                start as int,
                Seq::empty(),
            ),
        decreases lines@.len() - i,
    {
        let line: &[char] = lines[i].as_slice();
        assert(line@ == all[i as int]);
        if is_blank(line) {
            i += 1;
        } else if starts_with(line, "***") {
            return Ok((chunks, i));
        } else {
            let rest: &[Vec<char>] = slice_subrange(lines, i, lines.len());
            assert(texts(rest@) =~= all.skip(i as int));
            proof {
                lemma_parse_chunk(all.skip(i as int), line_number + i, chunks@.len() == 0);
            }
            match parse_update_file_chunk(rest, line_number + i, chunks.len() == 0) {
                Ok((chunk, n)) => {
                    let ghost before = chunks@;
                    chunks.push(chunk);
                    assert(chunk_models(chunks@) =~= chunk_models(before).push(chunk@));
                    i += n;
                },
                Err(e) => {
                    return Err(e);
                },
            }
        }
    }
    Ok((chunks, i))
}

/// Parses the hunk at the start of `lines`.
pub fn parse_one_hunk(lines: &[Vec<char>], line_number: usize) -> (r: Result<
    (Hunk, usize),
    ParseError,
>)
    requires
        lines@.len() > 0,
        line_number + lines@.len() <= usize::MAX,
    ensures
        hunk_outcome(r) == parse_hunk(texts(lines@), line_number as int),
{
    let ghost all = texts(lines@);
    assert(all[0] == lines@[0]@);
    let first: &[char] = trim(lines[0].as_slice());
    match strip_prefix(first, ADD_FILE_MARKER) {
        Some(path) => {
            let (contents, end) = read_added(lines);
            return Ok((Hunk::AddFile { path: string_of(path), contents }, end));
        },
        None => {},
    }
    match strip_prefix(first, DELETE_FILE_MARKER) {
        Some(path) => {
            return Ok((Hunk::DeleteFile { path: string_of(path) }, 1));
        },
        None => {},
    }
    match strip_prefix(first, UPDATE_FILE_MARKER) {
        Some(path) => {
            let mut start: usize = 1;
            let mut move_path: Option<String> = None;
            if lines.len() > 1 {
                assert(all[1] == lines@[1]@);
                match strip_prefix(lines[1].as_slice(), MOVE_TO_MARKER) {
                    Some(target) => {
                        move_path = Some(string_of(target));
                        start = 2;
                    },
                    None => {},
                }
            }
            match read_chunks(lines, line_number, start) {
                Ok((chunks, end)) => {
                    return Ok(
                        (Hunk::UpdateFile { path: string_of(path), move_path, chunks }, end),
                    );
                },
                Err(e) => {
                    return Err(e);
                },
            }
        },
        None => {},
    }
    Err(
        hunk_failure(
            concat3(
                "'",
                first,
                "' is not a valid hunk header. Valid hunk headers: '*** Add File: {path}', '*** Delete File: {path}', '*** Update File: {path}'",
            ),
            line_number,
        ),
    )
}

// ---------------------------------------------------------------------------
// Patches
// ---------------------------------------------------------------------------
/// The hunks between the first and the last line, from line `i` on and behind
/// `hunks`.
pub open spec fn hunks_from(lines: Seq<Seq<char>>, i: int, hunks: Seq<HunkModel>) -> Result<
    Seq<HunkModel>,
    ParseErrorModel,
>
    decreases lines.len() - i,
{
    if i < 0 || i >= lines.len() - 1 {
        Ok(hunks)
    } else {
        let rest = lines.subrange(i, lines.len() - 1);
        proof {
            lemma_parse_hunk(rest, i + 1);
        }
        match parse_hunk(rest, i + 1) {
            Ok((hunk, n)) => hunks_from(lines, i + n, hunks.push(hunk)),
            Err(e) => Err(e),
        }
    }
}

/// The patch that the lines hold, the marker lines included.
pub open spec fn parse_lines(lines: Seq<Seq<char>>) -> Result<PatchModel, ParseErrorModel> {
    match hunks_from(lines, 1, Seq::empty()) {
        Ok(hunks) => Ok(PatchModel { patch: joined(lines), hunks, workdir: None }),
        Err(e) => Err(e),
    }
}

/// Parses the lines of a patch, the marker lines included.
pub fn parse_lines_into_hunks(lines: &[Vec<char>]) -> (r: Result<ApplyPatchArgs, ParseError>)
    requires
        lines@.len() >= 2,
    ensures
        parse_outcome(r) == parse_lines(texts(lines@)),
{
    let mut hunks: Vec<Hunk> = Vec::new();
    let ghost all = texts(lines@);
    let total: usize = lines.len();
    let last: usize = total - 1;
    let mut i: usize = 1;
    assert(hunk_models(hunks@) =~= Seq::<HunkModel>::empty());
    while i < last
        invariant
            1 <= i <= last,
            last == lines@.len() - 1,
            last < usize::MAX,
            all == texts(lines@),
            hunks_from(all, i as int, hunk_models(hunks@)) == hunks_from(all, 1, Seq::empty()),
        decreases last - i,
    {
        let rest: &[Vec<char>] = slice_subrange(lines, i, last);
        assert(texts(rest@) =~= all.subrange(i as int, all.len() - 1));
        proof {
            lemma_parse_hunk(texts(rest@), i + 1);
        }
        match parse_one_hunk(rest, i + 1) {
            Ok((hunk, n)) => {
                let ghost before = hunks@;
                hunks.push(hunk);
                assert(hunk_models(hunks@) =~= hunk_models(before).push(hunk@));
                i += n;
            },
            Err(e) => {
                return Err(e);
            },
        }
    }
    Ok(ApplyPatchArgs { patch: string_of(join_lines(lines).as_slice()), hunks, workdir: None })
}

pub open spec fn first_line_error() -> ParseErrorModel {
    ParseErrorModel::InvalidPatch("The first line of the patch must be '*** Begin Patch'"@)
}

pub open spec fn last_line_error() -> ParseErrorModel {
    ParseErrorModel::InvalidPatch("The last line of the patch must be '*** End Patch'"@)
}

/// Whether the first and the last line are the markers of a patch.
pub open spec fn boundaries(lines: Seq<Seq<char>>) -> Result<(), ParseErrorModel> {
    if lines.len() == 0 {
        Err(last_line_error())
    } else if trimmed(lines[0]) != BEGIN_PATCH_MARKER@ {
        Err(first_line_error())
    } else if trimmed(lines.last()) != END_PATCH_MARKER@ {
        Err(last_line_error())
    } else {
        Ok(())
    }
}

/// The lines stand between those of a here document.
pub open spec fn is_heredoc(lines: Seq<Seq<char>>) -> bool {
    &&& lines.len() >= 4
    &&& lines[0] == "<<EOF"@ || lines[0] == "<<'EOF'"@ || lines[0] == "<<\"EOF\""@
    &&& has_suffix(lines.last(), "EOF"@)
}

/// The first line at or after `i` that is not blank.
pub open spec fn solid_from(lines: Seq<Seq<char>>, i: int) -> int
    decreases lines.len() - i,
{
    if 0 <= i < lines.len() && is_blank_text(lines[i]) {
        solid_from(lines, i + 1)
    } else {
        i
    }
}

/// The end of the first `n` lines without the blank ones at their end.
pub open spec fn solid_to(lines: Seq<Seq<char>>, n: int) -> int
    decreases n,
{
    if 0 < n <= lines.len() && is_blank_text(lines[n - 1]) {
        solid_to(lines, n - 1)
    } else {
        n
    }
}

/// The lines of a text without the white space at its ends.
pub open spec fn trimmed_lines(lines: Seq<Seq<char>>) -> Seq<Seq<char>> {
    let from = solid_from(lines, 0);
    let to = solid_to(lines, lines.len() as int);
    if from >= to {
        Seq::empty()
    } else {
        let headed = lines.subrange(from, to).update(0, trimmed_start(lines[from]));
        headed.update(headed.len() - 1, trimmed_end(headed.last()))
    }
}

/// The lines of the patch inside a here document; `e` is the error if there is none.
pub open spec fn lenient_lines(lines: Seq<Seq<char>>, e: ParseErrorModel) -> Result<
    Seq<Seq<char>>,
    ParseErrorModel,
> {
    if is_heredoc(lines) {
        let inner = trimmed_lines(lines.subrange(1, lines.len() - 1));
        match boundaries(inner) {
            Ok(()) => Ok(inner),
            Err(inner_e) => Err(inner_e),
        }
    } else {
        Err(e)
    }
}

/// The lines of the patch that a text holds.
pub open spec fn patch_lines(lines: Seq<Seq<char>>, mode: ParseMode) -> Result<
    Seq<Seq<char>>,
    ParseErrorModel,
> {
    match boundaries(lines) {
        Ok(()) => Ok(lines),
        Err(e) => match mode {
            ParseMode::Strict => Err(e),
            ParseMode::Lenient => lenient_lines(lines, e),
        },
    }
}

/// The number of characters without the line feeds at the end.
pub open spec fn before_feeds(s: Seq<char>, n: int) -> int
    decreases n,
{
    if n > 0 && s[n - 1] == '\n' {
        before_feeds(s, n - 1)
    } else {
        n
    }
}

/// A text of one line with escaped line feeds gets real ones.
pub open spec fn normalized(patch: Seq<char>) -> Seq<char> {
    let body = patch.take(before_feeds(patch, patch.len() as int));
    if !body.contains('\n') && (contains_text(body, "\\r\\n"@) || contains_text(body, "\\n"@)) {
        replaced(replaced(body, "\\r\\n"@, '\n'), "\\n"@, '\n')
    } else {
        patch
    }
}

/// The patch that the lines hold in a mode.
pub open spec fn parse_in_mode(lines: Seq<Seq<char>>, mode: ParseMode) -> Result<
    PatchModel,
    ParseErrorModel,
> {
    match patch_lines(lines, mode) {
        Ok(inner) => parse_lines(inner),
        Err(e) => Err(e),
    }
}

/// The patch that a text holds. In lenient mode a text that is no patch, or that
/// needs repair, is repaired first.
pub open spec fn parse_text(patch: Seq<char>, mode: ParseMode) -> Result<
    PatchModel,
    ParseErrorModel,
> {
    let text = normalized(patch);
    let outcome = parse_in_mode(line_seq(trimmed(text)), mode);
    if mode == ParseMode::Strict || (outcome.is_ok() && !needs_repair(text)) {
        outcome
    } else {
        parse_in_mode(line_seq(trimmed(repaired_patch(text))), mode)
    }
}

pub proof fn lemma_boundaries(lines: Seq<Seq<char>>)
    ensures
        boundaries(lines) is Ok ==> lines.len() >= 2,
{
    reveal_strlit("*** Begin Patch");
    reveal_strlit("*** End Patch");
    assert(BEGIN_PATCH_MARKER@.len() != END_PATCH_MARKER@.len());
}

fn patch_failure(message: &str) -> (r: ParseError)
    ensures
        r@ == ParseErrorModel::InvalidPatch(message@),
{
    ParseError::InvalidPatchError(message.to_string())
}

/// Whether the first and the last line are the markers of a patch.
pub fn check_start_and_end_lines_strict(first_line: Option<&[char]>, last_line: Option<&[char]>) -> (r:
    Result<(), ParseError>)
    ensures
        match r {
            Ok(()) => first_line matches Some(first) && last_line matches Some(last) && trimmed(
                first@,
            ) == BEGIN_PATCH_MARKER@ && trimmed(last@) == END_PATCH_MARKER@,
            Err(e) => if first_line matches Some(first) && trimmed(first@) != BEGIN_PATCH_MARKER@ {
                e@ == first_line_error()
            } else {
                &&& !(first_line matches Some(first) && last_line matches Some(last) && trimmed(
                    last@,
                ) == END_PATCH_MARKER@)
                &&& e@ == last_line_error()
            },
        },
{
    match first_line {
        Some(first) => {
            if !text_is(trim(first), BEGIN_PATCH_MARKER) {
                return Err(patch_failure("The first line of the patch must be '*** Begin Patch'"));
            }
            match last_line {
                Some(last) => {
                    if text_is(trim(last), END_PATCH_MARKER) {
                        return Ok(());
                    }
                },
                None => {},
            }
        },
        None => {},
    }
    Err(patch_failure("The last line of the patch must be '*** End Patch'"))
}

/// Whether the lines are those of a patch.
pub fn check_patch_boundaries_strict(lines: &[Vec<char>]) -> (r: Result<(), ParseError>)
    ensures
        match r {
            Ok(()) => boundaries(texts(lines@)) is Ok,
            Err(e) => boundaries(texts(lines@)) == Err::<(), ParseErrorModel>(e@),
        },
{
    if lines.len() == 0 {
        check_start_and_end_lines_strict(None, None)
    } else {
        assert(texts(lines@)[0] == lines@[0]@);
        assert(texts(lines@).last() == lines@.last()@);
        check_start_and_end_lines_strict(
            Some(lines[0].as_slice()),
            Some(lines[lines.len() - 1].as_slice()),
        )
    }
}

fn trim_lines(lines: &[Vec<char>]) -> (r: Vec<Vec<char>>)
    ensures
        texts(r@) == trimmed_lines(texts(lines@)),
{
    let ghost all = texts(lines@);
    let total: usize = lines.len();
    let mut from: usize = 0;
    while from < total && is_blank(lines[from].as_slice())
        invariant
            from <= total,
            total == lines@.len(),
            all == texts(lines@),
            solid_from(all, 0) == solid_from(all, from as int),
        decreases total - from,
    {
        from += 1;
    }
    let mut to: usize = total;
    while to > 0 && is_blank(lines[to - 1].as_slice())
        invariant
            to <= total,
            total == lines@.len(),
            all == texts(lines@),
            solid_to(all, total as int) == solid_to(all, to as int),
        decreases to,
    {
        to -= 1;
    }
    if from >= to {
        let none: Vec<Vec<char>> = Vec::new();
        assert(texts(none@) =~= Seq::<Seq<char>>::empty());
        return none;
    }
    let mut out: Vec<Vec<char>> = copy_texts(slice_subrange(lines, from, to));
    assert(texts(out@) =~= all.subrange(from as int, to as int));
    let head: Vec<char> = copy_text(trim_start(lines[from].as_slice()));
    out.set(0, head);
    let ghost headed = all.subrange(from as int, to as int).update(
        0,
        trimmed_start(all[from as int]),
    );
    assert(texts(out@) =~= headed);
    let last: usize = out.len() - 1;
    let tail: Vec<char> = copy_text(trim_end(out[last].as_slice()));
    assert(headed.last() == out@[last as int]@);
    out.set(last, tail);
    assert(texts(out@) =~= headed.update(headed.len() - 1, trimmed_end(headed.last())));
    out
}

/// The lines of the patch inside a here document.
pub fn check_patch_boundaries_lenient(
    original_lines: &[Vec<char>],
    original_parse_error: ParseError,
) -> (r: Result<Vec<Vec<char>>, ParseError>)
    ensures
        match r {
            Ok(inner) => lenient_lines(texts(original_lines@), original_parse_error@) == Ok::<
                Seq<Seq<char>>,
                ParseErrorModel,
            >(texts(inner@)),
            Err(e) => lenient_lines(texts(original_lines@), original_parse_error@) == Err::<
                Seq<Seq<char>>,
                ParseErrorModel,
            >(e@),
        },
{
    let n: usize = original_lines.len();
    let ghost all = texts(original_lines@);
    if n >= 4 {
        let first: &[char] = original_lines[0].as_slice();
        let last: &[char] = original_lines[n - 1].as_slice();
        assert(first@ == all[0]);
        assert(last@ == all.last());
        if (text_is(first, "<<EOF") || text_is(first, "<<'EOF'") || text_is(first, "<<\"EOF\""))
            && ends_with(last, "EOF") {
            let body: &[Vec<char>] = slice_subrange(original_lines, 1, n - 1);
            assert(texts(body@) =~= all.subrange(1, n - 1));
            let inner: Vec<Vec<char>> = trim_lines(body);
            return match check_patch_boundaries_strict(inner.as_slice()) {
                Ok(()) => Ok(inner),
                Err(e) => Err(e),
            };
        }
    }
    Err(original_parse_error)
}

fn parse_lines_in_mode(lines: &[Vec<char>], mode: ParseMode) -> (r: Result<
    ApplyPatchArgs,
    ParseError,
>)
    ensures
        parse_outcome(r) == parse_in_mode(texts(lines@), mode),
{
    proof {
        lemma_boundaries(texts(lines@));
    }
    match check_patch_boundaries_strict(lines) {
        Ok(()) => parse_lines_into_hunks(lines),
        Err(e) => match mode {
            ParseMode::Strict => Err(e),
            ParseMode::Lenient => match check_patch_boundaries_lenient(lines, e) {
                Ok(inner) => {
                    proof {
                        lemma_boundaries(texts(inner@));
                    }
                    parse_lines_into_hunks(inner.as_slice())
                },
                Err(e) => Err(e),
            },
        },
    }
}

/// Gives a text of one line with escaped line feeds real ones.
pub fn normalize_patch_text(patch: &[char]) -> (r: Vec<char>)
    ensures
        r@ == normalized(patch@),
{
    let mut n: usize = patch.len();
    while n > 0 && patch[n - 1] == '\n'
        invariant
            n <= patch@.len(),
            before_feeds(patch@, patch@.len() as int) == before_feeds(patch@, n as int),
        decreases n,
    {
        n -= 1;
    }
    let body: &[char] = span(patch, 0, n);
    assert(body@ =~= patch@.take(n as int));
    if !has_char(body, '\n') && (contains(body, "\\r\\n") || contains(body, "\\n")) {
        proof {
            reveal_strlit("\\r\\n");
            reveal_strlit("\\n");
        }
        let half: Vec<char> = replace(body, "\\r\\n", '\n');
        return replace(half.as_slice(), "\\n", '\n');
    }
    copy_text(patch)
}

/// Parses a patch in a mode.
pub fn parse_patch_text(patch: &str, mode: ParseMode) -> (r: Result<ApplyPatchArgs, ParseError>)
    ensures
        parse_outcome(r) == parse_text(patch@, mode),
{
    let given: Vec<char> = chars_of(patch);
    let text: Vec<char> = normalize_patch_text(given.as_slice());
    let lines: Vec<Vec<char>> = split_lines(trim(text.as_slice()));
    let outcome: Result<ApplyPatchArgs, ParseError> = parse_lines_in_mode(lines.as_slice(), mode);
    let shown: String = string_of(text.as_slice());
    if mode == ParseMode::Strict || (outcome.is_ok() && !needs_proactive_repair(shown.as_str())) {
        return outcome;
    }
    let repaired: Vec<char> = chars_of(auto_repair_patch_with_mode(shown.as_str()).as_str());
    let repaired_lines: Vec<Vec<char>> = split_lines(trim(repaired.as_slice()));
    parse_lines_in_mode(repaired_lines.as_slice(), mode)
}

/// Parses a patch in lenient mode.
pub fn parse_patch(patch: &str) -> (r: Result<ApplyPatchArgs, ParseError>)
    ensures
        parse_outcome(r) == parse_text(patch@, ParseMode::Lenient),
{
    parse_patch_text(patch, ParseMode::Lenient)
}

} // verus!
