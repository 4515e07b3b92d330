//! Patches as they are written, and what they mean.
//!
//! A patch is written as a list of hunks, each a few lines of text. The laws at the
//! end say that the parser reads such a text as the hunks that it was written for.
use vstd::prelude::*;

use crate::lines::{ended, joined, line_seq};
use crate::markers::{
    ADD_FILE_MARKER, BEGIN_PATCH_MARKER, CHANGE_CONTEXT_MARKER, DELETE_FILE_MARKER,
    EMPTY_CHANGE_CONTEXT_MARKER, END_PATCH_MARKER, EOF_MARKER, MOVE_TO_MARKER, UPDATE_FILE_MARKER,
};
use crate::parse_laws::{
    law_joined_lines_split_again, lemma_joined_ends, lemma_tight_text, separable,
};
use crate::parser::{
    added_end, before_feeds, boundaries, changes_end, chunks_from, hunks_from, is_change_line,
    new_part, normalized, old_part, parse_chunk, parse_hunk, parse_lines, parse_text,
    without_firsts, ChunkModel, HunkModel, ParseErrorModel, ParseMode, PatchModel,
};
use crate::repair::needs_repair;
use crate::text::{has_prefix, is_blank_text, is_white, occurs_at, trimmed};

verus! {

// ---------------------------------------------------------------------------
// Chunks
// ---------------------------------------------------------------------------
/// A chunk as it is written: its context line if it has one, with or without a text;
/// its changes, each a sign and a line; and whether the file ends behind it.
#[verifier::ext_equal]
pub ghost struct WrittenChunk {
    pub context: Option<Option<Seq<char>>>,
    pub changes: Seq<(char, Seq<char>)>,
    pub end_of_file: bool,
}

pub open spec fn change_line(change: (char, Seq<char>)) -> Seq<char> {
    seq![change.0] + change.1
}

pub open spec fn change_lines(changes: Seq<(char, Seq<char>)>) -> Seq<Seq<char>> {
    Seq::new(changes.len(), |i: int| change_line(changes[i]))
}

pub open spec fn context_lines(chunk: WrittenChunk) -> Seq<Seq<char>> {
    match chunk.context {
        None => Seq::empty(),
        Some(None) => seq![EMPTY_CHANGE_CONTEXT_MARKER@],
        Some(Some(text)) => seq![CHANGE_CONTEXT_MARKER@ + text],
    }
}

pub open spec fn end_lines(chunk: WrittenChunk) -> Seq<Seq<char>> {
    if chunk.end_of_file {
        seq![EOF_MARKER@]
    } else {
        Seq::empty()
    }
}

/// The lines of a chunk.
pub open spec fn chunk_lines(chunk: WrittenChunk) -> Seq<Seq<char>> {
    context_lines(chunk) + change_lines(chunk.changes) + end_lines(chunk)
}

/// The lines of the changes that have another sign.
pub open spec fn lines_without(changes: Seq<(char, Seq<char>)>, sign: char) -> Seq<Seq<char>>
    decreases changes.len(),
{
    if changes.len() == 0 {
        Seq::empty()
    } else {
        let rest = lines_without(changes.drop_last(), sign);
        if changes.last().0 == sign {
            rest
        } else {
            rest.push(changes.last().1)
        }
    }
}

/// What a chunk means: the lines behind a minus are taken away, those behind a plus
/// are put in, and those behind a space stay.
pub open spec fn chunk_meaning(chunk: WrittenChunk) -> ChunkModel {
    ChunkModel {
        change_context: match chunk.context {
            None => None,
            Some(text) => text,
        },
        old_lines: lines_without(chunk.changes, '+'),
        new_lines: lines_without(chunk.changes, '-'),
        is_end_of_file: chunk.end_of_file,
    }
}

/// A chunk has changes. Only the first one of a hunk may lack a context line, and
/// then its first line is not blank.
pub open spec fn is_chunk(chunk: WrittenChunk, first: bool) -> bool {
    &&& chunk.changes.len() > 0
    &&& forall|i: int|
        0 <= i < chunk.changes.len() ==> (#[trigger] chunk.changes[i]).0 == ' '
            || chunk.changes[i].0 == '+' || chunk.changes[i].0 == '-'
    &&& chunk.context is None ==> first && !is_blank_text(change_line(chunk.changes[0]))
}

proof fn lemma_old_part(changes: Seq<(char, Seq<char>)>)
    ensures
        old_part(change_lines(changes)) == lines_without(changes, '+'),
        new_part(change_lines(changes)) == lines_without(changes, '-'),
    decreases changes.len(),
{
    let lines = change_lines(changes);
    if changes.len() > 0 {
        lemma_old_part(changes.drop_last());
        assert(lines.drop_last() =~= change_lines(changes.drop_last()));
        assert(lines.last() == change_line(changes.last()));
        assert(lines.last().skip(1) =~= changes.last().1);
    }
}

proof fn lemma_changes_end_at(lines: Seq<Seq<char>>, i: int, end: int)
    requires
        0 <= i <= end <= lines.len(),
        forall|k: int| i <= k < end ==> is_change_line(#[trigger] lines[k]),
        end < lines.len() ==> !is_change_line(lines[end]),
    ensures
        changes_end(lines, i) == end,
    decreases end - i,
{
    if i < end {
        assert(is_change_line(lines[i]));
        lemma_changes_end_at(lines, i + 1, end);
    }
}

/// A line that ends the changes of a chunk.
spec fn stops_chunk(line: Seq<char>) -> bool {
    !is_change_line(line) && line != EOF_MARKER@
}

proof fn lemma_chunk_starts(chunk: WrittenChunk, first: bool)
    requires
        is_chunk(chunk, first),
    ensures
        chunk_lines(chunk).len() > 0,
        ({
            let line = chunk_lines(chunk)[0];
            &&& line.len() > 0 && line[0] != '*'
            &&& !is_blank_text(line)
            &&& chunk.context is Some ==> stops_chunk(line)
        }),
{
    reveal_strlit("@@");
    reveal_strlit("@@ ");
    reveal_strlit("*** End of File");
    let line = chunk_lines(chunk)[0];
    match chunk.context {
        None => {
            assert(line == change_line(chunk.changes[0]));
        },
        Some(_) => {
            assert(line == context_lines(chunk)[0]);
            assert(line[0] == '@');
            lemma_solid(line);
        },
    }
}

/// A text that starts with something else than white space is not blank.
proof fn lemma_solid(line: Seq<char>)
    requires
        line.len() > 0,
        !is_white(line[0]),
    ensures
        !is_blank_text(line),
{
    crate::text::lemma_trimmed_start(line);
    assert(crate::text::trimmed_start(line) =~= line);
    crate::text::lemma_trimmed_end(line);
}

proof fn lemma_chunk_is_read(
    chunk: WrittenChunk,
    tail: Seq<Seq<char>>,
    line_number: int,
    first: bool,
)
    requires
        is_chunk(chunk, first),
        tail.len() > 0 ==> stops_chunk(tail[0]),
    ensures
        parse_chunk(chunk_lines(chunk) + tail, line_number, first) == Ok::<
            (ChunkModel, int),
            ParseErrorModel,
        >((chunk_meaning(chunk), chunk_lines(chunk).len() as int)),
{
    reveal_strlit("@@");
    reveal_strlit("@@ ");
    reveal_strlit("*** End of File");
    let lines = chunk_lines(chunk) + tail;
    let start = context_lines(chunk).len() as int;
    let end = start + chunk.changes.len();
    let body = change_lines(chunk.changes);
    assert forall|k: int| start <= k < end implies #[trigger] lines[k] == body[k - start] by {}
    assert forall|k: int| start <= k < end implies is_change_line(#[trigger] lines[k]) by {
        assert(lines[k] == change_line(chunk.changes[k - start]));
    }
    if end < lines.len() {
        if chunk.end_of_file {
            assert(lines[end] == end_lines(chunk)[0]);
        } else {
            assert(lines[end] == tail[0]);
        }
    }
    lemma_changes_end_at(lines, start, end);
    lemma_old_part(chunk.changes);
    assert(lines.subrange(start, end) =~= body);
    match chunk.context {
        None => {
            assert(lines[0] == change_line(chunk.changes[0]));
            assert(lines[0][0] != '@');
            if has_prefix(lines[0], CHANGE_CONTEXT_MARKER@) {
                assert(CHANGE_CONTEXT_MARKER@[0] == '@');
            }
        },
        Some(None) => {
            assert(lines[0] == EMPTY_CHANGE_CONTEXT_MARKER@);
        },
        Some(Some(text)) => {
            assert(lines[0] == CHANGE_CONTEXT_MARKER@ + text);
            lemma_marked(CHANGE_CONTEXT_MARKER@, text);
        },
    }
}

/// A text behind a marker starts with the marker, and the rest is the text.
proof fn lemma_marked(marker: Seq<char>, text: Seq<char>)
    ensures
        has_prefix(marker + text, marker),
        (marker + text).skip(marker.len() as int) == text,
{
    assert((marker + text).skip(marker.len() as int) =~= text);
    assert(occurs_at(marker + text, marker, 0)) by {
        assert((marker + text).subrange(0, marker.len() as int) =~= marker);
    }
}

pub open spec fn all_chunk_lines(chunks: Seq<WrittenChunk>) -> Seq<Seq<char>>
    decreases chunks.len(),
{
    if chunks.len() == 0 {
        Seq::empty()
    } else {
        chunk_lines(chunks[0]) + all_chunk_lines(chunks.skip(1))
    }
}

pub open spec fn chunk_meanings(chunks: Seq<WrittenChunk>) -> Seq<ChunkModel> {
    Seq::new(chunks.len(), |i: int| chunk_meaning(chunks[i]))
}

pub open spec fn are_chunks(chunks: Seq<WrittenChunk>, first: bool) -> bool {
    forall|i: int| 0 <= i < chunks.len() ==> is_chunk(#[trigger] chunks[i], first && i == 0)
}

// ---------------------------------------------------------------------------
// Hunks
// ---------------------------------------------------------------------------
/// A hunk as it is written.
#[verifier::ext_equal]
pub ghost enum WrittenHunk {
    Add { path: Seq<char>, lines: Seq<Seq<char>> },
    Delete { path: Seq<char> },
    Update { path: Seq<char>, move_path: Option<Seq<char>>, chunks: Seq<WrittenChunk> },
}

pub open spec fn added_lines(lines: Seq<Seq<char>>) -> Seq<Seq<char>> {
    Seq::new(lines.len(), |i: int| seq!['+'] + lines[i])
}

pub open spec fn move_lines(move_path: Option<Seq<char>>) -> Seq<Seq<char>> {
    match move_path {
        Some(dest) => seq![MOVE_TO_MARKER@ + dest],
        None => Seq::empty(),
    }
}

/// The lines of a hunk.
pub open spec fn hunk_lines(hunk: WrittenHunk) -> Seq<Seq<char>> {
    match hunk {
        WrittenHunk::Add { path, lines } => seq![ADD_FILE_MARKER@ + path] + added_lines(lines),
        WrittenHunk::Delete { path } => seq![DELETE_FILE_MARKER@ + path],
        WrittenHunk::Update { path, move_path, chunks } => seq![UPDATE_FILE_MARKER@ + path]
            + move_lines(move_path) + all_chunk_lines(chunks),
    }
}

/// What a hunk means.
pub open spec fn hunk_meaning(hunk: WrittenHunk) -> HunkModel {
    match hunk {
        WrittenHunk::Add { path, lines } => HunkModel::AddFile { path, contents: ended(lines) },
        WrittenHunk::Delete { path } => HunkModel::DeleteFile { path },
        WrittenHunk::Update { path, move_path, chunks } => HunkModel::UpdateFile {
            path,
            move_path,
            chunks: chunk_meanings(chunks),
        },
    }
}

/// A path that the parser finds again: it does not end with white space.
pub open spec fn is_path(path: Seq<char>) -> bool {
    path.len() > 0 && !is_white(path.last())
}

pub open spec fn is_hunk(hunk: WrittenHunk) -> bool {
    match hunk {
        WrittenHunk::Add { path, .. } => is_path(path),
        WrittenHunk::Delete { path } => is_path(path),
        WrittenHunk::Update { path, chunks, .. } => is_path(path) && are_chunks(chunks, true),
    }
}

/// A line that starts a hunk for a file.
spec fn is_header_for(line: Seq<char>, path: Seq<char>) -> bool {
    is_path(path) && (line == ADD_FILE_MARKER@ + path || line == DELETE_FILE_MARKER@ + path || line
        == UPDATE_FILE_MARKER@ + path)
}

/// A line that starts a hunk.
spec fn is_header(line: Seq<char>) -> bool {
    exists|path: Seq<char>| is_header_for(line, path)
}

proof fn lemma_header(line: Seq<char>)
    requires
        is_header(line),
    ensures
        stops_chunk(line),
        line.len() > 0,
        line[0] == '*',
        !is_blank_text(line),
        has_prefix(line, "***"@),
        !has_prefix(line, MOVE_TO_MARKER@),
        trimmed(line) == line,
{
    reveal_strlit("*** Move to: ");
    reveal_strlit("*** Add File: ");
    reveal_strlit("*** Delete File: ");
    reveal_strlit("*** Update File: ");
    reveal_strlit("*** End of File");
    reveal_strlit("***");
    let path = choose|path: Seq<char>| is_header_for(line, path);
    assert(line[0] == '*');
    assert(line[4] != 'E' && line[4] != 'M');
    if has_prefix(line, MOVE_TO_MARKER@) {
        assert(MOVE_TO_MARKER@[4] == line[4]);
    }
    assert(line.last() == path.last());
    lemma_tight_text(line);
    lemma_solid(line);
    assert(line.subrange(0, 3) =~= "***"@);
}

proof fn lemma_hunk_starts(hunk: WrittenHunk)
    requires
        is_hunk(hunk),
    ensures
        hunk_lines(hunk).len() > 0,
        is_header(hunk_lines(hunk)[0]),
{
    let path = match hunk {
        WrittenHunk::Add { path, .. } => path,
        WrittenHunk::Delete { path } => path,
        WrittenHunk::Update { path, .. } => path,
    };
    assert(is_header_for(hunk_lines(hunk)[0], path));
}

#[verifier::spinoff_prover]
#[verifier::rlimit(40)]
proof fn lemma_chunks_are_read(
    lines: Seq<Seq<char>>,
    line_number: int,
    i: int,
    done: Seq<ChunkModel>,
    chunks: Seq<WrittenChunk>,
    tail: Seq<Seq<char>>,
)
    requires
        0 <= i <= lines.len(),
        lines.skip(i) == all_chunk_lines(chunks) + tail,
        are_chunks(chunks, done.len() == 0),
        tail.len() > 0 ==> is_header(tail[0]),
    ensures
        chunks_from(lines, line_number, i, done) == Ok::<
            (Seq<ChunkModel>, int),
            ParseErrorModel,
        >((done + chunk_meanings(chunks), i + all_chunk_lines(chunks).len())),
    decreases chunks.len(),
{
    if chunks.len() == 0 {
        assert(lines.skip(i) =~= tail);
        if tail.len() > 0 {
            assert(lines[i] == lines.skip(i)[0]);
            lemma_header(tail[0]);
        }
        assert(done + chunk_meanings(chunks) =~= done);
    } else {
        let c = chunks[0];
        let rest = chunks.skip(1);
        let first = done.len() == 0;
        assert(is_chunk(c, first));
        let after = all_chunk_lines(rest) + tail;
        assert(lines.skip(i) =~= chunk_lines(c) + after);
        lemma_chunk_starts(c, first);
        assert(lines[i] == lines.skip(i)[0]);
        assert(lines[i] == chunk_lines(c)[0]);
        assert(!has_prefix(lines[i], "***"@)) by {
            reveal_strlit("***");
            if has_prefix(lines[i], "***"@) {
                assert("***"@[0] == lines[i][0]);
            }
        }
        let next = done.push(chunk_meaning(c));
        assert forall|k: int| 0 <= k < rest.len() implies is_chunk(
            #[trigger] rest[k],
            next.len() == 0 && k == 0,
        ) by {
            assert(rest[k] == chunks[k + 1]);
        }
        if after.len() > 0 {
            if rest.len() > 0 {
                assert(is_chunk(rest[0], false));
                lemma_chunk_starts(rest[0], false);
                assert(after[0] == chunk_lines(rest[0])[0]);
            } else {
                assert(after[0] == tail[0]);
                lemma_header(tail[0]);
            }
        }
        lemma_chunk_is_read(c, after, line_number + i, first);
        let n = chunk_lines(c).len() as int;
        assert(lines.skip(i + n) =~= after) by {
            assert forall|k: int| 0 <= k < after.len() implies lines.skip(i + n)[k] == after[k] by {
                assert(lines.skip(i)[n + k] == after[k]);
            }
        }
        lemma_chunks_are_read(lines, line_number, i + n, next, rest, tail);
        assert(next + chunk_meanings(rest) =~= done + chunk_meanings(chunks));
    }
}

proof fn lemma_added_end_at(lines: Seq<Seq<char>>, i: int, end: int)
    requires
        0 <= i <= end <= lines.len(),
        forall|k: int| i <= k < end ==> (#[trigger] lines[k]).len() > 0 && lines[k][0] == '+',
        end < lines.len() ==> lines[end].len() > 0 && lines[end][0] != '+',
    ensures
        added_end(lines, i) == end,
    decreases end - i,
{
    if i < end {
        assert(lines[i].len() > 0);
        lemma_added_end_at(lines, i + 1, end);
    }
}

proof fn lemma_hunk_is_read(hunk: WrittenHunk, tail: Seq<Seq<char>>, line_number: int)
    requires
        is_hunk(hunk),
        tail.len() > 0 ==> is_header(tail[0]),
    ensures
        parse_hunk(hunk_lines(hunk) + tail, line_number) == Ok::<
            (HunkModel, int),
            ParseErrorModel,
        >((hunk_meaning(hunk), hunk_lines(hunk).len() as int)),
{
    let lines = hunk_lines(hunk) + tail;
    lemma_hunk_starts(hunk);
    assert(lines[0] == hunk_lines(hunk)[0]);
    lemma_header(lines[0]);
    if tail.len() > 0 {
        lemma_header(tail[0]);
    }
    assert(ADD_FILE_MARKER@.len() > 5 && ADD_FILE_MARKER@[4] == 'A') by {
        reveal_strlit("*** Add File: ");
    }
    assert(DELETE_FILE_MARKER@.len() > 5 && DELETE_FILE_MARKER@[4] == 'D') by {
        reveal_strlit("*** Delete File: ");
    }
    assert(UPDATE_FILE_MARKER@.len() > 5 && UPDATE_FILE_MARKER@[4] == 'U') by {
        reveal_strlit("*** Update File: ");
    }
    if has_prefix(lines[0], ADD_FILE_MARKER@) {
        assert(lines[0][4] == 'A');
    }
    if has_prefix(lines[0], DELETE_FILE_MARKER@) {
        assert(lines[0][4] == 'D');
    }
    match hunk {
        WrittenHunk::Add { path, lines: added } => {
            lemma_marked(ADD_FILE_MARKER@, path);
            let end = 1 + added.len() as int;
            assert forall|k: int| 1 <= k < end implies (#[trigger] lines[k]).len() > 0
                && lines[k][0] == '+' by {
                assert(lines[k] == added_lines(added)[k - 1]);
            }
            if end < lines.len() {
                assert(lines[end] == tail[0]);
            }
            lemma_added_end_at(lines, 1, end);
            let body = lines.subrange(1, end);
            assert(body =~= added_lines(added));
            assert(without_firsts(body) =~= added) by {
                assert forall|k: int| 0 <= k < added.len() implies without_firsts(body)[k]
                    == added[k] by {
                    assert(body[k].skip(1) =~= added[k]);
                }
            }
        },
        WrittenHunk::Delete { path } => {
            assert(lines[0][4] == 'D');
            lemma_marked(DELETE_FILE_MARKER@, path);
        },
        WrittenHunk::Update { path, move_path, chunks } => {
            assert(lines[0] == UPDATE_FILE_MARKER@ + path);
            assert(lines[0][4] == 'U');
            lemma_marked(UPDATE_FILE_MARKER@, path);
            let start = 1 + move_lines(move_path).len() as int;
            match move_path {
                Some(dest) => {
                    assert(lines[1] == MOVE_TO_MARKER@ + dest);
                    lemma_marked(MOVE_TO_MARKER@, dest);
                },
                None => if chunks.len() > 0 {
                    assert(is_chunk(chunks[0], true));
                    lemma_chunk_starts(chunks[0], true);
                    assert(all_chunk_lines(chunks)[0] == chunk_lines(chunks[0])[0]);
                    assert(lines[1] == chunk_lines(chunks[0])[0]);
                    reveal_strlit("*** Move to: ");
                    if has_prefix(lines[1], MOVE_TO_MARKER@) {
                        assert(MOVE_TO_MARKER@[0] == lines[1][0]);
                    }
                } else if lines.len() > 1 {
                    assert(lines[1] == tail[0]);
                },
            }
            assert(lines.skip(start) =~= all_chunk_lines(chunks) + tail);
            lemma_chunks_are_read(lines, line_number, start, Seq::empty(), chunks, tail);
            assert(Seq::<ChunkModel>::empty() + chunk_meanings(chunks) =~= chunk_meanings(chunks));
        },
    }
}

// ---------------------------------------------------------------------------
// Patches
// ---------------------------------------------------------------------------
pub open spec fn all_hunk_lines(hunks: Seq<WrittenHunk>) -> Seq<Seq<char>>
    decreases hunks.len(),
{
    if hunks.len() == 0 {
        Seq::empty()
    } else {
        hunk_lines(hunks[0]) + all_hunk_lines(hunks.skip(1))
    }
}

/// The lines of a patch.
pub open spec fn written_lines(hunks: Seq<WrittenHunk>) -> Seq<Seq<char>> {
    seq![BEGIN_PATCH_MARKER@] + all_hunk_lines(hunks) + seq![END_PATCH_MARKER@]
}

/// What the hunks of a patch mean.
pub open spec fn hunk_meanings(hunks: Seq<WrittenHunk>) -> Seq<HunkModel> {
    Seq::new(hunks.len(), |i: int| hunk_meaning(hunks[i]))
}

pub open spec fn are_hunks(hunks: Seq<WrittenHunk>) -> bool {
    forall|i: int| 0 <= i < hunks.len() ==> is_hunk(#[trigger] hunks[i])
}

proof fn lemma_hunks_are_read(
    lines: Seq<Seq<char>>,
    i: int,
    done: Seq<HunkModel>,
    hunks: Seq<WrittenHunk>,
)
    requires
        1 <= i < lines.len(),
        lines.subrange(i, lines.len() - 1) == all_hunk_lines(hunks),
        are_hunks(hunks),
    ensures
        hunks_from(lines, i, done) == Ok::<Seq<HunkModel>, ParseErrorModel>(
            done + hunk_meanings(hunks),
        ),
    decreases hunks.len(),
{
    if hunks.len() == 0 {
        assert(lines.subrange(i, lines.len() - 1).len() == 0);
        assert(done + hunk_meanings(hunks) =~= done);
    } else {
        let h = hunks[0];
        let rest = hunks.skip(1);
        let after = all_hunk_lines(rest);
        assert(is_hunk(h));
        assert forall|k: int| 0 <= k < rest.len() implies is_hunk(#[trigger] rest[k]) by {
            assert(rest[k] == hunks[k + 1]);
        }
        lemma_hunk_starts(h);
        if after.len() > 0 {
            assert(is_hunk(rest[0]));
            lemma_hunk_starts(rest[0]);
            assert(after[0] == hunk_lines(rest[0])[0]);
        }
        lemma_hunk_is_read(h, after, i + 1);
        let n = hunk_lines(h).len() as int;
        let left = lines.subrange(i, lines.len() - 1);
        assert(left == hunk_lines(h) + after);
        assert(lines.subrange(i + n, lines.len() - 1) =~= after) by {
            assert forall|k: int| 0 <= k < after.len() implies lines.subrange(
                i + n,
                lines.len() - 1,
            )[k] == after[k] by {
                assert(left[n + k] == after[k]);
            }
        }
        lemma_hunks_are_read(lines, i + n, done.push(hunk_meaning(h)), rest);
        assert(done.push(hunk_meaning(h)) + hunk_meanings(rest) =~= done + hunk_meanings(hunks));
    }
}

/// The lines of a patch are read as the hunks that they were written for.
pub proof fn law_written_lines_are_read(hunks: Seq<WrittenHunk>)
    requires
        are_hunks(hunks),
    ensures
        parse_lines(written_lines(hunks)) == Ok::<PatchModel, ParseErrorModel>(
            PatchModel {
                patch: joined(written_lines(hunks)),
                hunks: hunk_meanings(hunks),
                workdir: None,
            },
        ),
{
    let lines = written_lines(hunks);
    assert(lines.subrange(1, lines.len() - 1) =~= all_hunk_lines(hunks));
    lemma_hunks_are_read(lines, 1, Seq::empty(), hunks);
    assert(Seq::<HunkModel>::empty() + hunk_meanings(hunks) =~= hunk_meanings(hunks));
}

/// The text of a patch is read as the hunks that it was written for: in strict mode
/// always, and in lenient mode where the text does not look as if it needed repair.
/// (No line of it may hold a line feed or end with a carriage return.)
pub proof fn law_written_patch_is_read(hunks: Seq<WrittenHunk>)
    requires
        are_hunks(hunks),
        separable(written_lines(hunks)),
    ensures
        ({
            let text = joined(written_lines(hunks));
            let patch = PatchModel { patch: text, hunks: hunk_meanings(hunks), workdir: None };
            &&& parse_text(text, ParseMode::Strict) == Ok::<PatchModel, ParseErrorModel>(patch)
            &&& !needs_repair(text) ==> parse_text(text, ParseMode::Lenient) == Ok::<
                PatchModel,
                ParseErrorModel,
            >(patch)
        }),
{
    reveal_strlit("*** Begin Patch");
    reveal_strlit("*** End Patch");
    let lines = written_lines(hunks);
    let text = joined(lines);
    assert(lines[0] == BEGIN_PATCH_MARKER@);
    assert(lines.last() == END_PATCH_MARKER@);
    law_joined_lines_split_again(lines);
    lemma_joined_ends(lines);
    lemma_tight_text(text);
    lemma_tight_text(BEGIN_PATCH_MARKER@);
    lemma_tight_text(END_PATCH_MARKER@);
    assert(before_feeds(text, text.len() as int) == text.len());
    assert(text.take(text.len() as int) =~= text);
    assert(normalized(text) == text);
    assert(line_seq(trimmed(text)) == lines);
    assert(boundaries(lines) is Ok);
    law_written_lines_are_read(hunks);
}

} // verus!
