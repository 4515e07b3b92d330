//! Nothing in a patch is passed over: each line of a patch that is accepted is found again
//! in one of its hunks.
use vstd::prelude::*;

use crate::grammar::{
    are_hunks, hunk_meanings, law_written_lines_are_read, written_lines, WrittenHunk,
};
use crate::lines::{ended, joined, lemma_ended_push, line_seq, without_cr};
use crate::markers::{
    ADD_FILE_MARKER, BEGIN_PATCH_MARKER, CHANGE_CONTEXT_MARKER, DELETE_FILE_MARKER,
    EMPTY_CHANGE_CONTEXT_MARKER, END_PATCH_MARKER, MOVE_TO_MARKER, UPDATE_FILE_MARKER,
};
use crate::parse_laws::{law_heredoc_is_stripped, lemma_tight_text};
use crate::parser::{
    added_end, before_feeds, boundaries, changes_end, chunk_context, chunks_from, hunks_from,
    lemma_added_end, lemma_boundaries, lemma_changes_end, lemma_parse_chunk, lemma_parse_hunk,
    move_target, new_part, normalized, old_part, parse_chunk, parse_hunk, parse_in_mode,
    parse_lines, parse_text, solid_from, solid_to, trimmed_lines, without_firsts, ChunkModel,
    HunkModel, ParseErrorModel, ParseMode, PatchModel,
};
use crate::patch_lines::{end_line_from, truncated};
use crate::repair_laws::lemma_lines_of_ended;
use crate::text::{
    contains_text, has_prefix, is_blank_text, lemma_blank, lemma_trimmed_end, occurs_at,
    replaced_from, skip_white, trimmed, trimmed_start,
};

verus! {

// ---------------------------------------------------------------------------
// What a hunk holds of a line
// ---------------------------------------------------------------------------
/// The line is one of those that the chunk was read from.
pub open spec fn chunk_holds(chunk: ChunkModel, line: Seq<char>) -> bool {
    ||| line == "@@"@
    ||| chunk.change_context matches Some(text) && line == "@@ "@ + text
    ||| chunk.is_end_of_file && line == "*** End of File"@
    ||| line.len() > 0 && line[0] == '+' && chunk.new_lines.contains(line.skip(1))
    ||| line.len() > 0 && line[0] == '-' && chunk.old_lines.contains(line.skip(1))
    ||| line.len() > 0 && line[0] == ' ' && chunk.old_lines.contains(line.skip(1))
        && chunk.new_lines.contains(line.skip(1))
}

/// The line is one of those that the hunk was read from.
pub open spec fn hunk_holds(hunk: HunkModel, line: Seq<char>) -> bool {
    match hunk {
        HunkModel::AddFile { path, contents } => {
            ||| trimmed(line) == "*** Add File: "@ + path
            ||| line.len() > 0 && line[0] == '+' && contains_text(contents, line.skip(1).push('\n'))
        },
        HunkModel::DeleteFile { path } => trimmed(line) == "*** Delete File: "@ + path,
        HunkModel::UpdateFile { path, move_path, chunks } => {
            ||| trimmed(line) == "*** Update File: "@ + path
            ||| move_path matches Some(dest) && line == "*** Move to: "@ + dest
            ||| exists|k: int| 0 <= k < chunks.len() && chunk_holds(#[trigger] chunks[k], line)
        },
    }
}

/// The line is blank, or one that a hunk was read from.
pub open spec fn is_accounted_for(hunks: Seq<HunkModel>, line: Seq<char>) -> bool {
    is_blank_text(line) || exists|k: int|
        0 <= k < hunks.len() && hunk_holds(#[trigger] hunks[k], line)
}

proof fn lemma_prefixed(line: Seq<char>, marker: Seq<char>)
    requires
        has_prefix(line, marker),
    ensures
        line == marker + line.skip(marker.len() as int),
{
    assert(line.subrange(0, marker.len() as int) =~= marker);
    assert(line =~= marker + line.skip(marker.len() as int));
}

// ---------------------------------------------------------------------------
// Chunks
// ---------------------------------------------------------------------------
proof fn lemma_old_part(lines: Seq<Seq<char>>, k: int)
    requires
        0 <= k < lines.len(),
        lines[k].len() > 0,
        lines[k][0] == '-' || lines[k][0] == ' ',
    ensures
        old_part(lines).contains(lines[k].skip(1)),
    decreases lines.len(),
{
    let front = lines.drop_last();
    let all = old_part(lines);
    if k == lines.len() - 1 {
        assert(all.last() == lines[k].skip(1));
    } else {
        assert(front[k] == lines[k]);
        lemma_old_part(front, k);
        let i = choose|i: int|
            0 <= i < old_part(front).len() && old_part(front)[i] == lines[k].skip(1);
        assert(all[i] == old_part(front)[i]);
    }
}

proof fn lemma_new_part(lines: Seq<Seq<char>>, k: int)
    requires
        0 <= k < lines.len(),
        lines[k].len() > 0,
        lines[k][0] == '+' || lines[k][0] == ' ',
    ensures
        new_part(lines).contains(lines[k].skip(1)),
    decreases lines.len(),
{
    let front = lines.drop_last();
    let all = new_part(lines);
    if k == lines.len() - 1 {
        assert(all.last() == lines[k].skip(1));
    } else {
        assert(front[k] == lines[k]);
        lemma_new_part(front, k);
        let i = choose|i: int|
            0 <= i < new_part(front).len() && new_part(front)[i] == lines[k].skip(1);
        assert(all[i] == new_part(front)[i]);
    }
}

proof fn lemma_change_lines(lines: Seq<Seq<char>>, i: int, k: int)
    requires
        0 <= i <= k < changes_end(lines, i),
    ensures
        lines[k].len() == 0 || lines[k][0] == '+' || lines[k][0] == '-' || lines[k][0] == ' ',
    decreases lines.len() - i,
{
    if i < k {
        lemma_change_lines(lines, i + 1, k);
    }
}

proof fn lemma_chunk_account(lines: Seq<Seq<char>>, number: int, first: bool, k: int)
    requires
        parse_chunk(lines, number, first) matches Ok((_, n)) && 0 <= k < n,
    ensures
        ({
            let (chunk, n) = parse_chunk(lines, number, first)->Ok_0;
            is_blank_text(lines[k]) || chunk_holds(chunk, lines[k])
        }),
{
    let (chunk, n) = parse_chunk(lines, number, first)->Ok_0;
    let context = chunk_context(lines[0]);
    let start: int = match context {
        Some((_, start)) => start,
        None => 0,
    };
    reveal_strlit("@@");
    reveal_strlit("@@ ");
    reveal_strlit("*** End of File");
    if k < start {
        assert(k == 0);
        if lines[0] != EMPTY_CHANGE_CONTEXT_MARKER@ {
            lemma_prefixed(lines[0], CHANGE_CONTEXT_MARKER@);
        }
    } else {
        let end = changes_end(lines, start);
        lemma_changes_end(lines, start);
        if k < end {
            lemma_change_lines(lines, start, k);
            let body = lines.subrange(start, end);
            let line = lines[k];
            assert(body[k - start] == line);
            if line.len() == 0 {
                lemma_blank(line);
            } else {
                if line[0] != '+' {
                    lemma_old_part(body, k - start);
                }
                if line[0] != '-' {
                    lemma_new_part(body, k - start);
                }
            }
        }
    }
}

spec fn some_chunk_holds(chunks: Seq<ChunkModel>, line: Seq<char>) -> bool {
    is_blank_text(line) || exists|k: int|
        0 <= k < chunks.len() && chunk_holds(#[trigger] chunks[k], line)
}

/// What follows only puts chunks behind those that were read.
proof fn lemma_chunks_stay(lines: Seq<Seq<char>>, number: int, i: int, chunks: Seq<ChunkModel>)
    requires
        0 <= i <= lines.len(),
        chunks_from(lines, number, i, chunks) is Ok,
    ensures
        ({
            let all = chunks_from(lines, number, i, chunks)->Ok_0.0;
            all.len() >= chunks.len() && all.take(chunks.len() as int) == chunks
        }),
    decreases lines.len() - i,
{
    let all = chunks_from(lines, number, i, chunks)->Ok_0.0;
    if i >= lines.len() || (!is_blank_text(lines[i]) && has_prefix(lines[i], "***"@)) {
        assert(all.take(chunks.len() as int) =~= chunks);
    } else if is_blank_text(lines[i]) {
        lemma_chunks_stay(lines, number, i + 1, chunks);
    } else {
        lemma_parse_chunk(lines.skip(i), number + i, chunks.len() == 0);
        let (chunk, n) = parse_chunk(lines.skip(i), number + i, chunks.len() == 0)->Ok_0;
        lemma_chunks_stay(lines, number, i + n, chunks.push(chunk));
        assert forall|k: int| 0 <= k < chunks.len() implies all[k] == chunks[k] by {
            assert(all.take(chunks.len() as int + 1)[k] == chunks.push(chunk)[k]);
        }
        assert(all.take(chunks.len() as int) =~= chunks);
    }
}

proof fn lemma_chunks_account(
    lines: Seq<Seq<char>>,
    number: int,
    i: int,
    chunks: Seq<ChunkModel>,
    k: int,
)
    requires
        0 <= i <= lines.len(),
        chunks_from(lines, number, i, chunks) matches Ok((_, end)) && i <= k < end,
    ensures
        some_chunk_holds(chunks_from(lines, number, i, chunks)->Ok_0.0, lines[k]),
    decreases lines.len() - i,
{
    let all = chunks_from(lines, number, i, chunks)->Ok_0.0;
    if i >= lines.len() || (!is_blank_text(lines[i]) && has_prefix(lines[i], "***"@)) {
    } else if is_blank_text(lines[i]) {
        if k > i {
            lemma_chunks_account(lines, number, i + 1, chunks, k);
        }
    } else {
        let rest = lines.skip(i);
        lemma_parse_chunk(rest, number + i, chunks.len() == 0);
        let (chunk, n) = parse_chunk(rest, number + i, chunks.len() == 0)->Ok_0;
        if k < i + n {
            lemma_chunk_account(rest, number + i, chunks.len() == 0, k - i);
            assert(rest[k - i] == lines[k]);
            lemma_chunks_stay(lines, number, i + n, chunks.push(chunk));
            let m = chunks.len() as int;
            assert(all.take(m + 1)[m] == chunks.push(chunk)[m]);
            assert(all[m] == chunk);
        } else {
            lemma_chunks_account(lines, number, i + n, chunks.push(chunk), k);
        }
    }
}

// ---------------------------------------------------------------------------
// Hunks
// ---------------------------------------------------------------------------
proof fn lemma_added_lines(lines: Seq<Seq<char>>, i: int, k: int)
    requires
        0 <= i <= k < added_end(lines, i),
    ensures
        lines[k].len() > 0 && lines[k][0] == '+',
    decreases lines.len() - i,
{
    if i < k {
        lemma_added_lines(lines, i + 1, k);
    }
}

proof fn lemma_line_of_ended(lines: Seq<Seq<char>>, k: int)
    requires
        0 <= k < lines.len(),
    ensures
        contains_text(ended(lines), lines[k].push('\n')),
    decreases lines.len(),
{
    let front = lines.drop_last();
    let all = ended(lines);
    let p = lines[k].push('\n');
    assert(lines =~= front.push(lines.last()));
    lemma_ended_push(front, lines.last());
    if k == lines.len() - 1 {
        let i = ended(front).len() as int;
        assert(all.subrange(i, i + p.len()) =~= p);
        assert(occurs_at(all, p, i));
    } else {
        assert(front[k] == lines[k]);
        lemma_line_of_ended(front, k);
        let i = choose|i: int| #[trigger] occurs_at(ended(front), p, i);
        assert(all.subrange(i, i + p.len()) =~= ended(front).subrange(i, i + p.len()));
        assert(occurs_at(all, p, i));
    }
}

proof fn lemma_hunk_account(lines: Seq<Seq<char>>, number: int, k: int)
    requires
        lines.len() > 0,
        parse_hunk(lines, number) matches Ok((_, n)) && 0 <= k < n,
    ensures
        ({
            let (hunk, n) = parse_hunk(lines, number)->Ok_0;
            is_blank_text(lines[k]) || hunk_holds(hunk, lines[k])
        }),
{
    let (hunk, n) = parse_hunk(lines, number)->Ok_0;
    let first = trimmed(lines[0]);
    lemma_parse_hunk(lines, number);
    if has_prefix(first, ADD_FILE_MARKER@) {
        let end = added_end(lines, 1);
        lemma_added_end(lines, 1);
        if k == 0 {
            lemma_prefixed(first, ADD_FILE_MARKER@);
        } else {
            lemma_added_lines(lines, 1, k);
            let texts = without_firsts(lines.subrange(1, end));
            assert(texts[k - 1] == lines[k].skip(1));
            lemma_line_of_ended(texts, k - 1);
            assert(hunk_holds(hunk, lines[k]));
        }
    } else if has_prefix(first, DELETE_FILE_MARKER@) {
        lemma_prefixed(first, DELETE_FILE_MARKER@);
    } else {
        let moved = move_target(lines) is Some;
        let start: int = if moved {
            2
        } else {
            1
        };
        if k == 0 {
            lemma_prefixed(first, UPDATE_FILE_MARKER@);
        } else if k < start {
            lemma_prefixed(lines[1], MOVE_TO_MARKER@);
            assert(hunk_holds(hunk, lines[k]));
        } else {
            lemma_chunks_account(lines, number, start, Seq::empty(), k);
            let chunks = chunks_from(lines, number, start, Seq::empty())->Ok_0.0;
            assert(hunk->UpdateFile_chunks == chunks);
            assert(is_blank_text(lines[k]) || hunk_holds(hunk, lines[k]));
        }
    }
}

proof fn lemma_hunks_stay(lines: Seq<Seq<char>>, i: int, hunks: Seq<HunkModel>)
    requires
        1 <= i,
        hunks_from(lines, i, hunks) is Ok,
    ensures
        ({
            let all = hunks_from(lines, i, hunks)->Ok_0;
            all.len() >= hunks.len() && all.take(hunks.len() as int) == hunks
        }),
    decreases lines.len() - i,
{
    let all = hunks_from(lines, i, hunks)->Ok_0;
    if i >= lines.len() - 1 {
        assert(all.take(hunks.len() as int) =~= hunks);
    } else {
        let rest = lines.subrange(i, lines.len() - 1);
        lemma_parse_hunk(rest, i + 1);
        let (hunk, n) = parse_hunk(rest, i + 1)->Ok_0;
        lemma_hunks_stay(lines, i + n, hunks.push(hunk));
        assert forall|k: int| 0 <= k < hunks.len() implies all[k] == hunks[k] by {
            assert(all.take(hunks.len() as int + 1)[k] == hunks.push(hunk)[k]);
        }
        assert(all.take(hunks.len() as int) =~= hunks);
    }
}

proof fn lemma_hunks_account(lines: Seq<Seq<char>>, i: int, hunks: Seq<HunkModel>, k: int)
    requires
        1 <= i <= k < lines.len() - 1,
        hunks_from(lines, i, hunks) is Ok,
    ensures
        is_accounted_for(hunks_from(lines, i, hunks)->Ok_0, lines[k]),
    decreases lines.len() - i,
{
    let all = hunks_from(lines, i, hunks)->Ok_0;
    let rest = lines.subrange(i, lines.len() - 1);
    lemma_parse_hunk(rest, i + 1);
    let (hunk, n) = parse_hunk(rest, i + 1)->Ok_0;
    if k < i + n {
        lemma_hunk_account(rest, i + 1, k - i);
        assert(rest[k - i] == lines[k]);
        lemma_hunks_stay(lines, i + n, hunks.push(hunk));
        let m = hunks.len() as int;
        assert(all.take(m + 1)[m] == hunks.push(hunk)[m]);
        assert(all[m] == hunk);
    } else {
        lemma_hunks_account(lines, i + n, hunks.push(hunk), k);
    }
}

/// Each line of a patch that is accepted, between its first and its last one, is blank or
/// found again in one of the hunks. So a line that is none of a patch is refused, and no
/// change that a patch asks for is passed over.
pub proof fn law_no_line_is_passed_over(lines: Seq<Seq<char>>, k: int)
    requires
        parse_lines(lines) is Ok,
        0 < k < lines.len() - 1,
    ensures
        is_accounted_for(parse_lines(lines)->Ok_0.hunks, lines[k]),
{
    lemma_hunks_account(lines, 1, Seq::empty(), k);
}

/// A text that is accepted as it stands is a patch from its first line to its last one:
/// these are the markers, and each line between them is accounted for.
pub proof fn law_accepted_text_is_a_patch(patch: Seq<char>)
    requires
        parse_text(patch, ParseMode::Strict) is Ok,
    ensures
        ({
            let lines = line_seq(trimmed(normalized(patch)));
            &&& lines.len() >= 2
            &&& trimmed(lines[0]) == "*** Begin Patch"@
            &&& trimmed(lines.last()) == "*** End Patch"@
            &&& forall|k: int|
                0 < k < lines.len() - 1 ==> is_accounted_for(
                    parse_text(patch, ParseMode::Strict)->Ok_0.hunks,
                    #[trigger] lines[k],
                )
        }),
{
    let lines = line_seq(trimmed(normalized(patch)));
    lemma_boundaries(lines);
    assert forall|k: int| 0 < k < lines.len() - 1 implies is_accounted_for(
        parse_text(patch, ParseMode::Strict)->Ok_0.hunks,
        #[trigger] lines[k],
    ) by {
        law_no_line_is_passed_over(lines, k);
    }
}

// ---------------------------------------------------------------------------
// Escaped line feeds
// ---------------------------------------------------------------------------
/// The text from position `i` on with each line feed written as a backslash and the letter
/// n, behind a backslash and the letter r where `with_return` says so.
pub open spec fn escaped(s: Seq<char>, with_return: spec_fn(int) -> bool, i: int) -> Seq<char>
    decreases s.len() - i,
{
    if i < 0 || i >= s.len() {
        Seq::empty()
    } else if s[i] != '\n' {
        seq![s[i]] + escaped(s, with_return, i + 1)
    } else if with_return(i) {
        seq!['\\', 'r', '\\', 'n'] + escaped(s, with_return, i + 1)
    } else {
        seq!['\\', 'n'] + escaped(s, with_return, i + 1)
    }
}

/// The same, with a line feed itself where `with_return` says so.
spec fn half_escaped(s: Seq<char>, with_return: spec_fn(int) -> bool, i: int) -> Seq<char>
    decreases s.len() - i,
{
    if i < 0 || i >= s.len() {
        Seq::empty()
    } else if s[i] != '\n' || with_return(i) {
        seq![s[i]] + half_escaped(s, with_return, i + 1)
    } else {
        seq!['\\', 'n'] + half_escaped(s, with_return, i + 1)
    }
}

proof fn lemma_no_place(s: Seq<char>, p: Seq<char>, i: int, k: int)
    requires
        0 <= k < p.len(),
        0 <= i,
        i + k < s.len(),
        s[i + k] != p[k],
    ensures
        !occurs_at(s, p, i),
{
    if occurs_at(s, p, i) {
        assert(s.subrange(i, i + p.len())[k] == s[i + k]);
    }
}

proof fn lemma_returns_replaced(
    front: Seq<char>,
    s: Seq<char>,
    with_return: spec_fn(int) -> bool,
    i: int,
)
    requires
        0 <= i <= s.len(),
        !s.contains('\\'),
    ensures
        replaced_from(
            front + escaped(s, with_return, i),
            "\\r\\n"@,
            '\n',
            front.len() as int,
        ) == half_escaped(s, with_return, i),
    decreases s.len() - i,
{
    reveal_strlit("\\r\\n");
    let p = "\\r\\n"@;
    let n = front.len() as int;
    let all = front + escaped(s, with_return, i);
    if i < s.len() {
        let rest = escaped(s, with_return, i + 1);
        assert(s.contains(s[i]));
        if s[i] != '\n' {
            assert(all =~= front.push(s[i]) + rest);
            lemma_no_place(all, p, n, 0);
            lemma_returns_replaced(front.push(s[i]), s, with_return, i + 1);
        } else if with_return(i) {
            let sign = seq!['\\', 'r', '\\', 'n'];
            assert(all =~= front + sign + rest);
            assert(all.subrange(n, n + 4) =~= p);
            assert(occurs_at(all, p, n));
            lemma_returns_replaced(front + sign, s, with_return, i + 1);
        } else {
            let sign = seq!['\\', 'n'];
            assert(all =~= front + sign + rest);
            assert(all[n] == '\\' && all[n + 1] == 'n');
            lemma_no_place(all, p, n, 1);
            lemma_no_place(all, p, n + 1, 0);
            lemma_returns_replaced(front + sign, s, with_return, i + 1);
            let end = half_escaped(s, with_return, i + 1);
            assert(replaced_from(all, p, '\n', n + 1) == seq!['n'] + end);
            assert(seq!['\\'] + (seq!['n'] + end) =~= sign + end);
        }
    }
}

proof fn lemma_feeds_replaced(
    front: Seq<char>,
    s: Seq<char>,
    with_return: spec_fn(int) -> bool,
    i: int,
)
    requires
        0 <= i <= s.len(),
        !s.contains('\\'),
    ensures
        replaced_from(
            front + half_escaped(s, with_return, i),
            "\\n"@,
            '\n',
            front.len() as int,
        ) == s.skip(i),
    decreases s.len() - i,
{
    reveal_strlit("\\n");
    let p = "\\n"@;
    let n = front.len() as int;
    let all = front + half_escaped(s, with_return, i);
    if i < s.len() {
        let rest = half_escaped(s, with_return, i + 1);
        assert(s.contains(s[i]));
        assert(s.skip(i) =~= seq![s[i]] + s.skip(i + 1));
        if s[i] != '\n' || with_return(i) {
            assert(all =~= front.push(s[i]) + rest);
            lemma_no_place(all, p, n, 0);
            lemma_feeds_replaced(front.push(s[i]), s, with_return, i + 1);
        } else {
            let sign = seq!['\\', 'n'];
            assert(all =~= front + sign + rest);
            assert(all.subrange(n, n + 2) =~= p);
            assert(occurs_at(all, p, n));
            lemma_feeds_replaced(front + sign, s, with_return, i + 1);
        }
    } else {
        assert(s.skip(i) =~= Seq::empty());
    }
}

proof fn lemma_escaped(s: Seq<char>, with_return: spec_fn(int) -> bool, i: int)
    requires
        0 <= i <= s.len(),
    ensures
        !escaped(s, with_return, i).contains('\n'),
        (exists|j: int| i <= j < s.len() && s[j] == '\n') ==> contains_text(
            escaped(s, with_return, i),
            "\\n"@,
        ),
    decreases s.len() - i,
{
    reveal_strlit("\\n");
    let p = "\\n"@;
    let all = escaped(s, with_return, i);
    if i < s.len() {
        lemma_escaped(s, with_return, i + 1);
        let rest = escaped(s, with_return, i + 1);
        let n = all.len() - rest.len();
        assert(all.skip(n) =~= rest);
        assert forall|j: int| 0 <= j < all.len() implies all[j] != '\n' by {
            if j >= n {
                assert(all[j] == rest[j - n]);
                assert(rest.contains(rest[j - n]));
            }
        }
        if s[i] == '\n' {
            assert(all.subrange(n - 2, n) =~= p);
            assert(occurs_at(all, p, n - 2));
        } else if contains_text(rest, p) {
            let j = choose|j: int| #[trigger] occurs_at(rest, p, j);
            assert(all.subrange(n + j, n + j + p.len()) =~= rest.subrange(j, j + p.len()));
            assert(occurs_at(all, p, n + j));
        }
    }
}

/// A text whose line feeds were all escaped is read as if they were not.
pub proof fn law_escaped_line_feeds_are_restored(s: Seq<char>, with_return: spec_fn(int) -> bool)
    requires
        s.contains('\n'),
        !s.contains('\\'),
    ensures
        normalized(escaped(s, with_return, 0)) == s,
{
    let text = escaped(s, with_return, 0);
    let none = Seq::<char>::empty();
    let j = choose|j: int| 0 <= j < s.len() && s[j] == '\n';
    assert(0 <= j < s.len() && s[j] == '\n');
    lemma_escaped(s, with_return, 0);
    if text.len() > 0 {
        assert(text.contains(text.last()));
    }
    assert(before_feeds(text, text.len() as int) == text.len());
    assert(text.take(text.len() as int) =~= text);
    lemma_returns_replaced(none, s, with_return, 0);
    assert(none + text =~= text);
    let half = half_escaped(s, with_return, 0);
    lemma_feeds_replaced(none, s, with_return, 0);
    assert(none + half =~= half);
    assert(s.skip(0) =~= s);
}

/// A text with a line feed before its end is taken as it is, escapes and all.
pub proof fn law_real_line_feeds_are_left_alone(a: Seq<char>, b: Seq<char>)
    requires
        b.len() > 0,
        b.last() != '\n',
    ensures
        normalized(a + seq!['\n'] + b) == a + seq!['\n'] + b,
{
    let text = a + seq!['\n'] + b;
    assert(text.last() == b.last());
    assert(before_feeds(text, text.len() as int) == text.len());
    assert(text.take(text.len() as int) =~= text);
    assert(text[a.len() as int] == '\n');
    assert(text.contains('\n'));
}

// ---------------------------------------------------------------------------
// Around a patch
// ---------------------------------------------------------------------------
/// Lines that hold white space alone.
pub open spec fn all_blank(lines: Seq<Seq<char>>) -> bool {
    forall|k: int| 0 <= k < lines.len() ==> is_blank_text(#[trigger] lines[k])
}

proof fn lemma_solid_from(lines: Seq<Seq<char>>, i: int, n: int)
    requires
        0 <= i <= n < lines.len(),
        forall|k: int| 0 <= k < n ==> is_blank_text(#[trigger] lines[k]),
        !is_blank_text(lines[n]),
    ensures
        solid_from(lines, i) == n,
    decreases n - i,
{
    if i < n {
        lemma_solid_from(lines, i + 1, n);
    }
}

proof fn lemma_solid_to(lines: Seq<Seq<char>>, i: int, n: int)
    requires
        0 < n <= i <= lines.len(),
        forall|k: int| n <= k < lines.len() ==> is_blank_text(#[trigger] lines[k]),
        !is_blank_text(lines[n - 1]),
    ensures
        solid_to(lines, i) == n,
    decreases i,
{
    if i > n {
        lemma_solid_to(lines, i - 1, n);
    }
}

/// In lenient mode a patch is read out of a here document, with blank lines around it or
/// without.
pub proof fn law_patch_in_a_heredoc_is_read(
    open: Seq<char>,
    above: Seq<Seq<char>>,
    hunks: Seq<WrittenHunk>,
    below: Seq<Seq<char>>,
    close: Seq<char>,
)
    requires
        open == "<<EOF"@ || open == "<<'EOF'"@ || open == "<<\"EOF\""@,
        close.len() >= 3,
        close.skip(close.len() - 3) == "EOF"@,
        all_blank(above) && all_blank(below),
        are_hunks(hunks),
    ensures
        parse_in_mode(
            seq![open] + (above + written_lines(hunks) + below) + seq![close],
            ParseMode::Lenient,
        ) == Ok::<PatchModel, ParseErrorModel>(
            PatchModel {
                patch: joined(written_lines(hunks)),
                hunks: hunk_meanings(hunks),
                workdir: None,
            },
        ),
{
    let lines = written_lines(hunks);
    let inner = above + lines + below;
    let a = above.len() as int;
    let b = a + lines.len();
    reveal_strlit("EOF");
    assert(close.subrange(close.len() - 3, close.len() as int) =~= close.skip(close.len() - 3));
    law_heredoc_is_stripped(open, inner, close);
    reveal_strlit("*** Begin Patch");
    reveal_strlit("*** End Patch");
    let first = BEGIN_PATCH_MARKER@;
    let last = END_PATCH_MARKER@;
    assert(lines[0] == first && lines.last() == last);
    lemma_tight_text(first);
    lemma_tight_text(last);
    lemma_blank(first);
    lemma_blank(last);
    assert(inner[a] == first);
    assert(inner[b - 1] == last);
    assert forall|k: int| 0 <= k < a implies is_blank_text(#[trigger] inner[k]) by {
        assert(inner[k] == above[k]);
    }
    assert forall|k: int| b <= k < inner.len() implies is_blank_text(#[trigger] inner[k]) by {
        assert(inner[k] == below[k - b]);
    }
    lemma_solid_from(inner, 0, a);
    lemma_solid_to(inner, inner.len() as int, b);
    assert(skip_white(first, 0) == 0);
    assert(trimmed_start(first) =~= first);
    lemma_trimmed_end(last);
    assert(trimmed_lines(inner) =~= lines);
    assert(boundaries(lines) is Ok);
    law_written_lines_are_read(hunks);
}

proof fn lemma_end_line(lines: Seq<Seq<char>>, i: int, n: int)
    requires
        0 <= i <= n <= lines.len(),
        forall|k: int| i <= k < n ==> trimmed(#[trigger] lines[k]) != "*** End Patch"@,
        n < lines.len() ==> trimmed(lines[n]) == "*** End Patch"@,
    ensures
        end_line_from(lines, i) == n,
    decreases n - i,
{
    if i < n {
        lemma_end_line(lines, i + 1, n);
    }
}

/// Where a repaired text holds the end marker twice, it ends with the first one; where it
/// holds it once, nothing is dropped.
pub proof fn law_text_ends_with_the_first_of_two_end_markers(
    before: Seq<Seq<char>>,
    after: Seq<Seq<char>>,
)
    requires
        forall|k: int|
            0 <= k < before.len() ==> trimmed(#[trigger] before[k]) != "*** End Patch"@ && !before[k].contains('\n')
                && (before[k].len() > 0 ==> before[k].last() != '\r'),
        forall|k: int|
            0 <= k < after.len() ==> !(#[trigger] after[k]).contains('\n') && (after[k].len() > 0
                ==> after[k].last() != '\r'),
    ensures
        ({
            let lines = before + seq!["*** End Patch"@] + after;
            if exists|k: int|
                0 <= k < after.len() && trimmed(#[trigger] after[k]) == "*** End Patch"@ {
                truncated(ended(lines)) == ended(before + seq!["*** End Patch"@])
            } else {
                truncated(ended(lines)) == ended(lines)
            }
        }),
{
    reveal_strlit("*** End Patch");
    let marker = "*** End Patch"@;
    let lines = before + seq![marker] + after;
    let n = before.len() as int;
    assert forall|k: int| 0 <= k < lines.len() implies !(#[trigger] lines[k]).contains('\n') && (
    lines[k].len() > 0 ==> lines[k].last() != '\r') by {
        if k < n {
            assert(lines[k] == before[k]);
        } else if k > n {
            assert(lines[k] == after[k - n - 1]);
        } else {
            assert(lines[k] == marker);
        }
    }
    lemma_lines_of_ended(lines);
    let all = line_seq(ended(lines));
    assert(all =~= lines) by {
        assert forall|k: int| 0 <= k < lines.len() implies all[k] == lines[k] by {
            assert(all[k] == without_cr(lines[k]));
        }
    }
    lemma_tight_text(marker);
    assert(lines[n] == marker);
    assert forall|k: int| 0 <= k < n implies trimmed(#[trigger] lines[k]) != marker by {
        assert(lines[k] == before[k]);
    }
    lemma_end_line(lines, 0, n);
    assert(lines.take(n + 1) =~= before + seq![marker]);
    if exists|k: int| 0 <= k < after.len() && trimmed(#[trigger] after[k]) == marker {
        let k = choose|k: int| 0 <= k < after.len() && trimmed(#[trigger] after[k]) == marker;
        assert(lines[n + 1 + k] == after[k]);
        lemma_end_line_within(lines, n + 1, n + 1 + k);
    } else {
        assert forall|k: int| n + 1 <= k < lines.len() implies trimmed(#[trigger] lines[k])
            != marker by {
            assert(lines[k] == after[k - n - 1]);
        }
        lemma_end_line(lines, n + 1, lines.len() as int);
    }
}

proof fn lemma_end_line_within(lines: Seq<Seq<char>>, i: int, n: int)
    requires
        0 <= i <= n < lines.len(),
        trimmed(lines[n]) == "*** End Patch"@,
    ensures
        end_line_from(lines, i) <= n,
    decreases n - i,
{
    if i < n {
        lemma_end_line_within(lines, i + 1, n);
    }
}

} // verus!
