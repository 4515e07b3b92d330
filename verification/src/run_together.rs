//! Lines that were run together are read as the lines that they were.
//!
//! Two lines of a patch that stand in one line, without the line feed between them, are
//! told apart by the diff prefix of the second one. The law at the end of this module says
//! that the parser reads such a patch as if the line feed were there.
use vstd::prelude::*;

use crate::calm::{
    has_calm_signs, has_calm_statements, has_no_marker, is_calm_chunk, is_calm_hunk,
    is_calm_line, is_calm_path, law_calm_line_is_left_alone, law_calm_path_is_left_alone,
    lemma_calm_diff_line, lemma_no_marker, lemma_no_marker_in_part, lemma_shifted_occurrence,
};
use crate::diff_line::{
    cut, diff_line, last_pieces, last_repeat, mixed_prefixes, piece_start, point_pieces,
    split_candidate, split_points, split_too_short, squashed_pieces,
};
use crate::file_marker::{
    best_split_before, dash_after_extension, file_name_part, file_name_start,
    file_split_candidate, law_best_split_scores_highest, lemma_name_start, marker_tail_split,
    name_start, path_separator, split_score, tail_needs_split, usable_split, white_prefix_at,
    white_prefix_from,
};
use crate::grammar::{
    added_lines, all_chunk_lines, all_hunk_lines, are_chunks, are_hunks, change_line,
    change_lines, chunk_lines, context_lines, end_lines, hunk_lines, hunk_meanings, is_chunk,
    is_hunk, is_path, law_written_lines_are_read, move_lines, written_lines, WrittenChunk,
    WrittenHunk,
};
use crate::lines::{ended, joined, line_seq, without_cr};
use crate::markers::{
    first_marker, lemma_marker_from, lemma_marker_start, marker_at, prefix_char, word_char,
    ADD_FILE_MARKER, BEGIN_PATCH_MARKER, CHANGE_CONTEXT_MARKER, DELETE_FILE_MARKER,
    EMPTY_CHANGE_CONTEXT_MARKER, END_PATCH_MARKER, EOF_MARKER, MOVE_TO_MARKER,
    UPDATE_FILE_MARKER,
};
use crate::parse_laws::{
    law_joined_lines_split_again, lemma_joined_ends, lemma_tight_text, separable,
};
use crate::parser::{
    before_feeds, boundaries, normalized, parse_text, ParseErrorModel, ParseMode, PatchModel,
};
use crate::patch_lines::{
    end_line_from, is_end_line, prefix_step, prefixed, prefixed_lines, truncated, PrefixState,
};
use crate::repair::{
    end_cut, law_repair_makes_progress, line_needs_repair, needs_repair, original_items,
    own_text, repair_all, repair_line, repaired_patch, tail_cut, tail_item, tail_items,
    RepairItem, RepairOrigin, RepairState,
};
use crate::repair_laws::lemma_lines_of_ended;
use crate::text::{
    contains_text, find_text, has_prefix, is_ascii_white, is_blank_text, is_letter, is_white,
    last_char_index, lemma_blank, lemma_find_from, lemma_last_before, lemma_skip_white,
    lemma_trimmed_end, lemma_trimmed_start, occurs_at, skip_ascii_white, skip_white, trimmed,
    trimmed_end, trimmed_start,
};

verus! {

// ---------------------------------------------------------------------------
// Lines that stay as they are
// ---------------------------------------------------------------------------
/// Repair takes the line as it is, whatever stands before and behind it.
spec fn settles(line: Seq<char>, origin: RepairOrigin) -> bool {
    forall|state: RepairState|
        #[trigger] repair_line(state, RepairItem { text: line, origin }) == (RepairState {
            text: state.text + ended(seq![line]),
            queue: state.queue,
        })
}

/// The line is not the end marker, and it gets no other prefix.
spec fn is_plain(line: Seq<char>) -> bool {
    &&& trimmed(line) != END_PATCH_MARKER@
    &&& forall|state: PrefixState| (#[trigger] prefix_step(state, line)).1 == line
}

proof fn lemma_first_char(t: Seq<char>, marker: Seq<char>)
    requires
        marker.len() > 0,
        has_prefix(t, marker),
    ensures
        t.len() > 0 && t[0] == marker[0],
{
    assert(t.subrange(0, marker.len() as int)[0] == t[0]);
}

/// A text that starts with a sign starts with no marker.
proof fn lemma_sign_is_no_marker(t: Seq<char>)
    requires
        t.len() > 0,
        t[0] != '*',
        t[0] != '@',
    ensures
        !has_prefix(t, BEGIN_PATCH_MARKER@),
        !has_prefix(t, ADD_FILE_MARKER@),
        !has_prefix(t, DELETE_FILE_MARKER@),
        !has_prefix(t, UPDATE_FILE_MARKER@),
        !has_prefix(t, MOVE_TO_MARKER@),
        !has_prefix(t, EOF_MARKER@),
        !has_prefix(t, END_PATCH_MARKER@),
        !has_prefix(t, CHANGE_CONTEXT_MARKER@),
        !has_prefix(t, EMPTY_CHANGE_CONTEXT_MARKER@),
        t != END_PATCH_MARKER@,
        t != EMPTY_CHANGE_CONTEXT_MARKER@,
{
    reveal_strlit("*** Begin Patch");
    reveal_strlit("*** End Patch");
    reveal_strlit("*** Add File: ");
    reveal_strlit("*** Delete File: ");
    reveal_strlit("*** Update File: ");
    reveal_strlit("*** Move to: ");
    reveal_strlit("*** End of File");
    reveal_strlit("@@ ");
    reveal_strlit("@@");
    if has_prefix(t, BEGIN_PATCH_MARKER@) {
        lemma_first_char(t, BEGIN_PATCH_MARKER@);
    }
    if has_prefix(t, ADD_FILE_MARKER@) {
        lemma_first_char(t, ADD_FILE_MARKER@);
    }
    if has_prefix(t, DELETE_FILE_MARKER@) {
        lemma_first_char(t, DELETE_FILE_MARKER@);
    }
    if has_prefix(t, UPDATE_FILE_MARKER@) {
        lemma_first_char(t, UPDATE_FILE_MARKER@);
    }
    if has_prefix(t, MOVE_TO_MARKER@) {
        lemma_first_char(t, MOVE_TO_MARKER@);
    }
    if has_prefix(t, EOF_MARKER@) {
        lemma_first_char(t, EOF_MARKER@);
    }
    if has_prefix(t, END_PATCH_MARKER@) {
        lemma_first_char(t, END_PATCH_MARKER@);
    }
    if has_prefix(t, CHANGE_CONTEXT_MARKER@) {
        lemma_first_char(t, CHANGE_CONTEXT_MARKER@);
    }
    if has_prefix(t, EMPTY_CHANGE_CONTEXT_MARKER@) {
        lemma_first_char(t, EMPTY_CHANGE_CONTEXT_MARKER@);
    }
}

/// Where a text holds no marker, no part of it starts with one.
proof fn lemma_part_starts_with_no_marker(s: Seq<char>, n: int)
    requires
        has_no_marker(s),
        0 <= n < s.len(),
    ensures
        !marker_at(s.skip(n), 0),
{
    if marker_at(s.skip(n), 0) {
        lemma_no_marker_in_part(s, n, s.len() as int);
        assert(s.subrange(n, s.len() as int) =~= s.skip(n));
        lemma_no_marker(s.skip(n));
    }
}

/// A diff line without markers holds no end marker.
proof fn lemma_no_end(line: Seq<char>)
    requires
        line.len() > 0,
        line[0] != '*',
        has_no_marker(line.skip(1)),
    ensures
        find_text(trimmed_end(line), END_PATCH_MARKER@) is None,
        line[0] != '@' ==> first_marker(line) is None,
        forall|i: int| !occurs_at(line, END_PATCH_MARKER@, i),
{
    reveal_strlit("*** End Patch");
    lemma_no_marker(line.skip(1));
    assert forall|i: int| !#[trigger] occurs_at(line, END_PATCH_MARKER@, i) by {
        if occurs_at(line, END_PATCH_MARKER@, i) {
            assert(line.subrange(i, i + END_PATCH_MARKER@.len())[0] == line[i]);
            assert(i >= 1);
            lemma_shifted_occurrence(line, END_PATCH_MARKER@, i - 1);
            assert(marker_at(line.skip(1), i - 1));
        }
    }
    let shown = trimmed_end(line);
    lemma_trimmed_end(line);
    lemma_find_from(shown, END_PATCH_MARKER@, 0);
    if let Some(e) = find_text(shown, END_PATCH_MARKER@) {
        assert(line.subrange(e, e + END_PATCH_MARKER@.len()) =~= shown.subrange(
            e,
            e + END_PATCH_MARKER@.len(),
        ));
        assert(occurs_at(line, END_PATCH_MARKER@, e));
    }
    if line[0] != '@' {
        lemma_marker_from(line, 0);
        if let Some(i) = first_marker(line) {
            lemma_marker_start(line, i);
            assert(i >= 1);
            lemma_shifted_marker(line, i);
        }
    }
}

proof fn lemma_shifted_marker(line: Seq<char>, i: int)
    requires
        line.len() > 0,
        i >= 1,
        marker_at(line, i),
    ensures
        marker_at(line.skip(1), i - 1),
{
    lemma_shifted_occurrence(line, BEGIN_PATCH_MARKER@, i - 1);
    lemma_shifted_occurrence(line, END_PATCH_MARKER@, i - 1);
    lemma_shifted_occurrence(line, ADD_FILE_MARKER@, i - 1);
    lemma_shifted_occurrence(line, DELETE_FILE_MARKER@, i - 1);
    lemma_shifted_occurrence(line, UPDATE_FILE_MARKER@, i - 1);
    lemma_shifted_occurrence(line, MOVE_TO_MARKER@, i - 1);
    lemma_shifted_occurrence(line, EOF_MARKER@, i - 1);
    lemma_shifted_occurrence(line, CHANGE_CONTEXT_MARKER@, i - 1);
    lemma_shifted_occurrence(line, EMPTY_CHANGE_CONTEXT_MARKER@, i - 1);
}

/// A calm diff line without white space at its end stays as it is; behind a line that it
/// was run together with too, unless it is a context line.
proof fn lemma_calm_line_settles(line: Seq<char>, origin: RepairOrigin)
    requires
        is_calm_line(line),
        line.len() > 0,
        prefix_char(line[0]) || line[0] == ' ',
        !is_white(line.last()),
        origin == RepairOrigin::TailSplit ==> line[0] != ' ',
    ensures
        settles(line, origin),
        is_plain(line),
{
    law_calm_line_is_left_alone(line);
    let t = trimmed_start(line);
    lemma_trimmed_start(line);
    lemma_skip_white(line, 0);
    lemma_trimmed_end(line);
    let n = skip_white(line, 0);
    assert(n < line.len());
    if prefix_char(line[0]) {
        assert(n == 0);
        assert(t =~= line);
    } else {
        assert(n >= 1);
        assert(t =~= line.skip(1).skip(n - 1));
        lemma_part_starts_with_no_marker(line.skip(1), n - 1);
    }
    assert(!marker_at(t, 0)) by {
        if prefix_char(line[0]) && marker_at(t, 0) {
            lemma_marker_start(t, 0);
        }
    }
    lemma_no_end(line);
    lemma_calm_diff_line(line);
    assert(diff_line(line) == Some(line)) by {
        if line[0] == ' ' {
            assert(t.len() > 0);
            if prefix_char(t[0]) {
                assert(diff_line(line) == Some(t));
            }
        }
    }
    assert forall|state: RepairState| #[trigger]
        repair_line(state, RepairItem { text: line, origin }) == (RepairState {
            text: state.text + ended(seq![line]),
            queue: state.queue,
        }) by {
        assert(own_text(state.queue, line) == line);
        assert(tail_cut(line, origin) is None);
        assert(end_cut(state.queue, line, origin) is None);
    }
    assert(trimmed(line) != END_PATCH_MARKER@) by {
        lemma_trimmed_end(t);
        if trimmed(line) == END_PATCH_MARKER@ {
            assert(line.subrange(n, n + END_PATCH_MARKER@.len()) =~= trimmed(line));
            assert(occurs_at(line, END_PATCH_MARKER@, n));
        }
    }
    assert(t != END_PATCH_MARKER@ && t != EMPTY_CHANGE_CONTEXT_MARKER@) by {
        if t == END_PATCH_MARKER@ || t == EMPTY_CHANGE_CONTEXT_MARKER@ {
            assert(t.subrange(0, t.len() as int) =~= t);
            assert(marker_at(t, 0));
        }
    }
}

/// What tells the markers apart.
proof fn lemma_marker_chars()
    ensures
        BEGIN_PATCH_MARKER@.len() == 15 && BEGIN_PATCH_MARKER@[0] == '*' && BEGIN_PATCH_MARKER@[4]
            == 'B',
        ADD_FILE_MARKER@.len() == 14 && ADD_FILE_MARKER@[0] == '*' && ADD_FILE_MARKER@[4] == 'A',
        DELETE_FILE_MARKER@.len() == 17 && DELETE_FILE_MARKER@[0] == '*' && DELETE_FILE_MARKER@[4]
            == 'D',
        UPDATE_FILE_MARKER@.len() == 17 && UPDATE_FILE_MARKER@[0] == '*' && UPDATE_FILE_MARKER@[4]
            == 'U',
        MOVE_TO_MARKER@.len() == 13 && MOVE_TO_MARKER@[0] == '*' && MOVE_TO_MARKER@[4] == 'M',
        EOF_MARKER@.len() == 15 && EOF_MARKER@[0] == '*' && EOF_MARKER@[4] == 'E' && EOF_MARKER@[8]
            == 'o',
        END_PATCH_MARKER@.len() == 13 && END_PATCH_MARKER@[0] == '*' && END_PATCH_MARKER@[4] == 'E'
            && END_PATCH_MARKER@[8] == 'P',
        CHANGE_CONTEXT_MARKER@.len() == 3 && CHANGE_CONTEXT_MARKER@[0] == '@'
            && CHANGE_CONTEXT_MARKER@[2] == ' ',
        EMPTY_CHANGE_CONTEXT_MARKER@.len() == 2 && EMPTY_CHANGE_CONTEXT_MARKER@[0] == '@'
            && EMPTY_CHANGE_CONTEXT_MARKER@[1] == '@',
        !is_white(BEGIN_PATCH_MARKER@.last()),
        !is_white(END_PATCH_MARKER@.last()),
        !is_white(EOF_MARKER@.last()),
{
    reveal_strlit("*** Begin Patch");
    reveal_strlit("*** End Patch");
    reveal_strlit("*** Add File: ");
    reveal_strlit("*** Delete File: ");
    reveal_strlit("*** Update File: ");
    reveal_strlit("*** Move to: ");
    reveal_strlit("*** End of File");
    reveal_strlit("@@ ");
    reveal_strlit("@@");
}

/// Where a text starts with two markers, their fifth and ninth characters are the same.
proof fn lemma_two_starts(t: Seq<char>, a: Seq<char>)
    requires
        a.len() > 8,
    ensures
        has_prefix(t, a) ==> t.len() > 8 && t[0] == a[0] && t[4] == a[4] && t[8] == a[8],
{
    if has_prefix(t, a) {
        let start = t.subrange(0, a.len() as int);
        assert(start[0] == t[0] && start[4] == t[4] && start[8] == t[8]);
    }
}

/// Which markers a text with the given fifth and ninth characters does not start with.
proof fn lemma_starts_of(t: Seq<char>)
    ensures
        has_prefix(t, BEGIN_PATCH_MARKER@) ==> t[0] == '*' && t[4] == 'B',
        has_prefix(t, ADD_FILE_MARKER@) ==> t[0] == '*' && t[4] == 'A',
        has_prefix(t, DELETE_FILE_MARKER@) ==> t[0] == '*' && t[4] == 'D',
        has_prefix(t, UPDATE_FILE_MARKER@) ==> t[0] == '*' && t[4] == 'U',
        has_prefix(t, MOVE_TO_MARKER@) ==> t[0] == '*' && t[4] == 'M',
        has_prefix(t, EOF_MARKER@) ==> t[0] == '*' && t[4] == 'E' && t[8] == 'o',
        has_prefix(t, END_PATCH_MARKER@) ==> t[0] == '*' && t[4] == 'E' && t[8] == 'P',
        has_prefix(t, CHANGE_CONTEXT_MARKER@) ==> t.len() >= 3 && t[0] == '@' && t[2] == ' ',
        has_prefix(t, EMPTY_CHANGE_CONTEXT_MARKER@) ==> t[0] == '@',
{
    lemma_marker_chars();
    lemma_two_starts(t, BEGIN_PATCH_MARKER@);
    lemma_two_starts(t, ADD_FILE_MARKER@);
    lemma_two_starts(t, DELETE_FILE_MARKER@);
    lemma_two_starts(t, UPDATE_FILE_MARKER@);
    lemma_two_starts(t, MOVE_TO_MARKER@);
    lemma_two_starts(t, EOF_MARKER@);
    lemma_two_starts(t, END_PATCH_MARKER@);
    if has_prefix(t, CHANGE_CONTEXT_MARKER@) {
        let start = t.subrange(0, 3);
        assert(start[0] == t[0] && start[2] == t[2]);
    }
    if has_prefix(t, EMPTY_CHANGE_CONTEXT_MARKER@) {
        lemma_first_char(t, EMPTY_CHANGE_CONTEXT_MARKER@);
    }
}

pub open spec fn is_file_marker(marker: Seq<char>) -> bool {
    marker == ADD_FILE_MARKER@ || marker == DELETE_FILE_MARKER@ || marker == UPDATE_FILE_MARKER@
        || marker == MOVE_TO_MARKER@
}

/// A text behind a marker, and the marker before it.
proof fn lemma_marked_line(marker: Seq<char>, text: Seq<char>)
    requires
        marker.len() > 0,
        marker[0] == '*' || marker[0] == '@',
    ensures
        has_prefix(marker + text, marker),
        (marker + text).skip(marker.len() as int) == text,
        trimmed_start(marker + text) == marker + text,
        forall|k: int| 0 <= k < marker.len() ==> (marker + text)[k] == marker[k],
{
    let line = marker + text;
    assert(line.skip(marker.len() as int) =~= text);
    assert(line.subrange(0, marker.len() as int) =~= marker);
    assert(line[0] == marker[0]);
    assert(skip_white(line, 0) == 0);
    assert(trimmed_start(line) =~= line);
}

proof fn lemma_file_marker_settles(marker: Seq<char>, path: Seq<char>)
    requires
        is_file_marker(marker),
        is_calm_path(path),
        is_path(path),
    ensures
        settles(marker + path, RepairOrigin::Original),
        is_plain(marker + path),
{
    let line = marker + path;
    lemma_marker_chars();
    lemma_marked_line(marker, path);
    lemma_starts_of(line);
    law_calm_path_is_left_alone(path);
    lemma_blank(path);
    assert(!is_blank_text(path)) by {
        assert(path.last() == path[path.len() - 1]);
    }
    assert(line[4] == marker[4]);
    lemma_trimmed_end(line);
    assert(line.last() == path.last());
    assert(trimmed(line) == line);
    assert(line != END_PATCH_MARKER@);
}

proof fn lemma_marker_settles(marker: Seq<char>)
    requires
        marker == BEGIN_PATCH_MARKER@ || marker == EOF_MARKER@ || marker == END_PATCH_MARKER@,
    ensures
        settles(marker, RepairOrigin::Original),
        marker != END_PATCH_MARKER@ ==> is_plain(marker),
        forall|state: PrefixState| (#[trigger] prefix_step(state, marker)).1 == marker,
        trimmed(marker) == marker,
{
    let none = Seq::<char>::empty();
    lemma_marker_chars();
    lemma_marked_line(marker, none);
    assert(marker + none =~= marker);
    lemma_starts_of(marker);
    lemma_trimmed_end(marker);
    lemma_blank(none);
    assert forall|state: RepairState| #[trigger]
        repair_line(state, RepairItem { text: marker, origin: RepairOrigin::Original }) == (
        RepairState { text: state.text + ended(seq![marker]), queue: state.queue }) by {
        assert(marker.skip(marker.len() as int) =~= none);
    }
}

/// The text of a context marker that stays behind it: it holds no marker, does not start
/// with a diff prefix, and is not blank and has no white space at its end.
pub open spec fn is_tidy_context(text: Seq<char>) -> bool {
    &&& has_no_marker(text)
    &&& text.len() > 0 && !is_white(text.last())
    &&& !prefix_char(trimmed_start(text)[0])
}

proof fn lemma_context_marker_settles(text: Seq<char>)
    requires
        is_tidy_context(text),
    ensures
        settles(CHANGE_CONTEXT_MARKER@ + text, RepairOrigin::Original),
        is_plain(CHANGE_CONTEXT_MARKER@ + text),
        settles(EMPTY_CHANGE_CONTEXT_MARKER@, RepairOrigin::Original),
        is_plain(EMPTY_CHANGE_CONTEXT_MARKER@),
{
    let marker = CHANGE_CONTEXT_MARKER@;
    let line = marker + text;
    lemma_marker_chars();
    lemma_marked_line(marker, text);
    lemma_starts_of(line);
    lemma_trimmed_end(line);
    assert(line.last() == text.last());
    assert(trimmed(line) == line);
    let rest = trimmed_start(text);
    lemma_trimmed_start(text);
    let n = skip_white(text, 0);
    assert(n < text.len());
    lemma_part_starts_with_no_marker(text, n);
    assert(rest.len() > 0);
    assert(line[0] == '@');
    assert(line != END_PATCH_MARKER@);
    let empty = EMPTY_CHANGE_CONTEXT_MARKER@;
    let none = Seq::<char>::empty();
    lemma_marked_line(empty, none);
    assert(empty + none =~= empty);
    lemma_starts_of(empty);
    lemma_trimmed_end(empty);
    assert(empty.skip(2) =~= none);
    assert(trimmed_start(none) =~= none);
    assert(!is_white(empty.last()));
    assert(trimmed(empty) == empty);
}

// ---------------------------------------------------------------------------
// Two lines in one
// ---------------------------------------------------------------------------
/// The text holds no plus and no minus.
pub open spec fn has_no_sign(s: Seq<char>) -> bool {
    forall|k: int| 0 <= k < s.len() ==> !prefix_char(#[trigger] s[k])
}

/// Two diff lines that are told apart where they are run together: both have the same
/// sign and no other, the first ends with a character that is neither white space nor part
/// of a word, and the second goes on with neither white space nor an equals sign (behind a
/// minus, with a letter).
pub open spec fn are_told_apart(a: Seq<char>, b: Seq<char>) -> bool {
    &&& a.len() >= 2 && b.len() >= 2
    &&& prefix_char(a[0]) && b[0] == a[0]
    &&& has_no_sign(a.skip(1)) && has_no_sign(b.skip(1))
    &&& has_no_marker(a.skip(1)) && has_no_marker(b.skip(1))
    &&& !word_char(a.last()) && !is_white(a.last())
    &&& !is_white(b[1]) && b[1] != '=' && (a[0] == '-' ==> is_letter(b[1]))
    &&& !is_white(b.last())
    &&& has_calm_statements(a) && has_calm_statements(b)
}

/// A text that holds no sign cannot stand across one.
proof fn lemma_across(x: Seq<char>, sign: char, y: Seq<char>, p: Seq<char>)
    requires
        prefix_char(sign),
        has_no_sign(p),
        !contains_text(x, p),
        !contains_text(y, p),
        p.len() > 0,
    ensures
        !contains_text(x + (seq![sign] + y), p),
{
    let s = x + (seq![sign] + y);
    if contains_text(s, p) {
        let i = choose|i: int| #[trigger] occurs_at(s, p, i);
        let found = s.subrange(i, i + p.len());
        let n = x.len() as int;
        if i + p.len() <= n {
            assert(x.subrange(i, i + p.len()) =~= found);
            assert(occurs_at(x, p, i));
        } else if i > n {
            assert(y.subrange(i - n - 1, i - n - 1 + p.len()) =~= found);
            assert(occurs_at(y, p, i - n - 1));
        } else {
            assert(found[n - i] == s[n]);
            assert(p[n - i] == sign);
        }
    }
}

proof fn lemma_markers_have_no_sign()
    ensures
        has_no_sign("*** "@),
        "*** "@.len() > 0,
        has_no_sign("@@"@),
        "@@"@.len() > 0,
{
    reveal_strlit("*** ");
    reveal_strlit("@@");
}

pub proof fn lemma_no_marker_across(x: Seq<char>, sign: char, y: Seq<char>)
    requires
        prefix_char(sign),
        has_no_marker(x),
        has_no_marker(y),
    ensures
        has_no_marker(x + (seq![sign] + y)),
{
    lemma_markers_have_no_sign();
    lemma_across(x, sign, y, "*** "@);
    lemma_across(x, sign, y, "@@"@);
}

proof fn lemma_only_candidate(d: Seq<char>, n: int, i: int)
    requires
        2 <= n,
        n + 1 < d.len(),
        prefix_char(d[0]),
        d[n] == d[0],
        forall|k: int| 1 <= k < d.len() && k != n ==> !prefix_char(#[trigger] d[k]),
        !word_char(d[n - 1]) && !is_white(d[n - 1]),
        !is_white(d[n + 1]) && d[n + 1] != '=',
        d[0] == '-' ==> is_letter(d[n + 1]),
        1 <= i < d.len(),
    ensures
        split_candidate(d, i) == (i == n),
        i == n ==> !split_too_short(d, i, 0),
{
    if i == n {
        assert(skip_ascii_white(d, n + 1) == n + 1) by {
            assert(!is_ascii_white(d[n + 1]));
        }
        assert(!prefix_char(d[n - 1]));
    } else {
        assert(!prefix_char(d[i]));
    }
}

proof fn lemma_only_point(d: Seq<char>, n: int, i: int, last: int)
    requires
        2 <= n,
        n + 1 < d.len(),
        prefix_char(d[0]),
        d[n] == d[0],
        forall|k: int| 1 <= k < d.len() && k != n ==> !prefix_char(#[trigger] d[k]),
        !word_char(d[n - 1]) && !is_white(d[n - 1]),
        !is_white(d[n + 1]) && d[n + 1] != '=',
        d[0] == '-' ==> is_letter(d[n + 1]),
        1 <= i,
        i <= n ==> last == 0,
    ensures
        split_points(d, i, last) =~= if i <= n {
            seq![n]
        } else {
            Seq::empty()
        },
    decreases d.len() - i,
{
    if i < d.len() {
        lemma_only_candidate(d, n, i);
        if i == n {
            lemma_only_point(d, n, i + 1, i);
        } else {
            lemma_only_point(d, n, i + 1, last);
        }
    }
}

/// Three signs in a row are not there where there is only one.
pub proof fn lemma_no_row(d: Seq<char>, n: int, p: Seq<char>)
    requires
        forall|k: int| 0 <= k < d.len() && k != n ==> !prefix_char(#[trigger] d[k]),
        p.len() >= 2,
        prefix_char(p[0]) && prefix_char(p[1]),
    ensures
        !contains_text(d, p),
{
    if contains_text(d, p) {
        let i = choose|i: int| #[trigger] occurs_at(d, p, i);
        let found = d.subrange(i, i + p.len());
        assert(found[0] == d[i] && found[1] == d[i + 1]);
    }
}

proof fn lemma_told_apart(a: Seq<char>, b: Seq<char>)
    requires
        are_told_apart(a, b),
    ensures
        squashed_pieces(a + b) == Some(seq![a, b]),
        diff_line(a + b) == Some(a + b),
        has_no_marker((a + b).skip(1)),
{
    let d = a + b;
    let n = a.len() as int;
    let x = a.skip(1);
    let y = b.skip(1);
    let content = d.subrange(1, d.len() as int);
    assert(content =~= d.skip(1));
    assert(content =~= x + (seq![b[0]] + y));
    lemma_no_marker_across(x, b[0], y);
    lemma_no_marker(content);
    assert forall|k: int| 1 <= k < d.len() && k != n implies !prefix_char(#[trigger] d[k]) by {
        if k < n {
            assert(d[k] == x[k - 1]);
        } else {
            assert(d[k] == y[k - n - 1]);
        }
    }
    assert(d[0] == a[0] && d[n] == b[0] && d[n - 1] == a.last() && d[n + 1] == b[1]);
    assert(trimmed_start(d) =~= d) by {
        assert(skip_white(d, 0) == 0);
    }
    lemma_only_point(d, n, 1, 0);
    let points = split_points(d, 1, 0);
    assert forall|k: int| 0 <= k < content.len() && k != n - 1 implies !prefix_char(
        #[trigger] content[k],
    ) by {
        assert(content[k] == d[k + 1]);
    }
    reveal_strlit("+++ ");
    reveal_strlit("--- ");
    reveal_strlit("@@ ");
    reveal_strlit("@@");
    reveal_strlit("->");
    lemma_no_row(content, n - 1, "+++ "@);
    lemma_no_row(content, n - 1, "--- "@);
    assert(!contains_text(content, "@@ "@)) by {
        if contains_text(content, "@@ "@) {
            let i = choose|i: int| #[trigger] occurs_at(content, "@@ "@, i);
            assert(marker_at(content, i));
        }
    }
    assert(!contains_text(content, "->"@)) by {
        if contains_text(content, "->"@) {
            let i = choose|i: int| #[trigger] occurs_at(content, "->"@, i);
            let found = content.subrange(i, i + 2);
            assert(found[0] == content[i] && found[1] == content[i + 1]);
            assert(i == n - 1);
            assert(content[i + 1] == b[1]);
        }
    }
    assert(!prefix_char(d[1]));
    // the pieces
    assert(points.len() == 1 && points[0] == n);
    assert(cut(d, points, 0) == (Seq::<Seq<char>>::empty(), 0int));
    assert(d.subrange(0, n) =~= a);
    lemma_trimmed_end(a);
    assert(piece_start(d, n) == n) by {
        assert(!is_ascii_white(d[n]));
        assert(skip_ascii_white(d, n) == n);
        assert(!is_ascii_white(d[n + 1]));
        assert(last_repeat(d, n, n + 1) == n);
    }
    assert(cut(d, points, 1) == (Seq::<Seq<char>>::empty().push(a), n));
    let front = Seq::<Seq<char>>::empty().push(a);
    let part = d.subrange(n, d.len() as int);
    assert(part =~= b);
    lemma_trimmed_end(b);
    assert(!prefix_char(b.last())) by {
        assert(b.last() == y[y.len() - 1]);
    }
    assert(last_pieces(b) =~= seq![b]);
    let all = front + last_pieces(b);
    assert(all =~= seq![a, b]);
    assert(!mixed_prefixes(all, d[0]));
    assert(point_pieces(d) == Some(all));
}

/// A line that is divided into two makes room for them.
proof fn lemma_divided_line(a: Seq<char>, b: Seq<char>, state: RepairState)
    requires
        are_told_apart(a, b),
    ensures
        repair_line(state, RepairItem { text: a + b, origin: RepairOrigin::Original }) == (
        RepairState { text: state.text, queue: tail_items(seq![a, b]) + state.queue }),
{
    let d = a + b;
    lemma_told_apart(a, b);
    assert(d[0] == a[0]);
    assert(trimmed_start(d) =~= d) by {
        assert(skip_white(d, 0) == 0);
    }
    lemma_sign_is_no_marker(d);
    lemma_no_end(d);
    assert(d.last() == b.last());
    assert(b.last() == b.skip(1)[b.len() - 2]);
    assert(own_text(state.queue, d) == d);
}

/// A path that is told apart from an added line behind it: it holds no sign, no white space
/// and no marker, and its file name has an extension.
pub open spec fn is_plain_path(path: Seq<char>) -> bool {
    &&& path.len() > 0
    &&& has_no_sign(path)
    &&& has_no_marker(path)
    &&& forall|k: int| 0 <= k < path.len() ==> !is_white(#[trigger] path[k])
    &&& exists|k: int|
        0 <= k < path.len() && #[trigger] path[k] == '.' && forall|m: int|
            k < m < path.len() ==> path[m] != '/' && path[m] != '\\'
}

/// An added line that is told apart from a path before it: it holds no other sign, no
/// marker and no path separator, and does not start with white space.
pub open spec fn is_told_from_path(b: Seq<char>) -> bool {
    &&& b.len() >= 2 && b[0] == '+'
    &&& has_no_sign(b.skip(1)) && has_no_marker(b.skip(1))
    &&& !is_white(b[1]) && !is_white(b.last())
    &&& !b.contains('/') && !b.contains('\\')
    &&& has_calm_statements(b)
}

proof fn lemma_name_start_in_path(path: Seq<char>, b: Seq<char>, m: int)
    requires
        !b.contains('/') && !b.contains('\\'),
        path.len() <= m <= path.len() + b.len(),
    ensures
        name_start(path + b, m) == name_start(path, path.len() as int),
    decreases m,
{
    let tail = path + b;
    if m > path.len() {
        assert(tail[m - 1] == b[m - 1 - path.len()]);
        assert(!path_separator(tail[m - 1]));
        lemma_name_start_in_path(path, b, m - 1);
    } else {
        lemma_name_start_prefix(path, b, m);
    }
}

proof fn lemma_name_start_prefix(path: Seq<char>, b: Seq<char>, m: int)
    requires
        0 <= m <= path.len(),
    ensures
        name_start(path + b, m) == name_start(path, m),
    decreases m,
{
    if m > 0 {
        assert((path + b)[m - 1] == path[m - 1]);
        lemma_name_start_prefix(path, b, m - 1);
    }
}

proof fn lemma_path_is_divided(path: Seq<char>, b: Seq<char>)
    requires
        is_plain_path(path),
        is_told_from_path(b),
    ensures
        marker_tail_split(path + b) == Some(path.len() as int),
        !is_blank_text(path + b),
{
    let tail = path + b;
    let n = path.len() as int;
    let y = b.skip(1);
    assert(tail =~= path + (seq![b[0]] + y));
    lemma_no_marker_across(path, b[0], y);
    lemma_no_marker(tail);
    assert forall|k: int| 0 <= k < tail.len() && k != n implies !prefix_char(#[trigger] tail[k]) by {
        if k < n {
            assert(tail[k] == path[k]);
        } else {
            assert(tail[k] == y[k - n - 1]);
        }
    }
    assert(tail[n] == '+' && tail[n + 1] == b[1] && tail[n - 1] == path[n - 1]);
    lemma_blank(tail);
    lemma_no_white_sign(tail, n, 1);
    // the place behind the path
    let prefixes = seq!['+'];
    assert(prefixes[0] == '+');
    lemma_name_start_in_path(path, b, tail.len() as int);
    lemma_name_start(path, n);
    let front = tail.subrange(0, n);
    assert(front =~= path);
    lemma_trimmed_end(path);
    assert(trimmed_end(front) == path);
    let dot = choose|k: int|
        0 <= k < path.len() && #[trigger] path[k] == '.' && forall|m: int|
            k < m < path.len() ==> path[m] != '/' && path[m] != '\\';
    let start = file_name_start(path);
    assert(start <= dot) by {
        if start > dot {
            lemma_name_start_is_separator(path, n);
        }
    }
    let name = file_name_part(path);
    assert(name[dot - start] == '.');
    assert(name.contains('.'));
    assert(path.contains('.'));
    assert(prefixes.contains(tail[n]));
    assert(!prefix_char(b[1])) by {
        assert(b[1] == y[0]);
    }
    assert(file_split_candidate(tail, prefixes, n));
    assert(split_score(tail, n) is Some);
    let min_score = i32::MIN as int;
    assert(split_score(tail, n)->0 >= -10);
    assert(usable_split(tail, prefixes, min_score, n) is Some);
    law_best_split_scores_highest(tail, prefixes, min_score, tail.len() as int);
    let best = best_split_before(tail, prefixes, min_score, tail.len() as int);
    assert(best is Some);
    let (i, _) = best->0;
    assert(usable_split(tail, prefixes, min_score, i) is Some);
    assert(prefixes.contains(tail[i]));
    assert(i == n);
    // no dash in the path
    lemma_name_start(path, n);
    lemma_last_before(name, '-', name.len() as int);
    assert(dash_after_extension(path) is None) by {
        if let Some(dash) = last_char_index(name, '-') {
            assert(path[start + dash] == '-');
        }
    }
}

proof fn lemma_no_white_sign(tail: Seq<char>, n: int, i: int)
    requires
        1 <= i,
        1 <= n < tail.len(),
        !is_white(tail[n - 1]),
        forall|k: int| 0 <= k < tail.len() && k != n ==> !prefix_char(#[trigger] tail[k]),
    ensures
        white_prefix_from(tail, i) is None,
    decreases tail.len() - i,
{
    if i < tail.len() {
        if white_prefix_at(tail, i) {
            assert(prefix_char(tail[i]));
            assert(is_ascii_white(tail[i - 1]));
        }
        lemma_no_white_sign(tail, n, i + 1);
    }
}

proof fn lemma_name_start_is_separator(path: Seq<char>, n: int)
    requires
        0 <= n <= path.len(),
    ensures
        name_start(path, n) > 0 ==> path_separator(path[name_start(path, n) - 1]),
    decreases n,
{
    if n > 0 && !path_separator(path[n - 1]) {
        lemma_name_start_is_separator(path, n - 1);
    }
}

proof fn lemma_divided_marker(marker: Seq<char>, path: Seq<char>, b: Seq<char>, state: RepairState)
    requires
        is_file_marker(marker),
        is_plain_path(path),
        is_told_from_path(b),
    ensures
        repair_line(
            state,
            RepairItem { text: marker + path + b, origin: RepairOrigin::Original },
        ) == (RepairState {
            text: state.text + ended(seq![marker + path]),
            queue: seq![tail_item(b)] + state.queue,
        }),
        tail_needs_split(marker + path + b),
{
    let tail = path + b;
    let line = marker + path + b;
    assert(line =~= marker + tail);
    lemma_marker_chars();
    lemma_marked_line(marker, tail);
    lemma_starts_of(line);
    lemma_path_is_divided(path, b);
    let n = path.len() as int;
    assert(tail.subrange(0, n) =~= path);
    assert(tail.subrange(n, tail.len() as int) =~= b);
    lemma_trimmed_end(path);
    assert(trimmed_start(b) =~= b) by {
        assert(skip_white(b, 0) == 0);
    }
    assert(line[4] == marker[4]);
}

// ---------------------------------------------------------------------------
// The run of the repair
// ---------------------------------------------------------------------------
spec fn all_settle(lines: Seq<Seq<char>>) -> bool {
    forall|k: int| 0 <= k < lines.len() ==> settles(#[trigger] lines[k], RepairOrigin::Original)
}

proof fn lemma_settled_run(text: Seq<char>, lines: Seq<Seq<char>>, queue: Seq<RepairItem>)
    requires
        all_settle(lines),
    ensures
        repair_all(RepairState { text, queue: original_items(lines) + queue }) == repair_all(
            RepairState { text: text + ended(lines), queue },
        ),
    decreases lines.len(),
{
    let all = original_items(lines) + queue;
    if lines.len() == 0 {
        assert(all =~= queue);
        assert(text + ended(lines) =~= text);
    } else {
        let rest = lines.skip(1);
        let first = lines[0];
        assert(settles(lines[0], RepairOrigin::Original));
        assert(all[0] == RepairItem { text: first, origin: RepairOrigin::Original });
        assert(all.skip(1) =~= original_items(rest) + queue);
        let state = RepairState { text, queue: all.skip(1) };
        assert(repair_line(state, all[0]) == RepairState {
            text: text + ended(seq![first]),
            queue: all.skip(1),
        });
        law_repair_makes_progress(state, all[0]);
        assert forall|k: int| 0 <= k < rest.len() implies settles(
            #[trigger] rest[k],
            RepairOrigin::Original,
        ) by {
            assert(rest[k] == lines[k + 1]);
        }
        lemma_settled_run(text + ended(seq![first]), rest, queue);
        lemma_ended_front(first, rest);
        assert(lines =~= seq![first] + rest);
        assert(text + ended(seq![first]) + ended(rest) =~= text + ended(lines));
    }
}

proof fn lemma_ended_front(first: Seq<char>, rest: Seq<Seq<char>>)
    ensures
        ended(seq![first] + rest) == ended(seq![first]) + ended(rest),
    decreases rest.len(),
{
    let all = seq![first] + rest;
    if rest.len() == 0 {
        assert(all =~= seq![first]);
        assert(ended(seq![first]) + ended(rest) =~= ended(seq![first]));
    } else {
        lemma_ended_front(first, rest.drop_last());
        assert(all.drop_last() =~= seq![first] + rest.drop_last());
        assert(all.last() == rest.last());
        assert(ended(all) =~= ended(seq![first]) + ended(rest));
    }
}

proof fn lemma_ended_add(a: Seq<Seq<char>>, b: Seq<Seq<char>>)
    ensures
        ended(a + b) == ended(a) + ended(b),
    decreases b.len(),
{
    if b.len() == 0 {
        assert(a + b =~= a);
        assert(ended(a) + ended(b) =~= ended(a));
    } else {
        lemma_ended_add(a, b.drop_last());
        assert((a + b).drop_last() =~= a + b.drop_last());
        assert(ended(a + b) =~= ended(a) + ended(b));
    }
}

/// A waiting line that stays as it is comes behind the text.
proof fn lemma_tail_line(text: Seq<char>, line: Seq<char>, queue: Seq<RepairItem>)
    requires
        settles(line, RepairOrigin::TailSplit),
    ensures
        repair_all(RepairState { text, queue: seq![tail_item(line)] + queue }) == repair_all(
            RepairState { text: text + ended(seq![line]), queue },
        ),
{
    let all = seq![tail_item(line)] + queue;
    assert(all.skip(1) =~= queue);
    let state = RepairState { text, queue };
    law_repair_makes_progress(state, all[0]);
    assert(repair_line(state, RepairItem { text: line, origin: RepairOrigin::TailSplit })
        == RepairState { text: text + ended(seq![line]), queue });
}

// ---------------------------------------------------------------------------
// Tidy patches
// ---------------------------------------------------------------------------
/// No line of the chunk ends with white space, and its context stays behind its marker.
pub open spec fn is_tidy_chunk(chunk: WrittenChunk) -> bool {
    &&& chunk.context matches Some(Some(text)) ==> is_tidy_context(text)
    &&& forall|i: int|
        0 <= i < chunk.changes.len() ==> !is_white(
            change_line(#[trigger] chunk.changes[i]).last(),
        )
}

pub open spec fn is_tidy_hunk(hunk: WrittenHunk) -> bool {
    match hunk {
        WrittenHunk::Add { lines, .. } => forall|i: int|
            0 <= i < lines.len() ==> !is_white((seq!['+'] + #[trigger] lines[i]).last()),
        WrittenHunk::Delete { .. } => true,
        WrittenHunk::Update { move_path, chunks, .. } => {
            &&& move_path matches Some(dest) ==> is_path(dest)
            &&& forall|i: int| 0 <= i < chunks.len() ==> is_tidy_chunk(#[trigger] chunks[i])
        },
    }
}

/// Every line stays as it is and is not the end marker.
spec fn are_fine(lines: Seq<Seq<char>>) -> bool {
    forall|k: int|
        0 <= k < lines.len() ==> settles(#[trigger] lines[k], RepairOrigin::Original) && is_plain(
            lines[k],
        )
}

proof fn lemma_are_fine(a: Seq<Seq<char>>, b: Seq<Seq<char>>)
    requires
        are_fine(a),
        are_fine(b),
    ensures
        are_fine(a + b),
{
    let all = a + b;
    assert forall|k: int| 0 <= k < all.len() implies settles(
        #[trigger] all[k],
        RepairOrigin::Original,
    ) && is_plain(all[k]) by {
        if k < a.len() {
            assert(all[k] == a[k]);
        } else {
            assert(all[k] == b[k - a.len()]);
        }
    }
}

/// Some text behind a context marker.
proof fn lemma_some_context() -> (text: Seq<char>)
    ensures
        is_tidy_context(text),
{
    let text = seq!['x'];
    reveal_strlit("*** ");
    reveal_strlit("@@");
    assert(has_no_marker(text));
    assert(skip_white(text, 0) == 0);
    assert(trimmed_start(text) =~= text);
    text
}

proof fn lemma_chunk_is_fine(chunk: WrittenChunk, first: bool)
    requires
        is_chunk(chunk, first),
        is_calm_chunk(chunk),
        is_tidy_chunk(chunk),
    ensures
        are_fine(chunk_lines(chunk)),
{
    let text = match chunk.context {
        Some(Some(text)) => text,
        _ => lemma_some_context(),
    };
    lemma_context_marker_settles(text);
    lemma_marker_settles(EOF_MARKER@);
    lemma_marker_chars();
    let lines = change_lines(chunk.changes);
    assert forall|k: int| 0 <= k < lines.len() implies settles(
        #[trigger] lines[k],
        RepairOrigin::Original,
    ) && is_plain(lines[k]) by {
        let change = chunk.changes[k];
        assert(lines[k] == change_line(change));
        assert(lines[k][0] == change.0);
        lemma_calm_line_settles(lines[k], RepairOrigin::Original);
    }
    let head = context_lines(chunk);
    let end = end_lines(chunk);
    assert(EOF_MARKER@ != END_PATCH_MARKER@);
    lemma_are_fine(head, lines);
    lemma_are_fine(head + lines, end);
}

proof fn lemma_chunks_are_fine(chunks: Seq<WrittenChunk>, first: bool)
    requires
        are_chunks(chunks, first),
        forall|i: int|
            0 <= i < chunks.len() ==> is_calm_chunk(#[trigger] chunks[i])
                && is_tidy_chunk(chunks[i]),
    ensures
        are_fine(all_chunk_lines(chunks)),
    decreases chunks.len(),
{
    if chunks.len() > 0 {
        let rest = chunks.skip(1);
        assert forall|i: int| 0 <= i < rest.len() implies is_calm_chunk(
            #[trigger] rest[i],
        ) && is_tidy_chunk(rest[i]) && is_chunk(rest[i], false) by {
            assert(rest[i] == chunks[i + 1]);
        }
        assert(is_chunk(chunks[0], first && 0int == 0));
        lemma_chunk_is_fine(chunks[0], first);
        lemma_chunks_are_fine(rest, false);
        lemma_are_fine(chunk_lines(chunks[0]), all_chunk_lines(rest));
    }
}

proof fn lemma_hunk_is_fine(hunk: WrittenHunk)
    requires
        is_hunk(hunk),
        is_calm_hunk(hunk),
        is_tidy_hunk(hunk),
    ensures
        are_fine(hunk_lines(hunk)),
{
    match hunk {
        WrittenHunk::Add { path, lines } => {
            lemma_file_marker_settles(ADD_FILE_MARKER@, path);
            let added = added_lines(lines);
            assert forall|k: int| 0 <= k < added.len() implies settles(
                #[trigger] added[k],
                RepairOrigin::Original,
            ) && is_plain(added[k]) by {
                assert(added[k] == seq!['+'] + lines[k]);
                lemma_calm_line_settles(added[k], RepairOrigin::Original);
            }
            lemma_are_fine(seq![ADD_FILE_MARKER@ + path], added);
        },
        WrittenHunk::Delete { path } => {
            lemma_file_marker_settles(DELETE_FILE_MARKER@, path);
        },
        WrittenHunk::Update { path, move_path, chunks } => {
            lemma_file_marker_settles(UPDATE_FILE_MARKER@, path);
            if let Some(dest) = move_path {
                lemma_file_marker_settles(MOVE_TO_MARKER@, dest);
            }
            lemma_chunks_are_fine(chunks, true);
            let head = seq![UPDATE_FILE_MARKER@ + path];
            let moves = move_lines(move_path);
            lemma_are_fine(head, moves);
            lemma_are_fine(head + moves, all_chunk_lines(chunks));
        },
    }
}

proof fn lemma_hunks_are_fine(hunks: Seq<WrittenHunk>)
    requires
        are_hunks(hunks),
        forall|i: int|
            0 <= i < hunks.len() ==> is_calm_hunk(#[trigger] hunks[i]) && is_tidy_hunk(hunks[i]),
    ensures
        are_fine(all_hunk_lines(hunks)),
    decreases hunks.len(),
{
    if hunks.len() > 0 {
        let rest = hunks.skip(1);
        assert forall|i: int| 0 <= i < rest.len() implies is_calm_hunk(#[trigger] rest[i])
            && is_tidy_hunk(rest[i]) && is_hunk(rest[i]) by {
            assert(rest[i] == hunks[i + 1]);
        }
        assert(is_hunk(hunks[0]));
        lemma_hunk_is_fine(hunks[0]);
        lemma_hunks_are_fine(rest);
        lemma_are_fine(hunk_lines(hunks[0]), all_hunk_lines(rest));
    }
}

// ---------------------------------------------------------------------------
// What follows the run
// ---------------------------------------------------------------------------
proof fn lemma_one_end_line(lines: Seq<Seq<char>>, i: int)
    requires
        lines.len() > 0,
        0 <= i < lines.len(),
        forall|k: int|
            0 <= k < lines.len() - 1 ==> trimmed(#[trigger] lines[k]) != END_PATCH_MARKER@,
    ensures
        end_line_from(lines, i) >= lines.len() - 1,
    decreases lines.len() - i,
{
    reveal_with_fuel(end_line_from, 2);
    if i < lines.len() - 1 {
        assert(!is_end_line(lines[i]));
        lemma_one_end_line(lines, i + 1);
    }
}

proof fn lemma_prefixes_stay(lines: Seq<Seq<char>>, n: int)
    requires
        0 <= n <= lines.len(),
        forall|k: int, state: PrefixState|
            0 <= k < lines.len() ==> (#[trigger] prefix_step(state, lines[k])).1 == lines[k],
    ensures
        prefixed(lines, n).1 =~= lines.take(n),
    decreases n,
{
    if n > 0 {
        lemma_prefixes_stay(lines, n - 1);
        let (state, out) = prefixed(lines, n - 1);
        assert(prefix_step(state, lines[n - 1]).1 == lines[n - 1]);
        assert(lines.take(n - 1).push(lines[n - 1]) =~= lines.take(n));
    }
}

proof fn lemma_ended_is_joined(lines: Seq<Seq<char>>)
    requires
        lines.len() > 0,
    ensures
        ended(lines) == joined(lines).push('\n'),
    decreases lines.len(),
{
    if lines.len() == 1 {
        assert(ended(lines.drop_last()) =~= Seq::<char>::empty());
        assert(ended(lines) =~= lines[0].push('\n'));
    } else {
        lemma_ended_is_joined(lines.drop_last());
        assert(ended(lines) =~= joined(lines).push('\n'));
    }
}

/// The second line goes on behind the first one without a line feed, and can be told apart
/// from it.
pub open spec fn is_joint(a: Seq<char>, b: Seq<char>) -> bool {
    ||| are_told_apart(a, b)
    ||| exists|marker: Seq<char>, path: Seq<char>|
        {
            &&& #[trigger] is_file_marker(marker) && #[trigger] is_plain_path(path)
            &&& a == marker + path
            &&& is_told_from_path(b)
        }
}

/// The lines with line `k` and the one behind it run together.
pub open spec fn run_together(lines: Seq<Seq<char>>, k: int) -> Seq<Seq<char>> {
    lines.take(k) + (seq![lines[k] + lines[k + 1]] + lines.skip(k + 2))
}

proof fn lemma_calm_signs_of(b: Seq<char>)
    requires
        b.len() > 0,
        has_no_sign(b.skip(1)),
    ensures
        has_calm_signs(b),
{
    assert forall|j: int| 1 <= j < b.len() implies !prefix_char(#[trigger] b[j]) by {
        assert(b[j] == b.skip(1)[j - 1]);
    }
}

proof fn lemma_joint_is_repaired(a: Seq<char>, b: Seq<char>, text: Seq<char>, rest: Seq<RepairItem>)
    requires
        is_joint(a, b),
    ensures
        repair_all(
            RepairState {
                text,
                queue: seq![RepairItem { text: a + b, origin: RepairOrigin::Original }] + rest,
            },
        ) == repair_all(RepairState { text: text + ended(seq![a]) + ended(seq![b]), queue: rest }),
        squashed_pieces(a + b) is Some || tail_needs_split(a + b),
{
    let line = RepairItem { text: a + b, origin: RepairOrigin::Original };
    let queue = seq![line] + rest;
    assert(queue.skip(1) =~= rest);
    let state = RepairState { text, queue: rest };
    law_repair_makes_progress(state, line);
    if are_told_apart(a, b) {
        lemma_told_apart(a, b);
        lemma_divided_line(a, b, state);
        lemma_calm_signs_of(a);
        lemma_calm_signs_of(b);
        lemma_calm_line_settles(a, RepairOrigin::TailSplit);
        lemma_calm_line_settles(b, RepairOrigin::TailSplit);
        let two = tail_items(seq![a, b]) + rest;
        assert(two =~= seq![tail_item(a)] + (seq![tail_item(b)] + rest));
        lemma_tail_line(text, a, seq![tail_item(b)] + rest);
        lemma_tail_line(text + ended(seq![a]), b, rest);
    } else {
        let (marker, path) = choose|marker: Seq<char>, path: Seq<char>|
            {
                &&& #[trigger] is_file_marker(marker) && #[trigger] is_plain_path(path)
                &&& a == marker + path
                &&& is_told_from_path(b)
            };
        lemma_divided_marker(marker, path, b, state);
        lemma_calm_signs_of(b);
        lemma_calm_line_settles(b, RepairOrigin::TailSplit);
        lemma_tail_line(text + ended(seq![a]), b, rest);
    }
}

/// A patch in which two lines were run together is read as if they were not: as an added
/// or removed line with another one behind it, or as the line of a file marker with the
/// first line of the hunk behind it.
pub proof fn law_lines_run_together_are_read(hunks: Seq<WrittenHunk>, k: int)
    requires
        are_hunks(hunks),
        separable(written_lines(hunks)),
        forall|i: int|
            0 <= i < hunks.len() ==> is_calm_hunk(#[trigger] hunks[i]) && is_tidy_hunk(hunks[i]),
        1 <= k,
        k + 2 < written_lines(hunks).len(),
        is_joint(written_lines(hunks)[k], written_lines(hunks)[k + 1]),
    ensures
        parse_text(joined(run_together(written_lines(hunks), k)), ParseMode::Lenient) == Ok::<
            PatchModel,
            ParseErrorModel,
        >(
            PatchModel {
                patch: joined(written_lines(hunks)),
                hunks: hunk_meanings(hunks),
                workdir: None,
            },
        ),
{
    let lines = written_lines(hunks);
    let merged = run_together(lines, k);
    let patch = joined(merged);
    lemma_merged_patch(lines, k);
    lemma_fine_patch(hunks);
    lemma_merged_body(lines, k);
    let body = ended(lines);
    lemma_repaired_lines(lines, patch, body);
    assert(repaired_patch(patch) == joined(lines));
    lemma_merged_needs_repair(lines, k);
    // what is parsed in the end
    lemma_marker_chars();
    law_joined_lines_split_again(lines);
    lemma_joined_ends(lines);
    lemma_tight_text(joined(lines));
    lemma_tight_text(BEGIN_PATCH_MARKER@);
    lemma_tight_text(END_PATCH_MARKER@);
    assert(lines[0] == BEGIN_PATCH_MARKER@);
    assert(lines.last() == END_PATCH_MARKER@);
    assert(boundaries(lines) is Ok);
    law_written_lines_are_read(hunks);
}

/// The text of the merged lines is split into them, and is taken as it is.
proof fn lemma_merged_patch(lines: Seq<Seq<char>>, k: int)
    requires
        separable(lines),
        1 <= k,
        k + 2 < lines.len(),
        lines[0] == BEGIN_PATCH_MARKER@,
        lines.last() == END_PATCH_MARKER@,
    ensures
        ({
            let merged = run_together(lines, k);
            let patch = joined(merged);
            &&& line_seq(patch) == merged
            &&& normalized(patch) == patch
            &&& patch.len() > 0 && patch.last() != '\n'
        }),
{
    let merged = run_together(lines, k);
    let patch = joined(merged);
    lemma_marker_chars();
    assert(merged[0] == lines[0]);
    assert(merged.last() == lines.last());
    assert forall|i: int| 0 <= i < merged.len() implies !(#[trigger] merged[i]).contains('\n') && (
    merged[i].len() > 0 ==> merged[i].last() != '\r') by {
        if i < k {
            assert(merged[i] == lines[i]);
        } else if i > k {
            assert(merged[i] == lines[i + 1]);
        } else {
            let a = lines[k];
            let b = lines[k + 1];
            assert(merged[k] == a + b);
            assert(!a.contains('\n') && !b.contains('\n'));
            if (a + b).contains('\n') {
                let j = choose|j: int| 0 <= j < (a + b).len() && (a + b)[j] == '\n';
                if j < a.len() {
                    assert(a[j] == '\n');
                } else {
                    assert(b[j - a.len()] == '\n');
                }
            }
            if b.len() > 0 {
                assert((a + b).last() == b.last());
            } else {
                assert(a + b =~= a);
            }
        }
    }
    law_joined_lines_split_again(merged);
    lemma_joined_ends(merged);
    assert(before_feeds(patch, patch.len() as int) == patch.len());
    assert(patch.take(patch.len() as int) =~= patch);
}

spec fn is_fine_patch(lines: Seq<Seq<char>>) -> bool {
    &&& lines.len() >= 2
    &&& lines[0] == BEGIN_PATCH_MARKER@ && lines.last() == END_PATCH_MARKER@
    &&& are_fine(lines.drop_last())
    &&& settles(END_PATCH_MARKER@, RepairOrigin::Original)
}

proof fn lemma_fine_patch(hunks: Seq<WrittenHunk>)
    requires
        are_hunks(hunks),
        forall|i: int|
            0 <= i < hunks.len() ==> is_calm_hunk(#[trigger] hunks[i]) && is_tidy_hunk(hunks[i]),
    ensures
        is_fine_patch(written_lines(hunks)),
{
    let lines = written_lines(hunks);
    lemma_hunks_are_fine(hunks);
    lemma_marker_settles(BEGIN_PATCH_MARKER@);
    lemma_marker_settles(END_PATCH_MARKER@);
    lemma_marker_chars();
    let head = seq![BEGIN_PATCH_MARKER@];
    assert(BEGIN_PATCH_MARKER@ != END_PATCH_MARKER@);
    assert(are_fine(head));
    lemma_are_fine(head, all_hunk_lines(hunks));
    assert(lines.drop_last() =~= head + all_hunk_lines(hunks));
}

proof fn lemma_merged_body(lines: Seq<Seq<char>>, k: int)
    requires
        is_fine_patch(lines),
        1 <= k,
        k + 2 < lines.len(),
        is_joint(lines[k], lines[k + 1]),
    ensures
        repair_all(
            RepairState { text: Seq::empty(), queue: original_items(run_together(lines, k)) },
        ) == ended(lines),
{
    let merged = run_together(lines, k);
    let a = lines[k];
    let b = lines[k + 1];
    let front = lines.take(k);
    let back = lines.skip(k + 2);
    let none = Seq::<char>::empty();
    let rest = original_items(back);
    let line = RepairItem { text: a + b, origin: RepairOrigin::Original };
    assert forall|i: int| 0 <= i < lines.len() implies settles(
        #[trigger] lines[i],
        RepairOrigin::Original,
    ) by {
        if i < lines.len() - 1 {
            assert(lines.drop_last()[i] == lines[i]);
        }
    }
    assert(all_settle(front)) by {
        assert forall|i: int| 0 <= i < front.len() implies settles(
            #[trigger] front[i],
            RepairOrigin::Original,
        ) by {
            assert(front[i] == lines[i]);
        }
    }
    assert(all_settle(back)) by {
        assert forall|i: int| 0 <= i < back.len() implies settles(
            #[trigger] back[i],
            RepairOrigin::Original,
        ) by {
            assert(back[i] == lines[k + 2 + i]);
        }
    }
    assert(original_items(merged) =~= original_items(front) + (seq![line] + rest));
    lemma_settled_run(none, front, seq![line] + rest);
    let text = none + ended(front);
    lemma_joint_is_repaired(a, b, text, rest);
    let two = text + ended(seq![a]) + ended(seq![b]);
    assert(rest + Seq::<RepairItem>::empty() =~= rest);
    lemma_settled_run(two, back, Seq::empty());
    lemma_ended_add(front, seq![a]);
    lemma_ended_add(front + seq![a], seq![b]);
    lemma_ended_add(front + seq![a] + seq![b], back);
    assert(lines =~= front + seq![a] + seq![b] + back);
    assert(two + ended(back) =~= ended(lines));
}

proof fn lemma_repaired_lines(lines: Seq<Seq<char>>, patch: Seq<char>, body: Seq<char>)
    requires
        is_fine_patch(lines),
        separable(lines),
        body == ended(lines),
        body == repair_all(
            RepairState { text: Seq::empty(), queue: original_items(line_seq(patch)) },
        ),
        patch.len() > 0,
        patch.last() != '\n',
    ensures
        repaired_patch(patch) == joined(lines),
{
    lemma_lines_of_ended(lines);
    let all = line_seq(body);
    assert(all =~= lines) by {
        assert forall|i: int| 0 <= i < lines.len() implies all[i] == lines[i] by {
            assert(all[i] == without_cr(lines[i]));
            assert(lines[i].len() > 0 ==> lines[i].last() != '\r');
        }
    }
    assert forall|i: int| 0 <= i < lines.len() - 1 implies trimmed(#[trigger] lines[i])
        != END_PATCH_MARKER@ by {
        assert(lines.drop_last()[i] == lines[i]);
        assert(is_plain(lines.drop_last()[i]));
    }
    lemma_one_end_line(lines, 0);
    let first = end_line_from(lines, 0);
    assert(end_line_from(lines, first + 1) >= lines.len());
    assert(truncated(body) == body);
    lemma_marker_settles(END_PATCH_MARKER@);
    assert forall|i: int, state: PrefixState| 0 <= i < lines.len() implies (
    #[trigger] prefix_step(state, lines[i])).1 == lines[i] by {
        if i < lines.len() - 1 {
            assert(lines.drop_last()[i] == lines[i]);
            assert(is_plain(lines.drop_last()[i]));
        } else {
            assert(lines[i] == END_PATCH_MARKER@);
        }
    }
    lemma_prefixes_stay(lines, lines.len() as int);
    assert(lines.take(lines.len() as int) =~= lines);
    assert(prefixed_lines(lines) == lines);
    lemma_ended_is_joined(lines);
    assert(joined(lines).push('\n').drop_last() =~= joined(lines));
}

proof fn lemma_merged_needs_repair(lines: Seq<Seq<char>>, k: int)
    requires
        1 <= k,
        k + 2 < lines.len(),
        is_joint(lines[k], lines[k + 1]),
        line_seq(joined(run_together(lines, k))) == run_together(lines, k),
    ensures
        needs_repair(joined(run_together(lines, k))),
{
    let merged = run_together(lines, k);
    assert(merged[k] == lines[k] + lines[k + 1]);
    lemma_joint_is_repaired(lines[k], lines[k + 1], Seq::empty(), Seq::empty());
    assert(line_needs_repair(merged, k));
}

} // verus!
