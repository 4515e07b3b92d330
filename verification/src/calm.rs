//! Patches that need no repair.
//!
//! Code holds plus and minus signs, semicolons and question marks of its own. The laws
//! of this module say which lines of a patch are never taken for lines that were run
//! together, by what stands in them alone.
use vstd::prelude::*;

use crate::diff_line::{
    ascii_or_other, back_over_white, diff_line, point_pieces, split_candidate, split_points,
    squashed_pieces, without_trailing_prefix,
};
use crate::file_marker::{
    best_split, best_split_before, context_break, context_break_from, context_parts,
    dash_after_extension, embedded_end_patch, file_marker_tail, file_name_part, file_name_start,
    law_best_split_scores_highest, lemma_name_start, marker_tail_split, split_score,
    tail_needs_split, usable_split, white_prefix_at, white_prefix_from,
};
use crate::grammar::{
    added_lines, all_chunk_lines, all_hunk_lines, are_hunks, change_line, change_lines,
    chunk_lines, context_lines, end_lines, hunk_lines, hunk_meanings, law_written_patch_is_read,
    move_lines, written_lines, WrittenChunk, WrittenHunk,
};
use crate::lines::joined;
use crate::markers::{
    contains_marker, first_marker, first_structural_marker, lemma_contains_marker,
    lemma_structural_marker_start, marker_at, prefix_char, word_char, ADD_FILE_MARKER,
    BEGIN_PATCH_MARKER, CHANGE_CONTEXT_MARKER, DELETE_FILE_MARKER, EMPTY_CHANGE_CONTEXT_MARKER,
    END_PATCH_MARKER, EOF_MARKER, MOVE_TO_MARKER, UPDATE_FILE_MARKER,
};
use crate::parse_laws::{law_joined_lines_split_again, lemma_tight_text, separable};
use crate::parser::{parse_text, ParseErrorModel, ParseMode, PatchModel};
use crate::repair::{line_needs_repair, needs_repair};
use crate::text::{
    contains_text, has_prefix, is_ascii_white, is_digit, is_letter, is_white, last_char_index,
    lemma_last_before, lemma_skip_ascii_white, lemma_skip_white, lemma_trimmed_start, occurs_at,
    skip_ascii_white, skip_white, trimmed_start,
};

verus! {

// ---------------------------------------------------------------------------
// Calm lines
// ---------------------------------------------------------------------------
/// Nothing but ASCII white space stands between positions `i` and `j` of a text, and
/// something else at `j`.
pub open spec fn next_is_at(s: Seq<char>, i: int, j: int) -> bool {
    &&& i < j < s.len() && !is_ascii_white(s[j])
    &&& forall|k: int| i < k < j ==> is_ascii_white(#[trigger] s[k])
}

/// The sign at `j` of a line belongs to code, by what follows at `k`: it is part of an
/// operator that assigns or of an arrow; or it is a dash inside a word, behind a space,
/// between two brackets or two quotes, or before an index; or a plus between two operands.
pub open spec fn belongs_to_code(line: Seq<char>, j: int, k: int) -> bool {
    &&& next_is_at(line, j, k)
    &&& {
        ||| line[k] == '='
        ||| line[j] == '-' && line[k] == '>'
        ||| line[j] == '-' && word_char(line[j - 1]) && word_char(line[k])
        ||| line[j] == '-' && line[j - 1] == ' '
        ||| {
            &&& line[j] == '-'
            &&& line[j - 1] == ')' || line[j - 1] == ']' || line[j - 1] == '}'
            &&& line[k] == '{' || line[k] == '(' || line[k] == '['
        }
        ||| line[j] == '-' && line[j - 1] == '[' && is_digit(line[k])
        ||| line[j] == '-' && line[j - 1] == '"' && line[k] == '"'
        ||| {
            &&& line[j] == '+' && k == j + 1 && line[0] != '-'
            &&& word_char(line[j - 1]) && word_char(line[k])
            &&& !is_digit(line[j - 1]) || is_digit(line[k])
        }
        ||| {
            &&& line[j] == '+' && 3 <= j && line[j - 1] == ' '
            &&& word_char(line[k]) || line[k] == '('
            &&& word_char(line[j - 2]) || line[j - 2] == ')' || line[j - 2] == ']' || line[j - 2]
                == '}'
        }
    }
}

/// Every plus or minus of a line behind its first character belongs to code. In a context
/// line no white space stands before it but a single space behind a word.
pub open spec fn has_calm_signs(line: Seq<char>) -> bool {
    forall|j: int|
        1 <= j < line.len() && prefix_char(#[trigger] line[j]) ==> {
            &&& exists|k: int| belongs_to_code(line, j, k)
            &&& line[0] == ' ' && is_white(line[j - 1]) ==> 3 <= j && line[j - 1] == ' '
                && word_char(line[j - 2])
        }
}

/// No statement of a line is followed by a further line: behind a semicolon or a question
/// mark comes neither an attribute nor, after two white space characters or more, a
/// letter, an underscore, a closing bracket or a hash sign.
pub open spec fn has_calm_statements(line: Seq<char>) -> bool {
    forall|i: int, j: int|
        1 <= i && (line[i] == ';' || line[i] == '?') && #[trigger] next_is_at(line, i, j) ==> {
            &&& !occurs_at(line, "#["@, j) && !occurs_at(line, "#!["@, j)
            &&& j - i > 2 ==> !is_letter(line[j]) && line[j] != '_' && line[j] != '}' && line[j]
                != ')' && line[j] != '#'
        }
}

/// The text holds no marker of a patch.
pub open spec fn has_no_marker(s: Seq<char>) -> bool {
    !contains_text(s, "*** "@) && !contains_text(s, "@@"@)
}

/// A diff line that nobody could take for several.
pub open spec fn is_calm_line(line: Seq<char>) -> bool {
    &&& has_no_marker(line.skip(1))
    &&& has_calm_signs(line)
    &&& has_calm_statements(line)
}

/// A path that nobody could take for a path and more: it holds no marker and no plus, and
/// every minus stands inside a word before the last dot.
pub open spec fn is_calm_path(path: Seq<char>) -> bool {
    &&& has_no_marker(path)
    &&& !path.contains('+')
    &&& forall|j: int|
        0 <= j < path.len() && #[trigger] path[j] == '-' ==> {
            &&& 1 <= j && j + 1 < path.len()
            &&& word_char(path[j - 1]) && word_char(path[j + 1])
            &&& exists|k: int| j < k < path.len() && #[trigger] path[k] == '.'
        }
}

// ---------------------------------------------------------------------------
// Why they are left alone
// ---------------------------------------------------------------------------
proof fn lemma_skip_to(s: Seq<char>, i: int, j: int)
    requires
        0 <= i,
        next_is_at(s, i - 1, j),
    ensures
        skip_ascii_white(s, i) == j,
    decreases j - i,
{
    if i < j {
        assert(is_ascii_white(s[i]));
        assert(next_is_at(s, i, j));
        lemma_skip_to(s, i + 1, j);
    }
}

proof fn lemma_next_is_at(s: Seq<char>, i: int)
    requires
        0 <= i < s.len(),
    ensures
        skip_ascii_white(s, i + 1) < s.len() ==> next_is_at(s, i, skip_ascii_white(s, i + 1)),
        i < skip_ascii_white(s, i + 1) <= s.len(),
        forall|k: int| i < k < skip_ascii_white(s, i + 1) ==> is_ascii_white(#[trigger] s[k]),
{
    lemma_skip_ascii_white(s, i + 1);
}

proof fn lemma_marker_text(s: Seq<char>, i: int)
    requires
        marker_at(s, i),
    ensures
        occurs_at(s, "*** "@, i) || occurs_at(s, "@@"@, i),
{
    reveal_strlit("*** Begin Patch");
    reveal_strlit("*** End Patch");
    reveal_strlit("*** Add File: ");
    reveal_strlit("*** Delete File: ");
    reveal_strlit("*** Update File: ");
    reveal_strlit("*** Move to: ");
    reveal_strlit("*** End of File");
    reveal_strlit("@@ ");
    reveal_strlit("@@");
    reveal_strlit("*** ");
    lemma_longer_text(s, BEGIN_PATCH_MARKER@, "*** "@, i);
    lemma_longer_text(s, END_PATCH_MARKER@, "*** "@, i);
    lemma_longer_text(s, ADD_FILE_MARKER@, "*** "@, i);
    lemma_longer_text(s, DELETE_FILE_MARKER@, "*** "@, i);
    lemma_longer_text(s, UPDATE_FILE_MARKER@, "*** "@, i);
    lemma_longer_text(s, MOVE_TO_MARKER@, "*** "@, i);
    lemma_longer_text(s, EOF_MARKER@, "*** "@, i);
    lemma_longer_text(s, CHANGE_CONTEXT_MARKER@, "@@"@, i);
}

/// Where a text stands, its own start stands too.
proof fn lemma_longer_text(s: Seq<char>, p: Seq<char>, start: Seq<char>, i: int)
    ensures
        occurs_at(s, p, i) && start.len() <= p.len() && p.take(start.len() as int) =~= start
            ==> occurs_at(s, start, i),
{
    if occurs_at(s, p, i) && start.len() <= p.len() && p.take(start.len() as int) =~= start {
        assert(s.subrange(i, i + start.len()) =~= start) by {
            assert forall|k: int| 0 <= k < start.len() implies s.subrange(i, i + start.len())[k]
                == start[k] by {
                assert(s.subrange(i, i + p.len())[k] == p[k]);
                assert(p.take(start.len() as int)[k] == start[k]);
            }
        }
    }
}

/// A text without markers holds none of any kind.
pub proof fn lemma_no_marker(s: Seq<char>)
    requires
        has_no_marker(s),
    ensures
        !contains_marker(s),
        first_marker(s) is None,
        first_structural_marker(s) is None,
{
    assert forall|i: int| !#[trigger] marker_at(s, i) by {
        if marker_at(s, i) {
            lemma_marker_text(s, i);
        }
    }
    lemma_contains_marker(s);
    lemma_structural_marker_start(s);
}

/// A part of a text without markers holds none either.
pub proof fn lemma_no_marker_in_part(s: Seq<char>, a: int, b: int)
    requires
        has_no_marker(s),
        0 <= a <= b <= s.len(),
    ensures
        has_no_marker(s.subrange(a, b)),
{
    lemma_part(s, "*** "@, a, b);
    lemma_part(s, "@@"@, a, b);
}

proof fn lemma_part(s: Seq<char>, p: Seq<char>, a: int, b: int)
    requires
        0 <= a <= b <= s.len(),
    ensures
        contains_text(s.subrange(a, b), p) ==> contains_text(s, p),
{
    let t = s.subrange(a, b);
    if contains_text(t, p) {
        let i = choose|i: int| #[trigger] occurs_at(t, p, i);
        assert(s.subrange(a + i, a + i + p.len()) =~= t.subrange(i, i + p.len()));
        assert(occurs_at(s, p, a + i));
    }
}

proof fn lemma_calm_line_is_not_split(d: Seq<char>, i: int)
    requires
        has_calm_signs(d),
        1 <= i < d.len(),
    ensures
        !split_candidate(d, i),
{
    let k = skip_ascii_white(d, i + 1);
    lemma_next_is_at(d, i);
    if prefix_char(d[i]) {
        let n = choose|n: int| belongs_to_code(d, i, n);
        lemma_skip_to(d, i + 1, n);
        if split_candidate(d, i) && d[i] == '+' && d[n] != '=' {
            assert(is_ascii_white(d[i - 1]));
            reveal_with_fuel(back_over_white, 3);
            assert(!is_ascii_white(d[i - 2]));
            assert(back_over_white(d, i - 1) == i - 2);
        }
    } else if d[i] == ' ' && d[0] == ' ' && k < d.len() && prefix_char(ascii_or_other(d[k])) {
        assert(prefix_char(d[k]));
        assert(1 <= k < d.len());
        assert(k == i + 1) by {
            if k > i + 1 {
                assert(is_ascii_white(d[k - 1]));
                if k - 2 > i {
                    assert(is_ascii_white(d[k - 2]));
                }
            }
        }
        assert(word_char(d[i - 1]));
    }
}

proof fn lemma_no_split_points(d: Seq<char>, i: int, last: int)
    requires
        has_calm_signs(d),
        1 <= i,
    ensures
        split_points(d, i, last).len() == 0,
    decreases d.len() - i,
{
    if i < d.len() {
        lemma_calm_line_is_not_split(d, i);
        lemma_no_split_points(d, i + 1, last);
    }
}

/// A calm line that is a diff line is one as it stands.
pub proof fn lemma_calm_diff_line(line: Seq<char>)
    requires
        has_calm_signs(line),
        line.len() > 0,
        prefix_char(line[0]) || line[0] == ' ',
    ensures
        diff_line(line) matches Some(d) ==> d == line,
        prefix_char(line[0]) ==> diff_line(line) == Some(line),
{
    lemma_trimmed_start(line);
    lemma_skip_white(line, 0);
    let n = skip_white(line, 0);
    if prefix_char(line[0]) {
        assert(n == 0);
        assert(trimmed_start(line) =~= line);
    } else if n < line.len() && prefix_char(line[n]) {
        assert(is_white(line[n - 1]));
        assert(word_char(line[n - 2]));
        assert(is_white(line[n - 2]));
    }
}

proof fn lemma_calm_line_has_no_pieces(line: Seq<char>)
    requires
        has_calm_signs(line),
        line.len() > 0,
        prefix_char(line[0]) || line[0] == ' ',
        has_no_marker(line.skip(1)),
    ensures
        squashed_pieces(line) is None,
{
    lemma_calm_diff_line(line);
    if let Some(d) = diff_line(line) {
        let content = d.subrange(1, d.len() as int);
        assert(content =~= line.skip(1));
        lemma_no_marker(content);
        lemma_no_split_points(d, 1, 0);
        assert(point_pieces(d) is None);
    }
}

proof fn lemma_no_context_break(content: Seq<char>, i: int)
    requires
        0 <= i,
        forall|k: int| 0 <= k < content.len() ==> !#[trigger] context_break(content, k),
    ensures
        context_break_from(content, i) is None,
    decreases content.len() - i,
{
    if i < content.len() {
        lemma_no_context_break(content, i + 1);
    }
}

/// What stands behind the first character stands one place further in the whole.
pub proof fn lemma_shifted_occurrence(line: Seq<char>, p: Seq<char>, j: int)
    requires
        line.len() > 0,
        0 <= j,
    ensures
        occurs_at(line.skip(1), p, j) == occurs_at(line, p, j + 1),
{
    if j + p.len() <= line.len() - 1 {
        assert(line.skip(1).subrange(j, j + p.len()) =~= line.subrange(j + 1, j + 1 + p.len()));
    }
}

proof fn lemma_calm_line_has_no_parts(line: Seq<char>)
    requires
        is_calm_line(line),
        line.len() > 0,
        prefix_char(line[0]) || line[0] == ' ',
    ensures
        context_parts(line) is None,
{
    lemma_calm_diff_line(line);
    if let Some(d) = diff_line(line) {
        let content = d.subrange(1, d.len() as int);
        assert(content =~= line.skip(1));
        assert forall|i: int| 0 <= i < content.len() implies !#[trigger] context_break(
            content,
            i,
        ) by {
            let j = skip_ascii_white(content, i + 1);
            lemma_next_is_at(content, i);
            if context_break(content, i) {
                assert(line[i + 1] == content[i]);
                assert(next_is_at(line, i + 1, j + 1)) by {
                    assert(line[j + 1] == content[j]);
                    assert forall|k: int| i + 1 < k < j + 1 implies is_ascii_white(
                        #[trigger] line[k],
                    ) by {
                        assert(line[k] == content[k - 1]);
                    }
                }
                lemma_shifted_occurrence(line, "#["@, j);
                lemma_shifted_occurrence(line, "#!["@, j);
            }
        }
        lemma_no_context_break(content, 0);
    }
}

/// Nothing about a line asks for repair, whatever line follows it.
pub open spec fn needs_nothing(line: Seq<char>) -> bool {
    &&& squashed_pieces(line) is None
    &&& context_parts(line) is None
    &&& !tail_needs_split(line)
    &&& !embedded_end_patch(line)
    &&& forall|next: Seq<char>| #[trigger] without_trailing_prefix(line, next) is None
}

/// A calm diff line needs no repair.
pub proof fn law_calm_line_is_left_alone(line: Seq<char>)
    requires
        is_calm_line(line),
        line.len() > 0,
        prefix_char(line[0]) || line[0] == ' ',
    ensures
        needs_nothing(line),
{
    lemma_calm_line_has_no_pieces(line);
    lemma_calm_line_has_no_parts(line);
    lemma_calm_diff_line(line);
    let t = trimmed_start(line);
    lemma_trimmed_start(line);
    lemma_skip_white(line, 0);
    let n = skip_white(line, 0);
    if prefix_char(line[0]) {
        assert(n == 0);
        assert(t =~= line);
        lemma_starts(t);
    } else {
        assert(n >= 1);
        if file_marker_tail(t) is Some {
            assert(marker_at(t, 0));
            lemma_marker_text(t, 0);
            lemma_part(line.skip(1), "*** "@, n - 1, line.len() - 1);
            lemma_part(line.skip(1), "@@"@, n - 1, line.len() - 1);
            assert(line.skip(1).subrange(n - 1, line.len() - 1) =~= t);
        }
        if embedded_end_patch(line) {
            let i = choose|i: int| #[trigger] occurs_at(line, END_PATCH_MARKER@, i);
            reveal_strlit("*** End Patch");
            assert(line.subrange(i, i + END_PATCH_MARKER@.len())[0] == line[i]);
            assert(i >= 1);
            lemma_shifted_occurrence(line, END_PATCH_MARKER@, i - 1);
            assert(marker_at(line.skip(1), i - 1));
            lemma_no_marker(line.skip(1));
        }
    }
    assert forall|next: Seq<char>| #[trigger] without_trailing_prefix(line, next) is None by {
        if without_trailing_prefix(line, next) is Some {
            let j = line.len() - 1;
            assert(prefix_char(line[j]));
            let k = choose|k: int| belongs_to_code(line, j, k);
            assert(next_is_at(line, j, k));
        }
    }
}

/// A text that starts with a file marker starts with an asterisk.
proof fn lemma_starts(t: Seq<char>)
    ensures
        file_marker_tail(t) is Some ==> t.len() > 0 && t[0] == '*',
{
    if file_marker_tail(t) is Some {
        assert(marker_at(t, 0));
        crate::markers::lemma_marker_start(t, 0);
        reveal_strlit("*** Add File: ");
        reveal_strlit("*** Delete File: ");
        reveal_strlit("*** Update File: ");
        reveal_strlit("*** Move to: ");
        assert(t[0] == '*') by {
            if has_prefix(t, ADD_FILE_MARKER@) {
                assert(t.subrange(0, ADD_FILE_MARKER@.len() as int)[0] == t[0]);
            } else if has_prefix(t, UPDATE_FILE_MARKER@) {
                assert(t.subrange(0, UPDATE_FILE_MARKER@.len() as int)[0] == t[0]);
            } else if has_prefix(t, DELETE_FILE_MARKER@) {
                assert(t.subrange(0, DELETE_FILE_MARKER@.len() as int)[0] == t[0]);
            } else {
                assert(t.subrange(0, MOVE_TO_MARKER@.len() as int)[0] == t[0]);
            }
        }
    }
}

// ---------------------------------------------------------------------------
// Calm paths
// ---------------------------------------------------------------------------
/// The part of a calm path from a minus or a space on holds no several lines.
proof fn lemma_calm_path_part(path: Seq<char>, j: int)
    requires
        is_calm_path(path),
        0 <= j < path.len(),
        path[j] == '-' || path[j] == ' ',
    ensures
        squashed_pieces(path.subrange(j, path.len() as int)) is None,
        first_marker(path.subrange(j, path.len() as int)) is None,
{
    let after = path.subrange(j, path.len() as int);
    lemma_no_marker_in_part(path, j, path.len() as int);
    lemma_no_marker(after);
    lemma_no_marker_in_part(after, 1, after.len() as int);
    assert(after.subrange(1, after.len() as int) =~= after.skip(1));
    assert forall|i: int| 1 <= i < after.len() && prefix_char(#[trigger] after[i]) implies {
        &&& exists|k: int| belongs_to_code(after, i, k)
        &&& after[0] == ' ' && is_white(after[i - 1]) ==> 3 <= i && after[i - 1] == ' '
            && word_char(after[i - 2])
    } by {
        assert(after[i] == path[j + i]);
        assert(path[j + i] == '-') by {
            if path[j + i] == '+' {
                assert(path.contains('+'));
            }
        }
        assert(after[i - 1] == path[j + i - 1]);
        assert(after[i + 1] == path[j + i + 1]);
        assert(next_is_at(after, i, i + 1));
        assert(belongs_to_code(after, i, i + 1));
    }
    assert(after[0] == path[j]);
    lemma_calm_line_has_no_pieces(after);
}

proof fn lemma_no_usable_split(
    path: Seq<char>,
    prefixes: Seq<char>,
    min_score: int,
)
    requires
        is_calm_path(path),
        prefixes =~= seq!['+'] || prefixes =~= seq!['-', ' '],
    ensures
        best_split(path, prefixes, min_score) is None,
{
    law_best_split_scores_highest(path, prefixes, min_score, path.len() as int);
    if let Some((i, score)) = best_split_before(path, prefixes, min_score, path.len() as int) {
        assert(usable_split(path, prefixes, min_score, i) == Some(score));
        assert(prefixes.contains(path[i]));
        if path[i] == '+' {
            assert(path.contains('+'));
        } else {
            lemma_calm_path_part(path, i);
            assert(split_score(path, i) is None);
        }
    }
}

proof fn lemma_no_white_prefix(path: Seq<char>, i: int)
    requires
        is_calm_path(path),
        1 <= i,
    ensures
        white_prefix_from(path, i) is None,
    decreases path.len() - i,
{
    if i < path.len() {
        if white_prefix_at(path, i) {
            if path[i] == '+' {
                assert(path.contains('+'));
            }
            assert(path[i] == '-');
        }
        lemma_no_white_prefix(path, i + 1);
    }
}

proof fn lemma_no_dash_behind_extension(path: Seq<char>)
    requires
        is_calm_path(path),
    ensures
        dash_after_extension(path) is None,
{
    let name = file_name_part(path);
    let start = file_name_start(path);
    lemma_name_start(path, path.len() as int);
    lemma_last_before(name, '-', name.len() as int);
    lemma_last_before(name, '.', name.len() as int);
    if let Some(dash) = last_char_index(name, '-') {
        assert(path[start + dash] == '-');
        let k = choose|k: int| start + dash < k < path.len() && #[trigger] path[k] == '.';
        assert(name[k - start] == '.');
    }
}

/// A calm path is not divided.
pub proof fn law_calm_path_is_left_alone(path: Seq<char>)
    requires
        is_calm_path(path),
    ensures
        marker_tail_split(path) is None,
{
    lemma_no_white_prefix(path, 1);
    lemma_no_marker(path);
    lemma_no_usable_split(path, seq!['+'], i32::MIN as int);
    lemma_no_usable_split(path, seq!['-', ' '], 0);
    lemma_no_dash_behind_extension(path);
}

// ---------------------------------------------------------------------------
// Calm patches
// ---------------------------------------------------------------------------
/// A line that starts with an asterisk or an at sign is no diff line.
proof fn lemma_no_diff_line(line: Seq<char>)
    requires
        line.len() > 0,
        line[0] == '*' || line[0] == '@',
    ensures
        diff_line(line) is None,
        squashed_pieces(line) is None,
        context_parts(line) is None,
        trimmed_start(line) == line,
        forall|next: Seq<char>| #[trigger] without_trailing_prefix(line, next) is None,
{
    lemma_trimmed_start(line);
    assert(skip_white(line, 0) == 0);
    assert(trimmed_start(line) =~= line);
}

/// The text behind a marker that is not the end marker holds no end marker, so the line
/// holds none.
proof fn lemma_no_end_marker(marker: Seq<char>, text: Seq<char>)
    requires
        has_no_marker(text),
        marker.len() > 4,
        marker[3] != '*',
        forall|k: int| 1 <= k < marker.len() ==> #[trigger] marker[k] != '*' || k <= 2,
        !has_prefix(marker + text, END_PATCH_MARKER@),
    ensures
        !contains_text(marker + text, END_PATCH_MARKER@),
{
    let line = marker + text;
    reveal_strlit("*** End Patch");
    if contains_text(line, END_PATCH_MARKER@) {
        let i = choose|i: int| #[trigger] occurs_at(line, END_PATCH_MARKER@, i);
        let found = line.subrange(i, i + END_PATCH_MARKER@.len());
        assert(found[0] == line[i] && found[1] == line[i + 1] && found[2] == line[i + 2]);
        if i < marker.len() {
            assert(line[i] == marker[i]);
            assert(i == 1 || i == 2);
            assert(line[3] == marker[3]);
        } else {
            let n = i - marker.len();
            assert(text.subrange(n, n + END_PATCH_MARKER@.len()) =~= found);
            assert(marker_at(text, n));
            lemma_no_marker(text);
        }
    }
}

proof fn lemma_marker_parts()
    ensures
        forall|k: int| 1 <= k < ADD_FILE_MARKER@.len() ==> ADD_FILE_MARKER@[k] != '*' || k <= 2,
        forall|k: int|
            1 <= k < DELETE_FILE_MARKER@.len() ==> DELETE_FILE_MARKER@[k] != '*' || k <= 2,
        forall|k: int|
            1 <= k < UPDATE_FILE_MARKER@.len() ==> UPDATE_FILE_MARKER@[k] != '*' || k <= 2,
        forall|k: int| 1 <= k < MOVE_TO_MARKER@.len() ==> MOVE_TO_MARKER@[k] != '*' || k <= 2,
        ADD_FILE_MARKER@.len() > 4 && ADD_FILE_MARKER@[0] == '*' && ADD_FILE_MARKER@[3] == ' '
            && ADD_FILE_MARKER@[4] == 'A',
        DELETE_FILE_MARKER@.len() > 4 && DELETE_FILE_MARKER@[0] == '*' && DELETE_FILE_MARKER@[3]
            == ' ' && DELETE_FILE_MARKER@[4] == 'D',
        UPDATE_FILE_MARKER@.len() > 4 && UPDATE_FILE_MARKER@[0] == '*' && UPDATE_FILE_MARKER@[3]
            == ' ' && UPDATE_FILE_MARKER@[4] == 'U',
        MOVE_TO_MARKER@.len() > 4 && MOVE_TO_MARKER@[0] == '*' && MOVE_TO_MARKER@[3] == ' '
            && MOVE_TO_MARKER@[4] == 'M',
        END_PATCH_MARKER@.len() > 4 && END_PATCH_MARKER@[4] == 'E',
{
    reveal_strlit("*** Add File: ");
    reveal_strlit("*** Delete File: ");
    reveal_strlit("*** Update File: ");
    reveal_strlit("*** Move to: ");
    reveal_strlit("*** End Patch");
}

proof fn lemma_starts_with_marker(marker: Seq<char>, text: Seq<char>, other: Seq<char>)
    requires
        marker.len() > 4,
        other.len() > 4,
    ensures
        has_prefix(marker + text, marker),
        (marker + text).skip(marker.len() as int) == text,
        has_prefix(marker + text, other) ==> marker[4] == other[4],
{
    let line = marker + text;
    assert(line.skip(marker.len() as int) =~= text);
    assert(line.subrange(0, marker.len() as int) =~= marker);
    if has_prefix(line, other) {
        assert(line.subrange(0, other.len() as int)[4] == line[4]);
    }
}

/// A file marker with a calm path behind it needs no repair.
pub proof fn law_calm_file_marker_is_left_alone(marker: Seq<char>, path: Seq<char>)
    requires
        is_calm_path(path),
        marker == ADD_FILE_MARKER@ || marker == DELETE_FILE_MARKER@ || marker
            == UPDATE_FILE_MARKER@ || marker == MOVE_TO_MARKER@,
    ensures
        needs_nothing(marker + path),
{
    let line = marker + path;
    lemma_marker_parts();
    assert(line[0] == marker[0]);
    lemma_no_diff_line(line);
    lemma_starts_with_marker(marker, path, ADD_FILE_MARKER@);
    lemma_starts_with_marker(marker, path, DELETE_FILE_MARKER@);
    lemma_starts_with_marker(marker, path, UPDATE_FILE_MARKER@);
    lemma_starts_with_marker(marker, path, MOVE_TO_MARKER@);
    lemma_starts_with_marker(marker, path, END_PATCH_MARKER@);
    assert(file_marker_tail(line) == Some(path));
    law_calm_path_is_left_alone(path);
    lemma_no_end_marker(marker, path);
}

proof fn lemma_other_lines_need_nothing(text: Seq<char>)
    requires
        has_no_marker(text),
    ensures
        needs_nothing(BEGIN_PATCH_MARKER@),
        needs_nothing(END_PATCH_MARKER@),
        needs_nothing(EOF_MARKER@),
        needs_nothing(EMPTY_CHANGE_CONTEXT_MARKER@),
        needs_nothing(CHANGE_CONTEXT_MARKER@ + text),
{
    reveal_strlit("*** Begin Patch");
    reveal_strlit("*** End Patch");
    reveal_strlit("*** End of File");
    reveal_strlit("@@ ");
    reveal_strlit("@@");
    lemma_marker_parts();
    let context = CHANGE_CONTEXT_MARKER@ + text;
    assert(context[0] == '@');
    lemma_no_diff_line(BEGIN_PATCH_MARKER@);
    lemma_no_diff_line(END_PATCH_MARKER@);
    lemma_no_diff_line(EOF_MARKER@);
    lemma_no_diff_line(EMPTY_CHANGE_CONTEXT_MARKER@);
    lemma_no_diff_line(context);
    lemma_not_a_file_marker(BEGIN_PATCH_MARKER@);
    lemma_not_a_file_marker(END_PATCH_MARKER@);
    lemma_not_a_file_marker(EOF_MARKER@);
    lemma_starts(EMPTY_CHANGE_CONTEXT_MARKER@);
    lemma_starts(context);
    lemma_tight_text(END_PATCH_MARKER@);
    lemma_short_text(BEGIN_PATCH_MARKER@);
    lemma_short_text(EOF_MARKER@);
    assert(!contains_text(context, END_PATCH_MARKER@)) by {
        if contains_text(context, END_PATCH_MARKER@) {
            let i = choose|i: int| #[trigger] occurs_at(context, END_PATCH_MARKER@, i);
            let found = context.subrange(i, i + END_PATCH_MARKER@.len());
            assert(found[0] == context[i]);
            assert(i >= 3);
            assert(text.subrange(i - 3, i - 3 + END_PATCH_MARKER@.len()) =~= found);
            assert(marker_at(text, i - 3));
            lemma_no_marker(text);
        }
    }
}

proof fn lemma_not_a_file_marker(line: Seq<char>)
    requires
        line.len() > 4,
        line[4] == 'B' || line[4] == 'E',
    ensures
        file_marker_tail(line) is None,
{
    lemma_marker_parts();
    if has_prefix(line, ADD_FILE_MARKER@) {
        assert(line.subrange(0, ADD_FILE_MARKER@.len() as int)[4] == line[4]);
    }
    if has_prefix(line, DELETE_FILE_MARKER@) {
        assert(line.subrange(0, DELETE_FILE_MARKER@.len() as int)[4] == line[4]);
    }
    if has_prefix(line, UPDATE_FILE_MARKER@) {
        assert(line.subrange(0, UPDATE_FILE_MARKER@.len() as int)[4] == line[4]);
    }
    if has_prefix(line, MOVE_TO_MARKER@) {
        assert(line.subrange(0, MOVE_TO_MARKER@.len() as int)[4] == line[4]);
    }
}

/// The end marker is not part of another marker.
proof fn lemma_short_text(line: Seq<char>)
    requires
        line == BEGIN_PATCH_MARKER@ || line == EOF_MARKER@,
    ensures
        !contains_text(line, END_PATCH_MARKER@),
{
    reveal_strlit("*** Begin Patch");
    reveal_strlit("*** End Patch");
    reveal_strlit("*** End of File");
    if contains_text(line, END_PATCH_MARKER@) {
        let i = choose|i: int| #[trigger] occurs_at(line, END_PATCH_MARKER@, i);
        let found = line.subrange(i, i + END_PATCH_MARKER@.len());
        assert(found[0] == line[i] && found[3] == line[i + 3] && found[4] == line[i + 4]
            && found[8] == line[i + 8]);
    }
}

pub open spec fn is_calm_chunk(chunk: WrittenChunk) -> bool {
    &&& chunk.context matches Some(Some(text)) ==> has_no_marker(text)
    &&& forall|i: int|
        0 <= i < chunk.changes.len() ==> is_calm_line(change_line(#[trigger] chunk.changes[i]))
}

pub open spec fn is_calm_hunk(hunk: WrittenHunk) -> bool {
    match hunk {
        WrittenHunk::Add { path, lines } => is_calm_path(path) && forall|i: int|
            0 <= i < lines.len() ==> is_calm_line(seq!['+'] + #[trigger] lines[i]),
        WrittenHunk::Delete { path } => is_calm_path(path),
        WrittenHunk::Update { path, move_path, chunks } => {
            &&& is_calm_path(path)
            &&& move_path matches Some(dest) ==> is_calm_path(dest)
            &&& forall|i: int| 0 <= i < chunks.len() ==> is_calm_chunk(#[trigger] chunks[i])
        },
    }
}

proof fn lemma_empty_has_no_marker()
    ensures
        has_no_marker(Seq::empty()),
{
    reveal_strlit("*** ");
    reveal_strlit("@@");
}

/// Every line of a list needs nothing.
spec fn all_need_nothing(lines: Seq<Seq<char>>) -> bool {
    forall|k: int| 0 <= k < lines.len() ==> needs_nothing(#[trigger] lines[k])
}

proof fn lemma_all_need_nothing(a: Seq<Seq<char>>, b: Seq<Seq<char>>)
    requires
        all_need_nothing(a),
        all_need_nothing(b),
    ensures
        all_need_nothing(a + b),
{
    let all = a + b;
    assert forall|k: int| 0 <= k < all.len() implies needs_nothing(#[trigger] all[k]) by {
        if k < a.len() {
            assert(all[k] == a[k]);
        } else {
            assert(all[k] == b[k - a.len()]);
        }
    }
}

proof fn lemma_calm_chunk_lines(chunk: WrittenChunk, first: bool)
    requires
        is_calm_chunk(chunk),
        crate::grammar::is_chunk(chunk, first),
    ensures
        all_need_nothing(chunk_lines(chunk)),
{
    lemma_empty_has_no_marker();
    let text = match chunk.context {
        Some(Some(text)) => text,
        _ => Seq::empty(),
    };
    lemma_other_lines_need_nothing(text);
    let lines = change_lines(chunk.changes);
    assert forall|k: int| 0 <= k < lines.len() implies needs_nothing(#[trigger] lines[k]) by {
        assert(lines[k] == change_line(chunk.changes[k]));
        assert(lines[k][0] == chunk.changes[k].0);
        law_calm_line_is_left_alone(lines[k]);
    }
    lemma_all_need_nothing(context_lines(chunk), lines);
    lemma_all_need_nothing(context_lines(chunk) + lines, end_lines(chunk));
}

proof fn lemma_calm_chunks_lines(chunks: Seq<WrittenChunk>, first: bool)
    requires
        forall|i: int| 0 <= i < chunks.len() ==> is_calm_chunk(#[trigger] chunks[i]),
        crate::grammar::are_chunks(chunks, first),
    ensures
        all_need_nothing(all_chunk_lines(chunks)),
    decreases chunks.len(),
{
    if chunks.len() > 0 {
        let rest = chunks.skip(1);
        assert forall|i: int| 0 <= i < rest.len() implies is_calm_chunk(#[trigger] rest[i]) by {
            assert(rest[i] == chunks[i + 1]);
        }
        assert forall|i: int| 0 <= i < rest.len() implies crate::grammar::is_chunk(
            #[trigger] rest[i],
            false && i == 0,
        ) by {
            assert(rest[i] == chunks[i + 1]);
        }
        assert(crate::grammar::is_chunk(chunks[0], first && 0int == 0));
        lemma_calm_chunk_lines(chunks[0], first);
        lemma_calm_chunks_lines(rest, false);
        lemma_all_need_nothing(chunk_lines(chunks[0]), all_chunk_lines(rest));
    }
}

proof fn lemma_calm_hunk_lines(hunk: WrittenHunk)
    requires
        is_calm_hunk(hunk),
        crate::grammar::is_hunk(hunk),
    ensures
        all_need_nothing(hunk_lines(hunk)),
{
    match hunk {
        WrittenHunk::Add { path, lines } => {
            law_calm_file_marker_is_left_alone(ADD_FILE_MARKER@, path);
            let added = added_lines(lines);
            assert forall|k: int| 0 <= k < added.len() implies needs_nothing(#[trigger] added[k]) by {
                assert(added[k] == seq!['+'] + lines[k]);
                law_calm_line_is_left_alone(added[k]);
            }
            lemma_all_need_nothing(seq![ADD_FILE_MARKER@ + path], added);
        },
        WrittenHunk::Delete { path } => {
            law_calm_file_marker_is_left_alone(DELETE_FILE_MARKER@, path);
        },
        WrittenHunk::Update { path, move_path, chunks } => {
            law_calm_file_marker_is_left_alone(UPDATE_FILE_MARKER@, path);
            if let Some(dest) = move_path {
                law_calm_file_marker_is_left_alone(MOVE_TO_MARKER@, dest);
            }
            lemma_calm_chunks_lines(chunks, true);
            let head = seq![UPDATE_FILE_MARKER@ + path];
            lemma_all_need_nothing(head, move_lines(move_path));
            lemma_all_need_nothing(head + move_lines(move_path), all_chunk_lines(chunks));
        },
    }
}

proof fn lemma_calm_hunks_lines(hunks: Seq<WrittenHunk>)
    requires
        forall|i: int| 0 <= i < hunks.len() ==> is_calm_hunk(#[trigger] hunks[i]),
        are_hunks(hunks),
    ensures
        all_need_nothing(all_hunk_lines(hunks)),
    decreases hunks.len(),
{
    if hunks.len() > 0 {
        let rest = hunks.skip(1);
        assert forall|i: int| 0 <= i < rest.len() implies is_calm_hunk(#[trigger] rest[i])
            && crate::grammar::is_hunk(rest[i]) by {
            assert(rest[i] == hunks[i + 1]);
        }
        assert(crate::grammar::is_hunk(hunks[0]));
        lemma_calm_hunk_lines(hunks[0]);
        lemma_calm_hunks_lines(rest);
        lemma_all_need_nothing(hunk_lines(hunks[0]), all_hunk_lines(rest));
    }
}

/// A calm patch is read as the hunks that it was written for, in lenient mode as in strict
/// mode: none of its lines is torn apart.
pub proof fn law_calm_patch_is_read(hunks: Seq<WrittenHunk>)
    requires
        are_hunks(hunks),
        separable(written_lines(hunks)),
        forall|i: int| 0 <= i < hunks.len() ==> is_calm_hunk(#[trigger] hunks[i]),
    ensures
        ({
            let text = joined(written_lines(hunks));
            let patch = PatchModel { patch: text, hunks: hunk_meanings(hunks), workdir: None };
            &&& !needs_repair(text)
            &&& parse_text(text, ParseMode::Lenient) == Ok::<PatchModel, ParseErrorModel>(patch)
        }),
{
    let lines = written_lines(hunks);
    lemma_calm_hunks_lines(hunks);
    lemma_empty_has_no_marker();
    lemma_other_lines_need_nothing(Seq::empty());
    let head = seq![BEGIN_PATCH_MARKER@];
    lemma_all_need_nothing(head, all_hunk_lines(hunks));
    lemma_all_need_nothing(head + all_hunk_lines(hunks), seq![END_PATCH_MARKER@]);
    law_joined_lines_split_again(lines);
    assert forall|i: int| 0 <= i < lines.len() implies !#[trigger] line_needs_repair(lines, i) by {
        assert(needs_nothing(lines[i]));
    }
    law_written_patch_is_read(hunks);
}

} // verus!
