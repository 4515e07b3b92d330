//! Where a line that holds several lines of a patch is split.
use vstd::prelude::*;

use crate::calm::{has_no_marker, lemma_no_marker};
use crate::diff_line::{
    closing_as_context, cut, diff_line, last_pieces, last_repeat, mixed_prefixes, piece_start,
    point_pieces, split_candidate, split_points, squashed_pieces, without_trailing_prefix,
};
use crate::file_marker::{
    context_break, context_break_from, context_parts, diff_line_marker, embedded_end_patch,
    embedded_marker_from, file_name_start, looks_like_file_name, marker_tail_split, name_start,
    segment_after, segment_end, split_score, white_prefix_at, white_prefix_from,
};
use crate::lines::{lemma_ended_one, line_seq};
use crate::markers::{
    contains_marker, first_structural_marker, in_quotes, lemma_contains_marker,
    lemma_marker_start, lemma_structural_from, marker_at, prefix_char, quotes_after,
    structural_at, structural_from, word_char, ADD_FILE_MARKER, BEGIN_PATCH_MARKER,
    CHANGE_CONTEXT_MARKER, DELETE_FILE_MARKER, EMPTY_CHANGE_CONTEXT_MARKER, END_PATCH_MARKER,
    EOF_MARKER, MOVE_TO_MARKER, UPDATE_FILE_MARKER,
};
use crate::repair::{
    context_place, context_text, end_cut, last_context, repair_line, repeats_context,
    with_context, RepairItem, RepairOrigin, RepairState,
};
use crate::run_together::{has_no_sign, is_file_marker, lemma_no_marker_across, lemma_no_row};
use crate::text::{
    contains_text, find_text, is_ascii_white, is_letter, is_white, lemma_find_from,
    lemma_trimmed_end, occurs_at, skip_ascii_white, skip_white, trimmed, trimmed_end,
    trimmed_start,
};

verus! {

// ---------------------------------------------------------------------------
// A marker behind code
// ---------------------------------------------------------------------------
/// Text in which no marker and no string starts, and no diff prefix stands.
pub open spec fn is_quiet(s: Seq<char>) -> bool {
    forall|i: int|
        0 <= i < s.len() ==> (#[trigger] s[i]) != '*' && s[i] != '@' && s[i] != '"' && s[i] != '\''
            && s[i] != '`' && s[i] != '\\' && s[i] != '+' && s[i] != '-'
}

pub open spec fn all_white(s: Seq<char>) -> bool {
    forall|i: int| 0 <= i < s.len() ==> is_white(#[trigger] s[i])
}

proof fn lemma_no_quotes(s: Seq<char>, n: int)
    requires
        0 <= n <= s.len(),
        forall|i: int|
            0 <= i < n ==> (#[trigger] s[i]) != '"' && s[i] != '\'' && s[i] != '`' && s[i] != '\\',
    ensures
        !in_quotes(quotes_after(s, n)),
        !quotes_after(s, n).escape,
    decreases n,
{
    if n > 0 {
        lemma_no_quotes(s, n - 1);
    }
}

proof fn lemma_only_place(tail: Seq<char>, marker: Seq<char>, n: int, i: int)
    requires
        0 <= i <= n < tail.len(),
        marker.len() > 0,
        occurs_at(tail, marker, n),
        structural_at(tail, marker, n),
        forall|k: int| 0 <= k < n ==> !#[trigger] occurs_at(tail, marker, k),
    ensures
        structural_from(tail, marker, i) == Some(n),
    decreases n - i,
{
    if i < n {
        lemma_only_place(tail, marker, n, i + 1);
    }
}

/// The start of each marker.
proof fn lemma_starts_of_markers()
    ensures
        forall|m: Seq<char>| #[trigger]
            is_some_marker(m) ==> m.len() >= 2 && ((m.len() >= 4 && m[0] == '*' && m[1] == '*' && m[2]
                == '*' && m[3] == ' ') || (m[0] == '@' && m[1] == '@')),
{
    reveal_strlit("*** Begin Patch");
    reveal_strlit("*** End Patch");
    reveal_strlit("*** Add File: ");
    reveal_strlit("*** Delete File: ");
    reveal_strlit("*** Update File: ");
    reveal_strlit("*** Move to: ");
    reveal_strlit("*** End of File");
    reveal_strlit("@@ ");
    reveal_strlit("@@");
}

spec fn is_some_marker(m: Seq<char>) -> bool {
    m == BEGIN_PATCH_MARKER@ || m == END_PATCH_MARKER@ || m == ADD_FILE_MARKER@ || m
        == DELETE_FILE_MARKER@ || m == UPDATE_FILE_MARKER@ || m == MOVE_TO_MARKER@ || m
        == EOF_MARKER@ || m == CHANGE_CONTEXT_MARKER@ || m == EMPTY_CHANGE_CONTEXT_MARKER@
}

/// In a text with one marker, no marker stands anywhere else.
proof fn lemma_one_marker(front: Seq<char>, marker: Seq<char>, back: Seq<char>, m: Seq<char>, i: int)
    requires
        is_file_marker(marker),
        is_some_marker(m),
        forall|k: int| 0 <= k < front.len() ==> (#[trigger] front[k]) != '*' && front[k] != '@',
        forall|k: int| 0 <= k < back.len() ==> (#[trigger] back[k]) != '*' && back[k] != '@',
        occurs_at(front + marker + back, m, i),
    ensures
        i == front.len(),
{
    let s = front + marker + back;
    let n = front.len() as int;
    lemma_starts_of_markers();
    reveal_strlit("*** Add File: ");
    reveal_strlit("*** Delete File: ");
    reveal_strlit("*** Update File: ");
    reveal_strlit("*** Move to: ");
    assert(is_some_marker(marker));
    let found = s.subrange(i, i + m.len());
    assert(found[0] == s[i] && found[1] == s[i + 1]);
    assert(s[n + 3] == marker[3]);
    if i < n {
        assert(s[i] == front[i]);
    } else if i >= n + marker.len() {
        assert(s[i] == back[i - n - marker.len()]);
    } else {
        assert(s[i] == marker[i - n]);
        assert(m[0] == '*');
        assert(found[2] == s[i + 2]);
        if i == n + 1 {
            assert(s[i + 2] == marker[3]);
        } else if i == n + 2 {
            assert(s[i + 1] == marker[3]);
        }
    }
}

/// No sign stands around the marker.
proof fn lemma_quiet_ends(code: Seq<char>, gap: Seq<char>, marker: Seq<char>, path: Seq<char>)
    requires
        is_file_marker(marker),
        is_quiet(code) && is_quiet(gap) && is_quiet(path),
    ensures
        forall|k: int|
            0 <= k < (code + gap + marker + path).len() ==> (#[trigger] (code + gap + marker
                + path)[k]) != '+' && (code + gap + marker + path)[k] != '-' && (code + gap
                + marker + path)[k] != '@',
{
    let all = code + gap + marker + path;
    let a = code.len() as int;
    let b = a + gap.len();
    let c = b + marker.len();
    reveal_strlit("*** Add File: ");
    reveal_strlit("*** Delete File: ");
    reveal_strlit("*** Update File: ");
    reveal_strlit("*** Move to: ");
    assert forall|k: int| 0 <= k < all.len() implies (#[trigger] all[k]) != '+' && all[k] != '-'
        && all[k] != '@' by {
        if k < a {
            assert(all[k] == code[k]);
        } else if k < b {
            assert(all[k] == gap[k - a]);
        } else if k < c {
            assert(all[k] == marker[k - b]);
        } else {
            assert(all[k] == path[k - c]);
        }
    }
}

/// The first place where a line of its own starts is that of the marker.
proof fn lemma_place_behind_code(
    code: Seq<char>,
    gap: Seq<char>,
    marker: Seq<char>,
    path: Seq<char>,
)
    requires
        is_file_marker(marker),
        is_quiet(code) && is_quiet(path),
        code.len() > 0 && !word_char(code.last()) && !is_white(code.last()),
        all_white(gap) && is_quiet(gap),
    ensures
        first_structural_marker(code + gap + marker + path) == Some((code + gap).len() as int),
{
    let front = code + gap;
    let content = front + marker + path;
    let n = front.len() as int;
    assert forall|k: int| 0 <= k < n implies (#[trigger] front[k]) != '*' && front[k] != '@'
        && front[k] != '"' && front[k] != '\'' && front[k] != '`' && front[k] != '\\' by {
        if k < code.len() {
            assert(front[k] == code[k]);
        } else {
            assert(front[k] == gap[k - code.len()]);
        }
    }
    assert forall|k: int| 0 <= k < n implies (#[trigger] content[k]) != '"' && content[k] != '\''
        && content[k] != '`' && content[k] != '\\' by {
        assert(content[k] == front[k]);
    }
    lemma_no_quotes(content, n);
    let before = content.subrange(0, n);
    assert(before =~= front);
    lemma_white_tail(code, gap);
    reveal_strlit("*** Add File: ");
    reveal_strlit("*** Delete File: ");
    reveal_strlit("*** Update File: ");
    reveal_strlit("*** Move to: ");
    assert(marker.last() == ' ');
    assert(structural_at(content, marker, n));
    lemma_first_is(front, marker, path);
}

/// A file marker behind code that ends with no word starts a line of its own; the code
/// before it stays a diff line.
pub proof fn law_marker_behind_code_starts_a_line(
    sign: char,
    code: Seq<char>,
    gap: Seq<char>,
    marker: Seq<char>,
    path: Seq<char>,
)
    requires
        sign == '+' || sign == '-',
        is_file_marker(marker),
        is_quiet(code) && is_quiet(path),
        code.len() > 0 && !word_char(code.last()) && !is_white(code.last()),
        all_white(gap) && is_quiet(gap),
    ensures
        squashed_pieces(seq![sign] + code + gap + marker + path) == Some(
            seq![seq![sign] + code, marker + path],
        ),
{
    let line = seq![sign] + code + gap + marker + path;
    let front = code + gap;
    let content = line.subrange(1, line.len() as int);
    let n = front.len() as int;
    reveal_strlit("*** Add File: ");
    reveal_strlit("*** Delete File: ");
    reveal_strlit("*** Update File: ");
    reveal_strlit("*** Move to: ");
    reveal_strlit("+++ ");
    reveal_strlit("--- ");
    reveal_strlit("@@ ");
    assert(content =~= front + marker + path);
    assert(line[0] == sign);
    assert(skip_white(line, 0) == 0);
    assert(trimmed_start(line) =~= line);
    lemma_quiet_ends(code, gap, marker, path);
    lemma_absent(content, "+++ "@);
    lemma_absent(content, "--- "@);
    lemma_absent(content, "@@ "@);
    lemma_place_behind_code(code, gap, marker, path);
    let before = content.subrange(0, n);
    assert(before =~= front);
    lemma_white_tail(code, gap);
    assert(seq![line[0]] + trimmed_end(content.subrange(0, n)) =~= seq![sign] + code);
    let back = content.subrange(n, content.len() as int);
    assert(back =~= marker + path);
    assert(back[0] == '*');
    assert(skip_white(back, 0) == 0);
    assert(trimmed_start(back) =~= back);
}

proof fn lemma_absent(s: Seq<char>, p: Seq<char>)
    requires
        p.len() > 0,
        forall|k: int| 0 <= k < s.len() ==> #[trigger] s[k] != p[0],
    ensures
        !contains_text(s, p),
{
    if contains_text(s, p) {
        let i = choose|i: int| #[trigger] occurs_at(s, p, i);
        assert(s.subrange(i, i + p.len())[0] == s[i]);
    }
}

proof fn lemma_white_tail(code: Seq<char>, gap: Seq<char>)
    requires
        code.len() > 0,
        !is_white(code.last()),
        all_white(gap),
    ensures
        trimmed_end(code + gap) == code,
{
    let s = code + gap;
    let t = trimmed_end(s);
    let n = code.len() as int;
    lemma_trimmed_end(s);
    assert(s[n - 1] == code.last());
    assert(t.len() >= n);
    if t.len() > n {
        assert(t.last() == s[t.len() - 1]);
        assert(s[t.len() - 1] == gap[t.len() - 1 - n]);
    }
    assert(t =~= code);
}

proof fn lemma_first_is(front: Seq<char>, marker: Seq<char>, back: Seq<char>)
    requires
        is_file_marker(marker),
        forall|k: int| 0 <= k < front.len() ==> (#[trigger] front[k]) != '*' && front[k] != '@',
        forall|k: int| 0 <= k < back.len() ==> (#[trigger] back[k]) != '*' && back[k] != '@',
        structural_at(front + marker + back, marker, front.len() as int),
    ensures
        first_structural_marker(front + marker + back) == Some(front.len() as int),
{
    let s = front + marker + back;
    let n = front.len() as int;
    lemma_starts_of_markers();
    assert(is_some_marker(marker));
    assert(s.subrange(n, n + marker.len()) =~= marker);
    assert forall|k: int| 0 <= k < n implies !#[trigger] occurs_at(s, marker, k) by {
        if occurs_at(s, marker, k) {
            lemma_one_marker(front, marker, back, marker, k);
        }
    }
    lemma_only_place(s, marker, n, 0);
    assert forall|m: Seq<char>| #[trigger] is_some_marker(m) implies structural_from(s, m, 0)
        is None || structural_from(s, m, 0) == Some(n) by {
        lemma_structural_from(s, m, 0);
        if let Some(k) = structural_from(s, m, 0) {
            lemma_one_marker(front, marker, back, m, k);
        }
    }
    assert(is_some_marker(BEGIN_PATCH_MARKER@));
    assert(is_some_marker(ADD_FILE_MARKER@));
    assert(is_some_marker(DELETE_FILE_MARKER@));
    assert(is_some_marker(UPDATE_FILE_MARKER@));
    assert(is_some_marker(MOVE_TO_MARKER@));
    assert(is_some_marker(EOF_MARKER@));
    assert(is_some_marker(CHANGE_CONTEXT_MARKER@));
    assert(is_some_marker(EMPTY_CHANGE_CONTEXT_MARKER@));
}

// ---------------------------------------------------------------------------
// A marker inside a string
// ---------------------------------------------------------------------------
proof fn lemma_inside_quotes(pre: Seq<char>, quote: char, s: Seq<char>, post: Seq<char>, k: int)
    requires
        is_quiet(pre),
        quote == '"' || quote == '\'' || quote == '`',
        !s.contains(quote) && !s.contains('\\'),
        0 <= k <= s.len(),
    ensures
        ({
            let all = pre + seq![quote] + s + post;
            let q = quotes_after(all, pre.len() + 1 + k);
            !q.escape && q.double == (quote == '"') && q.single == (quote == '\'') && q.backtick
                == (quote == '`')
        }),
    decreases k,
{
    let all = pre + seq![quote] + s + post;
    let n = pre.len() as int;
    if k == 0 {
        assert forall|i: int| 0 <= i < n implies (#[trigger] all[i]) != '"' && all[i] != '\''
            && all[i] != '`' && all[i] != '\\' by {
            assert(all[i] == pre[i]);
        }
        lemma_no_quotes(all, n);
        assert(all[n] == quote);
    } else {
        lemma_inside_quotes(pre, quote, s, post, k - 1);
        assert(all[n + k] == s[k - 1]);
        assert(s.contains(s[k - 1]));
    }
}

/// A marker inside a string starts no line: the line is left as it is.
pub proof fn law_marker_in_a_string_starts_no_line(
    sign: char,
    pre: Seq<char>,
    quote: char,
    s: Seq<char>,
    post: Seq<char>,
)
    requires
        sign == '+' || sign == '-',
        is_quiet(pre) && is_quiet(post),
        quote == '"' || quote == '\'' || quote == '`',
        !s.contains(quote) && !s.contains('\\'),
        contains_marker(s),
    ensures
        squashed_pieces(seq![sign] + pre + seq![quote] + s + seq![quote] + post) is None,
        context_parts(seq![sign] + pre + seq![quote] + s + seq![quote] + post) is None,
{
    let line = seq![sign] + pre + seq![quote] + s + seq![quote] + post;
    let content = line.subrange(1, line.len() as int);
    let back = seq![quote] + post;
    let n = pre.len() as int;
    assert(content =~= pre + seq![quote] + s + back);
    assert(line[0] == sign);
    assert(skip_white(line, 0) == 0);
    assert(trimmed_start(line) =~= line);
    lemma_starts_of_markers();
    let at = choose|i: int| #[trigger] marker_at(s, i);
    lemma_marker_at_shift(s, pre + seq![quote], back, at);
    assert(marker_at(content, n + 1 + at)) by {
        assert(pre + seq![quote] + s + back =~= content);
    }
    assert forall|m: Seq<char>| #[trigger] is_some_marker(m) implies structural_from(content, m, 0)
        is None by {
        lemma_structural_from(content, m, 0);
        if let Some(k) = structural_from(content, m, 0) {
            assert(content.subrange(k, k + m.len())[0] == content[k]);
            if k < n {
                assert(content[k] == pre[k]);
            } else if k > n + s.len() + 1 {
                assert(content[k] == post[k - n - s.len() - 2]);
            } else if k == n {
                assert(content[k] == quote);
            } else if k == n + s.len() + 1 {
                assert(content[k] == quote);
            } else {
                lemma_inside_quotes(pre, quote, s, back, k - n - 1);
            }
        }
    }
    assert(is_some_marker(BEGIN_PATCH_MARKER@));
    assert(is_some_marker(ADD_FILE_MARKER@));
    assert(is_some_marker(DELETE_FILE_MARKER@));
    assert(is_some_marker(UPDATE_FILE_MARKER@));
    assert(is_some_marker(MOVE_TO_MARKER@));
    assert(is_some_marker(EOF_MARKER@));
    assert(is_some_marker(CHANGE_CONTEXT_MARKER@));
    assert(is_some_marker(EMPTY_CHANGE_CONTEXT_MARKER@));
    assert(first_structural_marker(content) is None);
    assert(contains_marker(content));
}

proof fn lemma_shift(s: Seq<char>, front: Seq<char>, back: Seq<char>, p: Seq<char>, i: int)
    requires
        occurs_at(s, p, i),
    ensures
        occurs_at(front + s + back, p, front.len() + i),
{
    let all = front + s + back;
    let n = front.len() as int;
    assert(all.subrange(n + i, n + i + p.len()) =~= s.subrange(i, i + p.len()));
}

proof fn lemma_marker_at_shift(s: Seq<char>, front: Seq<char>, back: Seq<char>, i: int)
    requires
        marker_at(s, i),
    ensures
        marker_at(front + s + back, front.len() + i),
{
    if occurs_at(s, BEGIN_PATCH_MARKER@, i) {
        lemma_shift(s, front, back, BEGIN_PATCH_MARKER@, i);
    } else if occurs_at(s, END_PATCH_MARKER@, i) {
        lemma_shift(s, front, back, END_PATCH_MARKER@, i);
    } else if occurs_at(s, ADD_FILE_MARKER@, i) {
        lemma_shift(s, front, back, ADD_FILE_MARKER@, i);
    } else if occurs_at(s, DELETE_FILE_MARKER@, i) {
        lemma_shift(s, front, back, DELETE_FILE_MARKER@, i);
    } else if occurs_at(s, UPDATE_FILE_MARKER@, i) {
        lemma_shift(s, front, back, UPDATE_FILE_MARKER@, i);
    } else if occurs_at(s, MOVE_TO_MARKER@, i) {
        lemma_shift(s, front, back, MOVE_TO_MARKER@, i);
    } else if occurs_at(s, EOF_MARKER@, i) {
        lemma_shift(s, front, back, EOF_MARKER@, i);
    } else if occurs_at(s, CHANGE_CONTEXT_MARKER@, i) {
        lemma_shift(s, front, back, CHANGE_CONTEXT_MARKER@, i);
    } else {
        lemma_shift(s, front, back, EMPTY_CHANGE_CONTEXT_MARKER@, i);
    }
}

// ---------------------------------------------------------------------------
// A context line behind a statement
// ---------------------------------------------------------------------------
proof fn lemma_skip_gap(s: Seq<char>, i: int, n: int)
    requires
        0 <= i <= n < s.len(),
        forall|k: int| i <= k < n ==> is_ascii_white(#[trigger] s[k]),
        !is_ascii_white(s[n]),
    ensures
        skip_ascii_white(s, i) == n,
    decreases n - i,
{
    if i < n {
        lemma_skip_gap(s, i + 1, n);
    }
}

proof fn lemma_first_break(content: Seq<char>, n: int, i: int)
    requires
        0 <= i <= n < content.len(),
        context_break(content, n),
        forall|k: int| 0 <= k < n ==> (#[trigger] content[k]) != ';' && content[k] != '?',
    ensures
        context_break_from(content, i) == Some(n),
    decreases n - i,
{
    if i < n {
        lemma_first_break(content, n, i + 1);
    }
}

/// What stands behind the first statement of a diff line, two or more columns away, is a
/// line of its own where it starts like code; an attribute is one at any distance.
pub proof fn law_line_behind_a_statement_is_split_off(
    sign: char,
    statement: Seq<char>,
    end: char,
    gap: Seq<char>,
    rest: Seq<char>,
)
    requires
        sign == '+' || sign == '-',
        end == ';' || end == '?',
        !statement.contains(';') && !statement.contains('?'),
        forall|k: int| 0 <= k < gap.len() ==> #[trigger] gap[k] == ' ',
        rest.len() > 0,
        !is_white(rest.last()),
        has_no_marker(statement + seq![end] + gap + rest),
        (gap.len() >= 2 && (is_letter(rest[0]) || rest[0] == '_' || rest[0] == '}' || rest[0]
            == ')' || rest[0] == '#')) || (rest.len() > 1 && rest[0] == '#' && rest[1] == '['),
    ensures
        context_parts(seq![sign] + statement + seq![end] + gap + rest) == Some(
            (seq![sign] + statement + seq![end], seq![' '] + gap + rest),
        ),
{
    let line = seq![sign] + statement + seq![end] + gap + rest;
    let content = line.subrange(1, line.len() as int);
    let n = statement.len() as int;
    let j = n + 1 + gap.len();
    assert(content =~= statement + seq![end] + gap + rest);
    assert(line[0] == sign);
    assert(skip_white(line, 0) == 0);
    assert(trimmed_start(line) =~= line);
    lemma_no_marker(content);
    assert(content[n] == end);
    assert(content[j] == rest[0]);
    assert forall|k: int| n + 1 <= k < j implies is_ascii_white(#[trigger] content[k]) by {
        assert(content[k] == gap[k - n - 1]);
    }
    lemma_skip_gap(content, n + 1, j);
    reveal_strlit("#[");
    reveal_strlit("#![");
    if rest.len() > 1 && rest[0] == '#' && rest[1] == '[' {
        assert(content[j + 1] == rest[1]);
        assert(content.subrange(j, j + 2) =~= "#["@);
    }
    assert forall|k: int| 0 <= k < n implies (#[trigger] content[k]) != ';' && content[k]
        != '?' by {
        assert(content[k] == statement[k]);
        assert(statement.contains(statement[k]));
    }
    assert(context_break(content, n));
    lemma_first_break(content, n, 0);
    assert(seq![line[0]] + content.subrange(0, n + 1) =~= seq![sign] + statement + seq![end]);
    let back = content.subrange(n + 1, content.len() as int);
    assert(back =~= gap + rest);
    assert(back.last() == rest.last());
    lemma_trimmed_end(back);
    assert(seq![' '] + back =~= seq![' '] + gap + rest);
}

/// Code behind a statement that is nearer than two columns belongs to the same line.
pub proof fn law_code_close_behind_a_statement_stays(
    sign: char,
    statement: Seq<char>,
    end: char,
    rest: Seq<char>,
)
    requires
        sign == '+' || sign == '-',
        end == ';' || end == '?',
        !statement.contains(';') && !statement.contains('?'),
        !rest.contains(';') && !rest.contains('?'),
        rest.len() > 1,
        rest[0] != '#' && rest[1] != '#' && !is_ascii_white(rest[1]),
    ensures
        context_parts(seq![sign] + statement + seq![end] + rest) is None,
{
    let line = seq![sign] + statement + seq![end] + rest;
    let content = line.subrange(1, line.len() as int);
    let n = statement.len() as int;
    assert(content =~= statement + seq![end] + rest);
    assert(line[0] == sign);
    assert(skip_white(line, 0) == 0);
    assert(trimmed_start(line) =~= line);
    assert(content[n + 1] == rest[0] && content[n + 2] == rest[1]);
    reveal_strlit("#[");
    reveal_strlit("#![");
    assert forall|i: int| 0 <= i < content.len() implies !#[trigger] context_break(content, i) by {
        if i < n {
            assert(content[i] == statement[i]);
            assert(statement.contains(statement[i]));
        } else if i > n {
            assert(content[i] == rest[i - n - 1]);
            assert(rest.contains(rest[i - n - 1]));
        } else {
            let j = if is_ascii_white(rest[0]) {
                n + 2
            } else {
                n + 1
            };
            lemma_skip_gap(content, n + 1, j);
            if occurs_at(content, "#["@, j) {
                assert(content.subrange(j, j + 2)[0] == content[j]);
            }
            if occurs_at(content, "#!["@, j) {
                assert(content.subrange(j, j + 3)[0] == content[j]);
            }
        }
    }
    lemma_no_break(content, 0);
}

proof fn lemma_no_break(content: Seq<char>, i: int)
    requires
        0 <= i,
        forall|k: int| 0 <= k < content.len() ==> !#[trigger] context_break(content, k),
    ensures
        context_break_from(content, i) is None,
    decreases content.len() - i,
{
    if i < content.len() {
        lemma_no_break(content, i + 1);
    }
}

// ---------------------------------------------------------------------------
// A sign of the next line
// ---------------------------------------------------------------------------
/// The sign at the end of a diff line belongs to the diff line behind it, and is taken off.
pub proof fn law_sign_of_the_next_line_is_taken_off(
    sign: char,
    code: Seq<char>,
    last: char,
    next_sign: char,
    next: Seq<char>,
)
    requires
        sign == '+' || sign == '-',
        last == '+' || last == '-',
        next_sign == '+' || next_sign == '-',
        code.len() > 0,
        !is_white(code.last()) && code.last() != '+' && code.last() != '-',
    ensures
        without_trailing_prefix(seq![sign] + code + seq![last], seq![next_sign] + next) == Some(
            seq![sign] + code,
        ),
        without_trailing_prefix(seq![sign] + code, seq![next_sign] + next) is None,
{
    let line = seq![sign] + code + seq![last];
    let other = seq![next_sign] + next;
    let own = seq![sign] + code;
    assert(line[0] == sign && other[0] == next_sign && own[0] == sign);
    assert(skip_white(line, 0) == 0 && skip_white(other, 0) == 0 && skip_white(own, 0) == 0);
    assert(trimmed_start(line) =~= line);
    assert(trimmed_start(other) =~= other);
    assert(trimmed_start(own) =~= own);
    assert(line.last() == last);
    assert(line[line.len() - 2] == code.last());
    assert(own.last() == code.last());
    assert(line.drop_last() =~= own);
}

// ---------------------------------------------------------------------------
// A path and a line behind it
// ---------------------------------------------------------------------------
proof fn lemma_first_white_sign(tail: Seq<char>, n: int, i: int)
    requires
        1 <= i <= n < tail.len(),
        white_prefix_at(tail, n),
        forall|k: int| 1 <= k < n ==> !#[trigger] white_prefix_at(tail, k),
    ensures
        white_prefix_from(tail, i) == Some(n),
    decreases n - i,
{
    if i < n {
        lemma_first_white_sign(tail, n, i + 1);
    }
}

/// A path ends where white space and a diff line follow it.
pub proof fn law_path_ends_before_a_diff_line(
    path: Seq<char>,
    gap: Seq<char>,
    sign: char,
    code: Seq<char>,
)
    requires
        forall|k: int| 0 <= k < path.len() ==> !is_white(#[trigger] path[k]),
        path.contains('.') || path.contains('/') || path.contains('\\'),
        gap.len() > 0,
        forall|k: int| 0 <= k < gap.len() ==> #[trigger] gap[k] == ' ' || gap[k] == '\t',
        sign == '+' || sign == '-',
        code.len() > 0,
        is_letter(code[0]) || code[0] == '_' || code[0] == '}' || code[0] == ')',
    ensures
        marker_tail_split(path + gap + seq![sign] + code) == Some((path + gap).len() as int),
{
    let tail = path + gap + seq![sign] + code;
    let n = (path + gap).len() as int;
    assert(path.len() > 0);
    assert(tail[n] == sign);
    assert(tail[n - 1] == gap.last());
    assert(gap.last() == gap[gap.len() - 1]);
    assert(tail[n + 1] == code[0]);
    lemma_skip_gap(tail, n + 1, n + 1);
    let front = tail.subrange(0, n);
    assert(front =~= path + gap);
    assert(path.last() == path[path.len() - 1]);
    lemma_white_tail(path, gap);
    assert(white_prefix_at(tail, n));
    assert forall|k: int| 1 <= k < n implies !#[trigger] white_prefix_at(tail, k) by {
        if k >= path.len() {
            assert(tail[k] == gap[k - path.len()]);
        } else {
            assert(tail[k - 1] == path[k - 1]);
        }
    }
    lemma_first_white_sign(tail, n, 1);
}

// ---------------------------------------------------------------------------
// The end marker
// ---------------------------------------------------------------------------
proof fn lemma_find_first(s: Seq<char>, p: Seq<char>, n: int)
    requires
        p.len() > 0,
        occurs_at(s, p, n),
        forall|k: int| 0 <= k < n ==> #[trigger] s[k] != p[0],
    ensures
        find_text(s, p) == Some(n),
{
    lemma_find_from(s, p, 0);
    let k = find_text(s, p)->0;
    assert(occurs_at(s, p, n));
    if k < n {
        assert(s.subrange(k, k + p.len())[0] == s[k]);
    }
}

/// The end marker divides a line that is neither added nor removed; it divides an added or
/// removed line only at its end, and only where no line behind it is the end marker.
pub proof fn law_end_marker_divides_a_line(
    queue: Seq<RepairItem>,
    code: Seq<char>,
    rest: Seq<char>,
)
    requires
        !code.contains('*'),
        code.len() > 0,
        !is_white(code[0]),
        rest.len() > 0 ==> !is_white(rest.last()),
    ensures
        ({
            let text = code + "*** End Patch"@ + rest;
            let found = end_cut(queue, text, RepairOrigin::Original);
            let is_diff = code[0] == '+' || code[0] == '-';
            let ends_later = exists|i: int|
                0 <= i < queue.len() && trimmed(#[trigger] queue[i].text) == "*** End Patch"@;
            &&& found is Some ==> found == Some(code.len() as int)
            &&& found is Some <==> !is_diff || (rest.len() == 0 && !ends_later)
            &&& embedded_end_patch(text) <==> !is_diff
        }),
{
    reveal_strlit("*** End Patch");
    let text = code + "*** End Patch"@ + rest;
    let n = code.len() as int;
    assert(text[0] == code[0]);
    assert(skip_white(text, 0) == 0);
    assert(trimmed_start(text) =~= text);
    if rest.len() > 0 {
        assert(text.last() == rest.last());
    } else {
        assert(text.last() == 'h');
    }
    lemma_trimmed_end(text);
    assert(text.subrange(n, n + 13) =~= "*** End Patch"@);
    assert(occurs_at(text, END_PATCH_MARKER@, n));
    assert forall|k: int| 0 <= k < n implies #[trigger] text[k] != '*' by {
        assert(text[k] == code[k]);
        assert(code.contains(code[k]));
    }
    lemma_find_first(text, END_PATCH_MARKER@, n);
    assert(trimmed(text) == text);
    assert(code.contains(code[0]));
    assert(text != END_PATCH_MARKER@);
}

// ---------------------------------------------------------------------------
// Markers inside diff lines
// ---------------------------------------------------------------------------
/// One of the markers that stand in a patch by their own line, but for the context marker.
pub open spec fn is_line_marker(marker: Seq<char>) -> bool {
    marker == "*** Begin Patch"@ || marker == "*** End Patch"@ || marker == "*** Add File: "@
        || marker == "*** Delete File: "@ || marker == "*** Update File: "@ || marker
        == "*** Move to: "@ || marker == "*** End of File"@
}

/// The line is a diff line, and a marker stands in it behind its first character.
pub open spec fn hides(line: Seq<char>, marker: Seq<char>) -> bool {
    &&& !marker_at(trimmed_start(line), 0)
    &&& diff_line(line) matches Some(d) && contains_text(d.skip(1), marker)
    &&& is_line_marker(marker)
}

proof fn lemma_hides(line: Seq<char>)
    ensures
        match diff_line_marker(line) {
            Some(marker) => hides(line, marker),
            None => forall|marker: Seq<char>| !#[trigger] hides(line, marker),
        },
{
}

proof fn lemma_hidden(lines: Seq<Seq<char>>, i: int) -> (k: int)
    requires
        0 <= i <= lines.len(),
    ensures
        match embedded_marker_from(lines, i) {
            Some(marker) => i <= k < lines.len() && hides(lines[k], marker) && forall|
                j: int,
                other: Seq<char>,
            |
                i <= j < k ==> !#[trigger] hides(lines[j], other),
            None => forall|j: int, other: Seq<char>|
                i <= j < lines.len() ==> !#[trigger] hides(lines[j], other),
        },
    decreases lines.len() - i,
{
    if i >= lines.len() {
        i
    } else {
        lemma_hides(lines[i]);
        if diff_line_marker(lines[i]) is Some {
            i
        } else {
            lemma_hidden(lines, i + 1)
        }
    }
}

/// A marker that is told of stands inside a diff line, and none of the lines before it hides
/// one; and where some diff line hides a marker, one is told of.
pub proof fn law_first_hidden_marker_is_told(lines: Seq<Seq<char>>) -> (k: int)
    ensures
        match embedded_marker_from(lines, 0) {
            Some(marker) => 0 <= k < lines.len() && hides(lines[k], marker) && forall|
                j: int,
                other: Seq<char>,
            |
                0 <= j < k ==> !#[trigger] hides(lines[j], other),
            None => forall|j: int, other: Seq<char>|
                0 <= j < lines.len() ==> !#[trigger] hides(lines[j], other),
        },
{
    lemma_hidden(lines, 0)
}

// ---------------------------------------------------------------------------
// Where a context line goes
// ---------------------------------------------------------------------------
/// A line that starts with a marker, or one that was added or removed in the patch itself.
pub open spec fn stops_context(line: RepairItem) -> bool {
    let t = trimmed_start(line.text);
    marker_at(t, 0) || (line.origin == RepairOrigin::Original && t.len() > 0 && (t[0] == '+' || t[0]
        == '-'))
}

proof fn lemma_place(queue: Seq<RepairItem>, i: int)
    requires
        0 <= i <= queue.len(),
    ensures
        i <= context_place(queue, i) <= queue.len(),
        forall|k: int| i <= k < context_place(queue, i) ==> !stops_context(#[trigger] queue[k]),
        context_place(queue, i) < queue.len() ==> stops_context(queue[context_place(queue, i)]),
    decreases queue.len() - i,
{
    if i < queue.len() && !stops_context(queue[i]) {
        lemma_place(queue, i + 1);
    }
}

/// A context line is put before the first waiting line that starts with a marker or is a
/// change of the patch itself, and behind all others before it; no other line is moved.
pub proof fn law_context_line_is_put_before_the_next_change(
    queue: Seq<RepairItem>,
    line: Seq<char>,
) -> (n: int)
    ensures
        0 <= n <= queue.len(),
        with_context(queue, line) == queue.take(n) + seq![
            RepairItem { text: line, origin: RepairOrigin::TailSplit },
        ] + queue.skip(n),
        forall|k: int| 0 <= k < n ==> !stops_context(#[trigger] queue[k]),
        n < queue.len() ==> stops_context(queue[n]),
{
    lemma_place(queue, 0);
    let n = context_place(queue, 0);
    assert(with_context(queue, line) =~= queue.take(n) + seq![
        RepairItem { text: line, origin: RepairOrigin::TailSplit },
    ] + queue.skip(n));
    n
}

/// The line shows the context: it is it, or holds it behind a sign and a space.
pub open spec fn shows_context(line: Seq<char>, context: Seq<char>) -> bool {
    (line.len() > 0 && line[0] == ' ' && line == context) || (line.len() > 2 && (line[0] == '+'
        || line[0] == '-') && line[1] == ' ' && line == seq![line[0], ' '] + context)
}

proof fn lemma_shown(lines: Seq<Seq<char>>, n: int, context: Seq<char>)
    requires
        0 <= n <= lines.len(),
    ensures
        last_context(lines, n) == Some(context) <==> exists|k: int|
            {
                &&& 0 <= k < n
                &&& shows_context(#[trigger] lines[k], context)
                &&& forall|j: int, other: Seq<char>|
                    k < j < n ==> !#[trigger] shows_context(lines[j], other)
            },
    decreases n,
{
    if n > 0 {
        lemma_shown(lines, n - 1, context);
        let line = lines[n - 1];
        if line.len() > 2 {
            assert(line =~= seq![line[0], line[1]] + line.skip(2));
        }
        if context_text(line) is Some {
            let own = context_text(line)->0;
            assert(shows_context(line, own));
            assert(forall|other: Seq<char>| #[trigger]
                shows_context(line, other) ==> other == own) by {
                assert forall|other: Seq<char>| #[trigger] shows_context(line, other) implies other
                    == own by {
                    if line[0] != ' ' {
                        assert((seq![line[0], ' '] + other).skip(2) =~= other);
                    }
                }
            }
            if own != context {
                assert(!shows_context(line, context));
            }
        } else {
            assert(forall|other: Seq<char>| !#[trigger] shows_context(line, other));
        }
    }
}

/// A context line counts as repeated exactly where the last line of the repaired text that
/// shows any context shows this one.
pub proof fn law_context_is_repeated_where_it_was_shown_last(
    repaired: Seq<char>,
    context: Seq<char>,
)
    ensures
        repeats_context(repaired, context) <==> exists|k: int|
            {
                &&& 0 <= k < line_seq(repaired).len()
                &&& shows_context(#[trigger] line_seq(repaired)[k], context)
                &&& forall|j: int, other: Seq<char>|
                    k < j < line_seq(repaired).len() ==> !#[trigger] shows_context(
                        line_seq(repaired)[j],
                        other,
                    )
            },
{
    lemma_shown(line_seq(repaired), line_seq(repaired).len() as int, context);
}

// ---------------------------------------------------------------------------
// A change behind a context marker
// ---------------------------------------------------------------------------
/// An added or removed line behind a context marker is taken up again as a line of its own;
/// other text behind it is the context.
pub proof fn law_change_behind_a_context_marker_is_split_off(
    state: RepairState,
    rest: Seq<char>,
    origin: RepairOrigin,
)
    requires
        rest.len() > 0,
        !is_white(rest[0]) && !is_white(rest.last()),
        rest[0] != '*' && rest[0] != '@',
    ensures
        ({
            let after = repair_line(state, RepairItem { text: "@@ "@ + rest, origin });
            if rest[0] == '+' || rest[0] == '-' {
                &&& after.text == state.text + "@@ \n"@
                &&& after.queue == seq![
                    RepairItem { text: rest, origin: RepairOrigin::TailSplit },
                ] + state.queue
            } else {
                &&& after.text == state.text + "@@ "@ + rest + "\n"@
                &&& after.queue == state.queue
            }
        }),
{
    reveal_strlit("@@ ");
    reveal_strlit("@@");
    reveal_strlit("@@ \n");
    reveal_strlit("\n");
    lemma_starts_of_markers();
    let line = "@@ "@ + rest;
    assert(line[0] == '@');
    assert(skip_white(line, 0) == 0);
    assert(trimmed_start(line) =~= line);
    assert forall|m: Seq<char>| #[trigger] is_some_marker(m) && occurs_at(line, m, 0) implies m[0]
        == '@' by {
        assert(line.subrange(0, m.len() as int)[0] == line[0]);
    }
    assert(is_some_marker(BEGIN_PATCH_MARKER@));
    assert(is_some_marker(ADD_FILE_MARKER@));
    assert(is_some_marker(DELETE_FILE_MARKER@));
    assert(is_some_marker(UPDATE_FILE_MARKER@));
    assert(is_some_marker(MOVE_TO_MARKER@));
    assert(is_some_marker(EOF_MARKER@));
    assert(is_some_marker(END_PATCH_MARKER@));
    reveal_strlit("*** Begin Patch");
    reveal_strlit("*** End Patch");
    reveal_strlit("*** Add File: ");
    reveal_strlit("*** Delete File: ");
    reveal_strlit("*** Update File: ");
    reveal_strlit("*** Move to: ");
    reveal_strlit("*** End of File");
    assert(line.subrange(0, 3) =~= "@@ "@);
    assert(line.skip(3) =~= rest);
    assert(skip_white(rest, 0) == 0);
    assert(trimmed_start(rest) =~= rest);
    if marker_at(rest, 0) {
        lemma_marker_start(rest, 0);
    }
    lemma_ended_one("@@ "@);
    assert(line.last() == rest.last());
    lemma_trimmed_end(line);
    lemma_ended_one(line);
    assert("@@ "@ + seq!['\n'] =~= "@@ \n"@);
    assert(state.text + (line + seq!['\n']) =~= state.text + "@@ "@ + rest + "\n"@);
}

// ---------------------------------------------------------------------------
// A removed line and an added one
// ---------------------------------------------------------------------------
/// What a removed or added line becomes where it stood in one line with one of the other
/// kind: a line of closing characters alone is a context line, any other stays.
pub open spec fn told_apart(line: Seq<char>) -> Seq<char> {
    let code = trimmed_start(line.skip(1));
    if code.len() > 0 && forall|i: int|
        0 <= i < code.len() ==> (#[trigger] code[i]) == '}' || code[i] == ']' || code[i] == ')'
            || code[i] == ';' || code[i] == ',' {
        seq![' '] + line.skip(1)
    } else {
        line
    }
}

proof fn lemma_one_candidate(d: Seq<char>, n: int, i: int, last: int)
    requires
        2 <= n,
        n + 1 < d.len(),
        d[0] == '-' && d[n] == '+',
        forall|k: int| 1 <= k < d.len() && k != n ==> !prefix_char(#[trigger] d[k]),
        !is_white(d[n - 1]) && !is_white(d[n + 1]) && d[n + 1] != '=',
        1 <= i,
        i <= n ==> last == 0,
    ensures
        split_points(d, i, last) =~= if i <= n {
            seq![n]
        } else {
            Seq::empty()
        },
    decreases d.len() - i,
{
    if i < d.len() {
        if i == n {
            lemma_skip_gap(d, n + 1, n + 1);
            assert(split_candidate(d, n));
            lemma_one_candidate(d, n, i + 1, i);
        } else {
            assert(!prefix_char(d[i]));
            assert(!split_candidate(d, i));
            lemma_one_candidate(d, n, i + 1, last);
        }
    }
}

/// A removed line and the added line behind it are told apart, without any space between
/// them, whatever the first one ends with.
pub proof fn law_added_line_behind_a_removed_one_is_split_off(old: Seq<char>, new: Seq<char>)
    requires
        old.len() > 0 && new.len() > 0,
        has_no_sign(old) && has_no_sign(new),
        has_no_marker(old) && has_no_marker(new),
        !is_white(old.last()),
        !is_white(new[0]) && !is_white(new.last()) && new[0] != '=',
    ensures
        squashed_pieces(seq!['-'] + old + seq!['+'] + new) == Some(
            seq![told_apart(seq!['-'] + old), told_apart(seq!['+'] + new)],
        ),
{
    let a = seq!['-'] + old;
    let b = seq!['+'] + new;
    let d = seq!['-'] + old + seq!['+'] + new;
    let n = a.len() as int;
    let content = d.subrange(1, d.len() as int);
    assert(content =~= old + (seq!['+'] + new));
    lemma_no_marker_across(old, '+', new);
    lemma_no_marker(content);
    assert forall|k: int| 1 <= k < d.len() && k != n implies !prefix_char(#[trigger] d[k]) by {
        if k < n {
            assert(d[k] == old[k - 1]);
        } else {
            assert(d[k] == new[k - n - 1]);
        }
    }
    assert(d[0] == '-' && d[n] == '+' && d[n - 1] == old.last() && d[n + 1] == new[0]);
    assert(skip_white(d, 0) == 0);
    assert(trimmed_start(d) =~= d);
    lemma_one_candidate(d, n, 1, 0);
    let points = split_points(d, 1, 0);
    assert forall|k: int| 0 <= k < content.len() && k != n - 1 implies !prefix_char(
        #[trigger] content[k],
    ) by {
        assert(content[k] == d[k + 1]);
    }
    assert(content[n - 1] == d[n]);
    reveal_strlit("+++ ");
    reveal_strlit("--- ");
    reveal_strlit("@@ ");
    reveal_strlit("->");
    lemma_no_row(content, n - 1, "+++ "@);
    lemma_no_row(content, n - 1, "--- "@);
    assert(!contains_text(content, "@@ "@)) by {
        if contains_text(content, "@@ "@) {
            let i = choose|i: int| #[trigger] occurs_at(content, "@@ "@, i);
            assert(marker_at(content, i));
        }
    }
    lemma_absent(content, "->"@);
    assert(!prefix_char(d[1]));
    // the pieces
    assert(points.len() == 1 && points[0] == n);
    assert(cut(d, points, 0) == (Seq::<Seq<char>>::empty(), 0int));
    assert(d.subrange(0, n) =~= a);
    assert(a.last() == old.last());
    lemma_trimmed_end(a);
    assert(piece_start(d, n) == n) by {
        assert(!is_ascii_white(d[n]));
        assert(skip_ascii_white(d, n) == n);
        assert(!is_ascii_white(d[n + 1]));
        assert(last_repeat(d, n, n + 1) == n);
    }
    let front = Seq::<Seq<char>>::empty().push(a);
    assert(cut(d, points, 1) == (front, n));
    let part = d.subrange(n, d.len() as int);
    assert(part =~= b);
    assert(b.last() == new.last());
    lemma_trimmed_end(b);
    assert(!prefix_char(b.last())) by {
        assert(new.last() == new[new.len() - 1]);
    }
    assert(last_pieces(b) =~= seq![b]);
    let all = front + last_pieces(b);
    assert(all =~= seq![a, b]);
    assert(all[1] == b && b[0] == '+');
    assert(mixed_prefixes(all, d[0]));
    lemma_told_apart_is(a);
    lemma_told_apart_is(b);
    assert(point_pieces(d)->0 =~= seq![told_apart(a), told_apart(b)]);
}

proof fn lemma_told_apart_is(line: Seq<char>)
    requires
        line.len() > 0,
        prefix_char(line[0]),
    ensures
        closing_as_context(line) == told_apart(line),
{
    assert(line.subrange(1, line.len() as int) =~= line.skip(1));
    assert(line.update(0, ' ') =~= seq![' '] + line.skip(1));
}

// ---------------------------------------------------------------------------
// How a path and a line behind it are told apart
// ---------------------------------------------------------------------------
/// One if it holds, and else nothing.
pub open spec fn if_so(holds: bool) -> int {
    if holds {
        1
    } else {
        0
    }
}

/// A place behind a path counts by what stands around it: for it that what follows is split
/// further and that the name before it has a dot; against it that the name has white space
/// or a dot at its end, and most of all that another file name follows a name without a
/// dot. A plus may stand at any place; another sign only where what follows is split further
/// or holds a marker.
pub proof fn law_what_a_place_behind_a_path_counts(front: Seq<char>, name: Seq<char>, rest: Seq<char>)
    requires
        front.len() == 0 || front.last() == '/',
        name.len() > 0,
        !name.contains('/') && !name.contains('\\'),
        rest.len() > 0,
    ensures
        ({
            let score = split_score(front + name + rest, (front + name).len() as int);
            let further = squashed_pieces(rest) is Some;
            let dotted = name.contains('.');
            let spaced = exists|i: int| 0 <= i < name.len() && is_white(#[trigger] name[i]);
            let next = trimmed(segment_after(rest, 0));
            let file = looks_like_file_name(next);
            &&& score is Some <==> if rest[0] == '+' {
                !file || dotted || further || contains_marker(rest)
            } else {
                further || contains_marker(rest)
            }
            &&& score matches Some(n) ==> n == 3 * if_so(further) + 2 * if_so(dotted) - 4 * if_so(
                file && !dotted,
            ) - 2 * if_so(spaced) - if_so(name.last() == '.')
        }),
{
    let tail = front + name + rest;
    let i = (front + name).len() as int;
    assert(tail.subrange(i, tail.len() as int) =~= rest);
    lemma_contains_marker(rest);
    let path = tail.subrange(0, i);
    assert(path =~= front + name);
    lemma_name_behind(front, name, name.len() as int);
    assert(file_name_start(path) == front.len());
    assert(path.subrange(front.len() as int, i) =~= name);
    assert(tail[i] == rest[0]);
    assert(segment_after(tail, i) =~= segment_after(rest, 0)) by {
        if i + 1 < tail.len() {
            lemma_segment_shift(front + name, rest, 1);
            let e = segment_end(rest, 1);
            lemma_segment_end(rest, 1);
            assert(tail.subrange(i + 1, i + e) =~= rest.subrange(1, e));
        }
    }
}

proof fn lemma_name_behind(front: Seq<char>, name: Seq<char>, n: int)
    requires
        front.len() == 0 || front.last() == '/',
        !name.contains('/') && !name.contains('\\'),
        0 <= n <= name.len(),
    ensures
        name_start(front + name, front.len() + n) == front.len(),
    decreases n,
{
    let path = front + name;
    if n > 0 {
        lemma_name_behind(front, name, n - 1);
        assert(path[front.len() + n - 1] == name[n - 1]);
        assert(name.contains(name[n - 1]));
    } else if front.len() > 0 {
        assert(path[front.len() - 1] == front.last());
    }
}

proof fn lemma_segment_end(s: Seq<char>, i: int)
    requires
        0 <= i <= s.len(),
    ensures
        i <= segment_end(s, i) <= s.len(),
    decreases s.len() - i,
{
    if i < s.len() && !prefix_char(s[i]) && s[i] != ' ' {
        lemma_segment_end(s, i + 1);
    }
}

proof fn lemma_segment_shift(front: Seq<char>, s: Seq<char>, i: int)
    requires
        0 <= i <= s.len(),
    ensures
        segment_end(front + s, front.len() + i) == front.len() + segment_end(s, i),
    decreases s.len() - i,
{
    if i < s.len() {
        assert((front + s)[front.len() + i] == s[i]);
        if !prefix_char(s[i]) && s[i] != ' ' {
            lemma_segment_shift(front, s, i + 1);
        }
    }
}

} // verus!
