//! Whole patches, line by line: the end marker and missing diff prefixes.
use vstd::prelude::*;

use crate::lines::{ended, lemma_texts_push, line_seq, push_lines, split_lines, texts};
use crate::markers::{
    is_prefix_char, prefix_char, ADD_FILE_MARKER, BEGIN_PATCH_MARKER, CHANGE_CONTEXT_MARKER,
    DELETE_FILE_MARKER, EMPTY_CHANGE_CONTEXT_MARKER, END_PATCH_MARKER, EOF_MARKER, MOVE_TO_MARKER,
    UPDATE_FILE_MARKER,
};
use crate::text::{
    append_text, chars_of, copy_text, has_prefix, lemma_skip_white, skip_white, starts_with,
    text_is, trim, trim_start, trimmed, trimmed_start,
};

verus! {

// ---------------------------------------------------------------------------
// After the end marker
// ---------------------------------------------------------------------------
pub open spec fn is_end_line(line: Seq<char>) -> bool {
    trimmed(line) == END_PATCH_MARKER@
}

/// The first line at or after `i` that holds the end marker alone.
pub open spec fn end_line_from(lines: Seq<Seq<char>>, i: int) -> int
    decreases lines.len() - i,
{
    if 0 <= i < lines.len() && !is_end_line(lines[i]) {
        end_line_from(lines, i + 1)
    } else {
        i
    }
}

/// The text up to its first end line, if it holds two.
pub open spec fn truncated(text: Seq<char>) -> Seq<char> {
    let lines = line_seq(text);
    let first = end_line_from(lines, 0);
    if first < lines.len() && end_line_from(lines, first + 1) < lines.len() {
        ended(lines.take(first + 1))
    } else {
        text
    }
}

fn find_end_line(lines: &[Vec<char>], from: usize) -> (r: usize)
    requires
        from <= lines@.len(),
    ensures
        r == end_line_from(texts(lines@), from as int),
        from <= r <= lines@.len(),
{
    let mut i: usize = from;
    while i < lines.len() && !text_is(trim(lines[i].as_slice()), END_PATCH_MARKER)
        invariant
            from <= i <= lines@.len(),
            end_line_from(texts(lines@), from as int) == end_line_from(texts(lines@), i as int),
        decreases lines@.len() - i,
    {
        i += 1;
    }
    i
}

/// Drops what follows the first end line, if there is a second one.
pub fn truncate_after_end_patch(repaired: &[char]) -> (r: Vec<char>)
    ensures
        r@ == truncated(repaired@),
{
    let lines: Vec<Vec<char>> = split_lines(repaired);
    let first: usize = find_end_line(lines.as_slice(), 0);
    if first < lines.len() {
        let second: usize = find_end_line(lines.as_slice(), first + 1);
        if second < lines.len() {
            let mut out: Vec<char> = Vec::new();
            let kept: &[Vec<char>] = vstd::slice::slice_subrange(lines.as_slice(), 0, first + 1);
            push_lines(&mut out, kept);
            assert(texts(kept@) =~= line_seq(repaired@).take(first + 1));
            assert(out@ =~= ended(texts(kept@)));
            return out;
        }
    }
    copy_text(repaired)
}

// ---------------------------------------------------------------------------
// Missing prefixes
// ---------------------------------------------------------------------------
/// The kind of hunk that a line stands in.
#[derive(Clone, Copy, Debug, PartialEq, Eq, Structural)]
pub enum RepairHunkKind {
    Add,
    Update,
}

/// The hunk a line stands in and the prefix of the line before it.
#[derive(Clone, Copy, Debug, PartialEq, Eq, Structural)]
pub struct PrefixState {
    pub hunk: Option<RepairHunkKind>,
    pub last: Option<char>,
}

/// The state behind a line, and the line with its prefix.
pub open spec fn prefix_step(state: PrefixState, line: Seq<char>) -> (PrefixState, Seq<char>) {
    let t = trimmed_start(line);
    let update = Some(RepairHunkKind::Update);
    let kept = if state.hunk.is_none() {
        update
    } else {
        state.hunk
    };
    if has_prefix(t, BEGIN_PATCH_MARKER@) {
        (PrefixState { hunk: None, last: None }, line)
    } else if has_prefix(t, ADD_FILE_MARKER@) {
        (PrefixState { hunk: Some(RepairHunkKind::Add), last: None }, line)
    } else if has_prefix(t, UPDATE_FILE_MARKER@) {
        (PrefixState { hunk: update, last: None }, line)
    } else if has_prefix(t, DELETE_FILE_MARKER@) {
        (PrefixState { hunk: None, last: None }, line)
    } else if has_prefix(t, MOVE_TO_MARKER@) {
        (PrefixState { hunk: kept, last: None }, line)
    } else if has_prefix(t, CHANGE_CONTEXT_MARKER@) || t == EMPTY_CHANGE_CONTEXT_MARKER@ {
        (PrefixState { hunk: update, last: None }, line)
    } else if has_prefix(t, EOF_MARKER@) {
        (PrefixState { hunk: kept, last: None }, line)
    } else if t == END_PATCH_MARKER@ {
        (PrefixState { hunk: None, last: None }, END_PATCH_MARKER@)
    } else if line.len() > 0 && (prefix_char(line[0]) || line[0] == ' ') {
        (PrefixState { hunk: state.hunk, last: Some(line[0]) }, line)
    } else {
        match missing_prefix(state, line.len() == 0) {
            Some(c) => (PrefixState { hunk: state.hunk, last: Some(c) }, seq![c] + line),
            None => (state, line),
        }
    }
}

/// The prefix that a line without one gets.
pub open spec fn missing_prefix(state: PrefixState, is_empty: bool) -> Option<char> {
    match state.hunk {
        None => None,
        Some(RepairHunkKind::Add) => Some('+'),
        Some(RepairHunkKind::Update) => if is_empty {
            state.last
        } else if state.last == Some(' ') {
            Some(' ')
        } else {
            Some('+')
        },
    }
}

/// The state behind the first `n` lines, and these lines with their prefixes.
pub open spec fn prefixed(lines: Seq<Seq<char>>, n: int) -> (PrefixState, Seq<Seq<char>>)
    decreases n,
{
    if n <= 0 {
        (PrefixState { hunk: None, last: None }, Seq::empty())
    } else {
        let (state, out) = prefixed(lines, n - 1);
        let (next, line) = prefix_step(state, lines[n - 1]);
        (next, out.push(line))
    }
}

/// The lines with their prefixes.
pub open spec fn prefixed_lines(lines: Seq<Seq<char>>) -> Seq<Seq<char>> {
    prefixed(lines, lines.len() as int).1
}

fn find_missing_prefix(state: PrefixState, is_empty: bool) -> (r: Option<char>)
    ensures
        r == missing_prefix(state, is_empty),
{
    match state.hunk {
        None => None,
        Some(RepairHunkKind::Add) => Some('+'),
        Some(RepairHunkKind::Update) => if is_empty {
            state.last
        } else {
            match state.last {
                Some(' ') => Some(' '),
                _ => Some('+'),
            }
        },
    }
}

fn prefix_line(state: PrefixState, line: &[char]) -> (r: (PrefixState, Vec<char>))
    ensures
        (r.0, r.1@) == prefix_step(state, line@),
{
    let t: &[char] = trim_start(line);
    let update: Option<RepairHunkKind> = Some(RepairHunkKind::Update);
    let kept: Option<RepairHunkKind> = if state.hunk.is_none() {
        update
    } else {
        state.hunk
    };
    if starts_with(t, BEGIN_PATCH_MARKER) {
        (PrefixState { hunk: None, last: None }, copy_text(line))
    } else if starts_with(t, ADD_FILE_MARKER) {
        (PrefixState { hunk: Some(RepairHunkKind::Add), last: None }, copy_text(line))
    } else if starts_with(t, UPDATE_FILE_MARKER) {
        (PrefixState { hunk: update, last: None }, copy_text(line))
    } else if starts_with(t, DELETE_FILE_MARKER) {
        (PrefixState { hunk: None, last: None }, copy_text(line))
    } else if starts_with(t, MOVE_TO_MARKER) {
        (PrefixState { hunk: kept, last: None }, copy_text(line))
    } else if starts_with(t, CHANGE_CONTEXT_MARKER) || text_is(t, EMPTY_CHANGE_CONTEXT_MARKER) {
        (PrefixState { hunk: update, last: None }, copy_text(line))
    } else if starts_with(t, EOF_MARKER) {
        (PrefixState { hunk: kept, last: None }, copy_text(line))
    } else if text_is(t, END_PATCH_MARKER) {
        (PrefixState { hunk: None, last: None }, chars_of(END_PATCH_MARKER))
    } else if line.len() > 0 && (is_prefix_char(line[0]) || line[0] == ' ') {
        (PrefixState { hunk: state.hunk, last: Some(line[0]) }, copy_text(line))
    } else {
        match find_missing_prefix(state, line.len() == 0) {
            Some(c) => {
                let mut out: Vec<char> = Vec::new();
                out.push(c);
                append_text(&mut out, line);
                assert(out@ =~= seq![c] + line@);
                (PrefixState { hunk: state.hunk, last: Some(c) }, out)
            },
            None => (state, copy_text(line)),
        }
    }
}

/// Gives every line of a hunk that lacks one a diff prefix.
pub fn prefix_missing_diff_lines(patch: &[char]) -> (r: Vec<char>)
    ensures
        r@ == ended(prefixed_lines(line_seq(patch@))),
{
    let lines: Vec<Vec<char>> = split_lines(patch);
    let mut out: Vec<Vec<char>> = Vec::new();
    let mut state: PrefixState = PrefixState { hunk: None, last: None };
    let mut i: usize = 0;
    assert(texts(out@) =~= Seq::<Seq<char>>::empty());
    while i < lines.len()
        invariant
            i <= lines@.len(),
            (state, texts(out@)) == prefixed(texts(lines@), i as int),
        decreases lines@.len() - i,
    {
        let (next, line) = prefix_line(state, lines[i].as_slice());
        proof {
            lemma_texts_push(out@, line);
        }
        out.push(line);
        state = next;
        i += 1;
    }
    let mut text: Vec<char> = Vec::new();
    push_lines(&mut text, out.as_slice());
    assert(text@ =~= ended(texts(out@)));
    text
}

proof fn lemma_prefixed_len(lines: Seq<Seq<char>>, n: int)
    requires
        0 <= n <= lines.len(),
    ensures
        prefixed(lines, n).1.len() == n,
    decreases n,
{
    if n > 0 {
        lemma_prefixed_len(lines, n - 1);
    }
}

proof fn lemma_prefixed_keeps(lines: Seq<Seq<char>>, n: int, k: int)
    requires
        0 <= k < n <= lines.len(),
    ensures
        prefixed(lines, n).1[k] == prefix_step(prefixed(lines, k).0, lines[k]).1,
    decreases n,
{
    lemma_prefixed_len(lines, n - 1);
    if k < n - 1 {
        lemma_prefixed_keeps(lines, n - 1, k);
    }
}

/// No line is lost and none is added, and a line loses no text: it stays as it
/// is, gets a prefix in front, or is an end marker without the white space before
/// it.
pub proof fn law_prefixing_keeps_lines(lines: Seq<Seq<char>>, k: int)
    requires
        0 <= k < lines.len(),
    ensures
        prefixed_lines(lines).len() == lines.len(),
        ({
            let line = prefixed_lines(lines)[k];
            ||| line == lines[k]
            ||| line.len() > 0 && line == seq![line[0]] + lines[k]
            ||| line == END_PATCH_MARKER@ && trimmed_start(lines[k]) == END_PATCH_MARKER@
        }),
{
    lemma_prefixed_len(lines, lines.len() as int);
    lemma_prefixed_keeps(lines, lines.len() as int, k);
}

/// A line with a prefix in front reads on as before.
proof fn lemma_prefixed_start(c: char, line: Seq<char>)
    requires
        prefix_char(c) || c == ' ',
    ensures
        trimmed_start(seq![c] + line) == if c == ' ' {
            trimmed_start(line)
        } else {
            seq![c] + line
        },
{
    let whole = seq![c] + line;
    if c == ' ' {
        lemma_skip_shift(c, line, 0);
        lemma_skip_white(line, 0);
        assert(trimmed_start(whole) =~= trimmed_start(line));
    } else {
        assert(skip_white(whole, 0) == 0);
        assert(trimmed_start(whole) =~= whole);
    }
}

proof fn lemma_skip_shift(c: char, line: Seq<char>, i: int)
    requires
        0 <= i <= line.len(),
    ensures
        skip_white(seq![c] + line, i + 1) == skip_white(line, i) + 1,
    decreases line.len() - i,
{
    let whole = seq![c] + line;
    if i < line.len() {
        assert(whole[i + 1] == line[i]);
        lemma_skip_shift(c, line, i + 1);
    }
}

/// The prefix of the line before is one of the three.
pub open spec fn valid_prefix_state(state: PrefixState) -> bool {
    match state.last {
        Some(c) => prefix_char(c) || c == ' ',
        None => true,
    }
}

proof fn lemma_prefix_step_again(state: PrefixState, line: Seq<char>)
    requires
        valid_prefix_state(state),
    ensures
        valid_prefix_state(prefix_step(state, line).0),
        prefix_step(state, prefix_step(state, line).1) == prefix_step(state, line),
{
    let t = trimmed_start(line);
    let (next, out) = prefix_step(state, line);
    crate::markers::lemma_marker_lengths();
    reveal_strlit("*** Begin Patch");
    reveal_strlit("*** End Patch");
    reveal_strlit("*** Add File: ");
    reveal_strlit("*** Delete File: ");
    reveal_strlit("*** Update File: ");
    reveal_strlit("*** Move to: ");
    reveal_strlit("*** End of File");
    reveal_strlit("@@ ");
    reveal_strlit("@@");
    if out == line {
    } else if t == END_PATCH_MARKER@ && out == END_PATCH_MARKER@ {
        assert(skip_white(out, 0) == 0);
        assert(trimmed_start(out) =~= out);
    } else {
        let c = out[0];
        assert(out == seq![c] + line);
        lemma_prefixed_start(c, line);
        assert(out.len() > 0);
        if c != ' ' {
            assert(trimmed_start(out) == out);
            assert(out[0] != '*' && out[0] != '@');
        } else {
            assert(trimmed_start(out) == t);
        }
        assert(prefix_step(state, out) == (PrefixState { hunk: state.hunk, last: Some(c) }, out));
    }
}

/// Lines that have got their prefixes keep the state behind them.
pub proof fn lemma_prefixed_again(lines: Seq<Seq<char>>, n: int)
    requires
        0 <= n <= lines.len(),
    ensures
        valid_prefix_state(prefixed(lines, n).0),
        prefixed(prefixed_lines(lines), n) == prefixed(lines, n),
    decreases n,
{
    if n > 0 {
        lemma_prefixed_again(lines, n - 1);
        lemma_prefixed_keeps(lines, lines.len() as int, n - 1);
        lemma_prefix_step_again(prefixed(lines, n - 1).0, lines[n - 1]);
    }
}

/// Lines that have got their prefixes get no others.
pub proof fn law_prefixing_twice_changes_nothing(lines: Seq<Seq<char>>)
    ensures
        prefixed_lines(prefixed_lines(lines)) == prefixed_lines(lines),
{
    lemma_prefixed_len(lines, lines.len() as int);
    lemma_prefixed_again(lines, lines.len() as int);
}

/// A line that says where a hunk starts or ends, or opens a part of it.
pub open spec fn is_marker_line(line: Seq<char>) -> bool {
    let t = trimmed_start(line);
    ||| has_prefix(t, BEGIN_PATCH_MARKER@)
    ||| has_prefix(t, ADD_FILE_MARKER@)
    ||| has_prefix(t, UPDATE_FILE_MARKER@)
    ||| has_prefix(t, DELETE_FILE_MARKER@)
    ||| has_prefix(t, MOVE_TO_MARKER@)
    ||| has_prefix(t, CHANGE_CONTEXT_MARKER@)
    ||| t == EMPTY_CHANGE_CONTEXT_MARKER@
    ||| has_prefix(t, EOF_MARKER@)
    ||| t == END_PATCH_MARKER@
}

/// A line of a hunk that lacks its diff prefix.
pub open spec fn lacks_prefix(line: Seq<char>) -> bool {
    &&& !is_marker_line(line)
    &&& line.len() == 0 || !(line[0] == '+' || line[0] == '-' || line[0] == ' ')
}

proof fn lemma_state_behind(lines: Seq<Seq<char>>, h: int, n: int)
    requires
        0 <= h < n <= lines.len(),
        forall|k: int| h < k < n ==> !is_marker_line(#[trigger] lines[k]),
    ensures
        prefixed(lines, n).0.hunk == prefixed(lines, h + 1).0.hunk,
    decreases n,
{
    if h + 1 < n {
        lemma_state_behind(lines, h, n - 1);
        assert(!is_marker_line(lines[n - 1]));
    }
}

proof fn lemma_marker_starts()
    ensures
        BEGIN_PATCH_MARKER@.len() == 15 && BEGIN_PATCH_MARKER@[4] == 'B',
        ADD_FILE_MARKER@.len() == 14 && ADD_FILE_MARKER@[4] == 'A',
        UPDATE_FILE_MARKER@.len() == 17 && UPDATE_FILE_MARKER@[4] == 'U',
{
    reveal_strlit("*** Begin Patch");
    reveal_strlit("*** Add File: ");
    reveal_strlit("*** Update File: ");
}

proof fn lemma_fifth(t: Seq<char>, marker: Seq<char>)
    requires
        marker.len() > 4,
    ensures
        has_prefix(t, marker) ==> t[4] == marker[4],
{
    if has_prefix(t, marker) {
        assert(t.subrange(0, marker.len() as int)[4] == t[4]);
    }
}

/// A line of a new file that lacks its prefix is an added line.
pub proof fn law_lines_of_a_new_file_are_added(lines: Seq<Seq<char>>, h: int, k: int)
    requires
        0 <= h < k < lines.len(),
        has_prefix(trimmed_start(lines[h]), ADD_FILE_MARKER@),
        forall|m: int| h < m <= k ==> !is_marker_line(#[trigger] lines[m]),
        lacks_prefix(lines[k]),
    ensures
        prefixed_lines(lines)[k] == seq!['+'] + lines[k],
{
    lemma_prefixed_keeps(lines, lines.len() as int, k);
    lemma_state_behind(lines, h, k);
    lemma_marker_starts();
    lemma_fifth(trimmed_start(lines[h]), BEGIN_PATCH_MARKER@);
    lemma_fifth(trimmed_start(lines[h]), ADD_FILE_MARKER@);
    assert(prefixed(lines, h + 1).0.hunk == Some(RepairHunkKind::Add));
    assert(!is_marker_line(lines[k]));
}

/// A line of an update that lacks its prefix and is not empty is a context line behind a
/// context line, else an added line.
pub proof fn law_lines_of_an_update_go_on(lines: Seq<Seq<char>>, h: int, k: int)
    requires
        0 <= h < k < lines.len(),
        has_prefix(trimmed_start(lines[h]), UPDATE_FILE_MARKER@),
        forall|m: int| h < m <= k ==> !is_marker_line(#[trigger] lines[m]),
        lacks_prefix(lines[k]),
        lines[k].len() > 0,
    ensures
        ({
            let out = prefixed_lines(lines);
            out[k] == if h < k - 1 && out[k - 1].len() > 0 && out[k - 1][0] == ' ' {
                seq![' '] + lines[k]
            } else {
                seq!['+'] + lines[k]
            }
        }),
{
    lemma_prefixed_keeps(lines, lines.len() as int, k);
    lemma_state_behind(lines, h, k);
    lemma_marker_starts();
    lemma_fifth(trimmed_start(lines[h]), BEGIN_PATCH_MARKER@);
    lemma_fifth(trimmed_start(lines[h]), ADD_FILE_MARKER@);
    lemma_fifth(trimmed_start(lines[h]), UPDATE_FILE_MARKER@);
    assert(prefixed(lines, h + 1).0 == PrefixState {
        hunk: Some(RepairHunkKind::Update),
        last: None,
    });
    assert(!is_marker_line(lines[k]));
    lemma_last_prefix(lines, h, k);
    if h < k - 1 {
        lemma_prefixed_keeps(lines, lines.len() as int, k - 1);
    }
}

/// Inside an update the prefix of the line before is that of the line as it is shown.
proof fn lemma_last_prefix(lines: Seq<Seq<char>>, h: int, k: int)
    requires
        0 <= h < k <= lines.len(),
        prefixed(lines, h + 1).0 == (PrefixState {
            hunk: Some(RepairHunkKind::Update),
            last: None,
        }),
        forall|m: int| h < m < k ==> !is_marker_line(#[trigger] lines[m]),
    ensures
        prefixed(lines, k).0.hunk == Some(RepairHunkKind::Update),
        h + 1 < k ==> {
            let shown = prefix_step(prefixed(lines, k - 1).0, lines[k - 1]).1;
            (prefixed(lines, k).0.last == Some(' ')) == (shown.len() > 0 && shown[0] == ' ')
        },
        h + 1 == k ==> prefixed(lines, k).0.last is None,
    decreases k,
{
    if h + 1 < k {
        lemma_last_prefix(lines, h, k - 1);
        assert(!is_marker_line(lines[k - 1]));
    }
}

} // verus!
