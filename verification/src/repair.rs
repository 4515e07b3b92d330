//! Repair of patches whose lines were run together.
use std::collections::VecDeque;
use vstd::prelude::*;

use crate::diff_line::{
    diff_line, law_pieces_are_smaller, lemma_diff_line, none_empty, split_squashed_diff_line,
    squashed_pieces, total_len, trim_to_diff_prefix, trim_trailing_prefix_if_squashed,
    without_trailing_prefix,
};
use crate::file_marker::{
    context_parts, embedded_end_patch, find_marker_tail_split, lemma_context_parts,
    lemma_marker_tail_split, line_has_embedded_end_patch, marker_tail_needs_split,
    marker_tail_split, split_missing_context_prefix_line, strip_prefix, tail_needs_split,
};
use crate::lines::{ended, line_seq, push_line, push_lines, split_lines, texts};
use crate::markers::{
    find_marker_boundary, first_marker, is_marker_at, is_prefix_char, lemma_marker_from,
    lemma_marker_lengths, prefix_char, starts_with_marker, ADD_FILE_MARKER, BEGIN_PATCH_MARKER,
    CHANGE_CONTEXT_MARKER, DELETE_FILE_MARKER, EMPTY_CHANGE_CONTEXT_MARKER, END_PATCH_MARKER,
    END_PATCH_LENGTH, EOF_MARKER, MOVE_TO_MARKER, UPDATE_FILE_MARKER,
};
use crate::patch_lines::{
    prefix_missing_diff_lines, prefixed_lines, truncate_after_end_patch, truncated,
};
use crate::text::{
    append_text, chars_of, copy_text, find, find_text, has_prefix, is_blank, is_blank_text,
    lemma_find_from, lemma_trimmed_end, lemma_trimmed_start, same_text, span, string_of, text_is,
    trim, trim_end, trim_start, trimmed, trimmed_end, trimmed_start,
};

verus! {

/// Where a line that waits for repair comes from.
#[derive(Clone, Copy, Debug, PartialEq, Eq, Structural)]
pub enum RepairOrigin {
    /// A line of the patch.
    Original,
    /// A part that was split off a line.
    TailSplit,
}

/// A line that waits for repair.
pub struct RepairLine {
    pub text: Vec<char>,
    pub origin: RepairOrigin,
}

/// What a waiting line holds.
#[verifier::ext_equal]
pub ghost struct RepairItem {
    pub text: Seq<char>,
    pub origin: RepairOrigin,
}

/// A repair in progress: the repaired text and the lines that wait.
#[verifier::ext_equal]
pub ghost struct RepairState {
    pub text: Seq<char>,
    pub queue: Seq<RepairItem>,
}

pub open spec fn item(line: RepairLine) -> RepairItem {
    RepairItem { text: line.text@, origin: line.origin }
}

pub open spec fn items(queue: Seq<RepairLine>) -> Seq<RepairItem> {
    Seq::new(queue.len(), |i: int| item(queue[i]))
}

pub open spec fn tail_item(text: Seq<char>) -> RepairItem {
    RepairItem { text, origin: RepairOrigin::TailSplit }
}

pub open spec fn tail_items(list: Seq<Seq<char>>) -> Seq<RepairItem> {
    Seq::new(list.len(), |i: int| tail_item(list[i]))
}

// ---------------------------------------------------------------------------
// The queue
// ---------------------------------------------------------------------------
/// A marker line, or an added or removed line of the patch itself.
pub open spec fn ends_context(line: RepairItem) -> bool {
    let t = trimmed_start(line.text);
    ||| starts_with_marker(t)
    ||| line.origin == RepairOrigin::Original && t.len() > 0 && prefix_char(t[0])
}

/// The first line at or after `i` before which a context line belongs.
pub open spec fn context_place(queue: Seq<RepairItem>, i: int) -> int
    decreases queue.len() - i,
{
    if 0 <= i < queue.len() && !ends_context(queue[i]) {
        context_place(queue, i + 1)
    } else {
        i
    }
}

/// The queue with a context line in its place.
pub open spec fn with_context(queue: Seq<RepairItem>, line: Seq<char>) -> Seq<RepairItem> {
    queue.insert(context_place(queue, 0), tail_item(line))
}

/// The queue with `text` in front, unless it is empty.
pub open spec fn with_rest(queue: Seq<RepairItem>, text: Seq<char>) -> Seq<RepairItem> {
    if text.len() == 0 {
        queue
    } else {
        seq![tail_item(text)] + queue
    }
}

/// Some waiting line holds the end marker alone.
pub open spec fn has_standalone_end(queue: Seq<RepairItem>) -> bool {
    exists|i: int|
        0 <= i < queue.len() && trimmed(#[trigger] queue[i].text) == END_PATCH_MARKER@
}

/// A context line has a place in the queue.
pub proof fn lemma_context_place(queue: Seq<RepairItem>, i: int)
    requires
        0 <= i <= queue.len(),
    ensures
        i <= context_place(queue, i) <= queue.len(),
    decreases queue.len() - i,
{
    if i < queue.len() && !ends_context(queue[i]) {
        lemma_context_place(queue, i + 1);
    }
}

fn is_end_of_context(line: &RepairLine) -> (r: bool)
    ensures
        r == ends_context(item(*line)),
{
    let t: &[char] = trim_start(line.text.as_slice());
    if is_marker_at(t, 0) {
        return true;
    }
    line.origin == RepairOrigin::Original && t.len() > 0 && is_prefix_char(t[0])
}

/// Puts a context line before the next marker line or the next added or removed
/// line of the patch.
pub fn insert_context_before_marker(queue: &mut VecDeque<RepairLine>, context_line: Vec<char>)
    ensures
        items(final(queue)@) == with_context(items(old(queue)@), context_line@),
{
    let ghost before = items(queue@);
    let mut i: usize = 0;
    while i < queue.len() && !is_end_of_context(&queue[i])
        invariant
            i <= queue@.len(),
            items(queue@) == before,
            queue@ == old(queue)@,
            context_place(before, 0) == context_place(before, i as int),
        decreases queue@.len() - i,
    {
        i += 1;
    }
    let line: RepairLine = RepairLine { text: context_line, origin: RepairOrigin::TailSplit };
    queue.insert(i, line);
    assert(items(queue@) =~= before.insert(i as int, tail_item(context_line@)));
}

fn push_rest(queue: &mut VecDeque<RepairLine>, text: &[char])
    ensures
        items(final(queue)@) == with_rest(items(old(queue)@), text@),
{
    if text.len() > 0 {
        let ghost before = items(queue@);
        queue.push_front(RepairLine { text: copy_text(text), origin: RepairOrigin::TailSplit });
        assert(items(queue@) =~= seq![tail_item(text@)] + before);
    }
}

/// Puts the pieces in front of the queue, the first piece first.
fn push_pieces(queue: &mut VecDeque<RepairLine>, pieces: &[Vec<char>])
    ensures
        items(final(queue)@) == tail_items(texts(pieces@)) + items(old(queue)@),
{
    let ghost before = items(queue@);
    let mut i: usize = pieces.len();
    assert(tail_items(texts(pieces@)).skip(i as int) + before =~= before);
    while i > 0
        invariant
            i <= pieces@.len(),
            items(queue@) == tail_items(texts(pieces@)).skip(i as int) + before,
        decreases i,
    {
        i -= 1;
        let ghost now = items(queue@);
        queue.push_front(
            RepairLine { text: copy_text(pieces[i].as_slice()), origin: RepairOrigin::TailSplit },
        );
        assert(items(queue@) =~= seq![tail_item(pieces@[i as int]@)] + now);
        assert(tail_items(texts(pieces@)).skip(i as int) =~= seq![tail_item(pieces@[i as int]@)]
            + tail_items(texts(pieces@)).skip(i + 1));
        assert(items(queue@) =~= tail_items(texts(pieces@)).skip(i as int) + before);
    }
    assert(tail_items(texts(pieces@)).skip(0) =~= tail_items(texts(pieces@)));
}

/// Puts the pieces in front of the queue, the last piece first.
fn push_pieces_reversed(queue: &mut VecDeque<RepairLine>, pieces: &[Vec<char>])
    ensures
        items(final(queue)@) == tail_items(texts(pieces@).reverse()) + items(old(queue)@),
{
    let ghost before = items(queue@);
    let ghost whole = tail_items(texts(pieces@).reverse());
    let n: usize = pieces.len();
    let mut i: usize = 0;
    assert(whole.skip(n as int) + before =~= before);
    while i < n
        invariant
            i <= n,
            n == pieces@.len(),
            whole == tail_items(texts(pieces@).reverse()),
            items(queue@) == whole.skip(n - i) + before,
        decreases n - i,
    {
        let ghost now = items(queue@);
        queue.push_front(
            RepairLine { text: copy_text(pieces[i].as_slice()), origin: RepairOrigin::TailSplit },
        );
        assert(items(queue@) =~= seq![tail_item(pieces@[i as int]@)] + now);
        assert(whole[n - i - 1] == tail_item(pieces@[i as int]@));
        assert(whole.skip(n - i - 1) =~= seq![whole[n - i - 1]] + whole.skip(n - i));
        i += 1;
        assert(items(queue@) =~= whole.skip(n - i) + before);
    }
    assert(whole.skip(0) =~= whole);
}

fn has_end_line(queue: &VecDeque<RepairLine>) -> (r: bool)
    ensures
        r == has_standalone_end(items(queue@)),
{
    let mut i: usize = 0;
    while i < queue.len()
        invariant
            i <= queue@.len(),
            forall|k: int|
                0 <= k < i ==> trimmed(#[trigger] items(queue@)[k].text) != END_PATCH_MARKER@,
        decreases queue@.len() - i,
    {
        if text_is(trim(queue[i].text.as_slice()), END_PATCH_MARKER) {
            assert(trimmed(items(queue@)[i as int].text) == END_PATCH_MARKER@);
            return true;
        }
        i += 1;
    }
    false
}

// ---------------------------------------------------------------------------
// Repeated context
// ---------------------------------------------------------------------------
/// The text of a context line; a context line may carry a diff prefix.
pub open spec fn context_text(line: Seq<char>) -> Option<Seq<char>> {
    if line.len() > 0 && line[0] == ' ' {
        Some(line)
    } else if line.len() > 2 && prefix_char(line[0]) && line[1] == ' ' {
        Some(line.skip(2))
    } else {
        None
    }
}

/// The text of the last context line among the first `n` lines.
pub open spec fn last_context(lines: Seq<Seq<char>>, n: int) -> Option<Seq<char>>
    decreases n,
{
    if n <= 0 {
        None
    } else if context_text(lines[n - 1]).is_some() {
        context_text(lines[n - 1])
    } else {
        last_context(lines, n - 1)
    }
}

/// The last context line of the repaired text is `line`.
pub open spec fn repeats_context(repaired: Seq<char>, line: Seq<char>) -> bool {
    let lines = line_seq(repaired);
    last_context(lines, lines.len() as int) == Some(line)
}

/// Whether the last context line of the repaired text is `context_line`.
pub fn contains_duplicate_context_line(repaired: &[char], context_line: &[char]) -> (r: bool)
    ensures
        r == repeats_context(repaired@, context_line@),
{
    let lines: Vec<Vec<char>> = split_lines(repaired);
    let ghost all = line_seq(repaired@);
    let mut n: usize = lines.len();
    while n > 0
        invariant
            n <= lines@.len(),
            texts(lines@) == all,
            all == line_seq(repaired@),
            last_context(all, all.len() as int) == last_context(all, n as int),
        decreases n,
    {
        let line: &[char] = lines[n - 1].as_slice();
        assert(line@ == all[n - 1]);
        if line.len() > 0 && line[0] == ' ' {
            return same_text(line, context_line);
        }
        if line.len() > 2 && is_prefix_char(line[0]) && line[1] == ' ' {
            assert(line@.subrange(2, line@.len() as int) =~= line@.skip(2));
            return same_text(span(line, 2, line.len()), context_line);
        }
        n -= 1;
    }
    false
}

// ---------------------------------------------------------------------------
// One line
// ---------------------------------------------------------------------------
/// The repaired lines for what stands before a marker.
pub open spec fn before_marker(before: Seq<char>) -> Seq<char> {
    if before.len() == 0 {
        Seq::empty()
    } else {
        match squashed_pieces(before) {
            Some(pieces) => ended(pieces),
            None => match diff_line(before) {
                Some(d) => ended(seq![trimmed_end(d)]),
                None => ended(seq![before]),
            },
        }
    }
}

/// The line without the prefix that belongs to the next line.
pub open spec fn own_text(queue: Seq<RepairItem>, line: Seq<char>) -> Seq<char> {
    if queue.len() > 0 {
        match without_trailing_prefix(line, queue[0].text) {
            Some(t) => t,
            None => line,
        }
    } else {
        line
    }
}

/// Where the end marker divides `text`, if it does.
pub open spec fn end_cut(queue: Seq<RepairItem>, text: Seq<char>, origin: RepairOrigin) -> Option<
    int,
> {
    let t = trimmed_start(text);
    let shown = trimmed_end(text);
    let is_diff = t.len() > 0 && prefix_char(t[0]);
    match find_text(shown, END_PATCH_MARKER@) {
        None => None,
        Some(e) => if !is_diff || origin == RepairOrigin::TailSplit || (e
            + END_PATCH_MARKER@.len() == shown.len() && !has_standalone_end(queue)) {
            Some(e)
        } else {
            None
        },
    }
}

/// Where a marker divides a part that was split off a line, if it does.
pub open spec fn tail_cut(text: Seq<char>, origin: RepairOrigin) -> Option<int> {
    match first_marker(text) {
        Some(i) => if i > 0 && origin == RepairOrigin::TailSplit {
            Some(i)
        } else {
            None
        },
        None => None,
    }
}

/// The repair of a line that holds no end marker or other marker to split at.
pub open spec fn append_plain(state: RepairState, text: Seq<char>, origin: RepairOrigin) ->
    RepairState {
    match squashed_pieces(text) {
        Some(pieces) => RepairState { text: state.text, queue: tail_items(pieces) + state.queue },
        None => match context_parts(text) {
            Some((first, rest)) => {
                let queue = with_context(state.queue, rest);
                match squashed_pieces(first) {
                    Some(pieces) => RepairState {
                        text: state.text,
                        queue: tail_items(pieces.reverse()) + queue,
                    },
                    None => RepairState {
                        text: state.text + ended(seq![trimmed_end(first)]),
                        queue,
                    },
                }
            },
            None => match diff_line(text) {
                Some(d) => {
                    let shown = trimmed_end(d);
                    if origin == RepairOrigin::TailSplit && shown.len() > 0 && shown[0] == ' '
                        && repeats_context(state.text, shown) {
                        state
                    } else {
                        RepairState { text: state.text + ended(seq![shown]), queue: state.queue }
                    }
                },
                None => RepairState {
                    text: state.text + ended(seq![trimmed_end(text)]),
                    queue: state.queue,
                },
            },
        },
    }
}

/// The repair of a line that does not start with a marker.
pub open spec fn append_line(state: RepairState, line: RepairItem) -> RepairState {
    let text = own_text(state.queue, line.text);
    match tail_cut(text, line.origin) {
        Some(i) => RepairState {
            text: state.text + before_marker(trimmed_end(text.subrange(0, i))),
            queue: with_rest(
                state.queue,
                trimmed_start(text.subrange(i, text.len() as int)),
            ),
        },
        None => match end_cut(state.queue, text, line.origin) {
            Some(e) => {
                let shown = trimmed_end(text);
                RepairState {
                    text: state.text + before_marker(trimmed_end(shown.subrange(0, e))) + ended(
                        seq![END_PATCH_MARKER@],
                    ),
                    queue: with_rest(
                        state.queue,
                        trimmed_start(
                            shown.subrange(e + END_PATCH_MARKER@.len(), shown.len() as int),
                        ),
                    ),
                }
            },
            None => append_plain(state, text, line.origin),
        },
    }
}

/// The repair of a change context marker and the text after it.
pub open spec fn context_marker_line(state: RepairState, marker: Seq<char>, t: Seq<char>) ->
    RepairState {
    let rest = trimmed_start(t.skip(marker.len() as int));
    if marker == CHANGE_CONTEXT_MARKER@ && rest.len() > 0 && !prefix_char(rest[0])
        && !starts_with_marker(rest) {
        RepairState { text: state.text + ended(seq![trimmed_end(t)]), queue: state.queue }
    } else {
        RepairState {
            text: state.text + ended(seq![marker]),
            queue: with_rest(state.queue, rest),
        }
    }
}

/// The repair of another marker and the text after it. A line of its own stands
/// for white space before the marker.
pub open spec fn marker_line(
    state: RepairState,
    marker: Seq<char>,
    t: Seq<char>,
    indented: bool,
    is_file: bool,
) -> RepairState {
    let tail = t.skip(marker.len() as int);
    let text = if indented {
        state.text + seq!['\n']
    } else {
        state.text
    };
    if is_blank_text(tail) {
        RepairState { text: text + ended(seq![marker + tail]), queue: state.queue }
    } else if is_file {
        match marker_tail_split(tail) {
            Some(i) => RepairState {
                text: text + ended(seq![marker + trimmed_end(tail.subrange(0, i))]),
                queue: with_rest(
                    state.queue,
                    trimmed_start(tail.subrange(i, tail.len() as int)),
                ),
            },
            None => RepairState { text: text + ended(seq![marker + tail]), queue: state.queue },
        }
    } else {
        RepairState {
            text: text + ended(seq![marker]),
            queue: with_rest(state.queue, trimmed_start(tail)),
        }
    }
}

/// The repair of one line.
pub open spec fn repair_line(state: RepairState, line: RepairItem) -> RepairState {
    let t = trimmed_start(line.text);
    let indented = t.len() < line.text.len();
    if t.len() == 0 {
        RepairState { text: state.text + seq!['\n'], queue: state.queue }
    } else if has_prefix(t, BEGIN_PATCH_MARKER@) {
        marker_line(state, BEGIN_PATCH_MARKER@, t, indented, false)
    } else if has_prefix(t, ADD_FILE_MARKER@) {
        marker_line(state, ADD_FILE_MARKER@, t, indented, true)
    } else if has_prefix(t, DELETE_FILE_MARKER@) {
        marker_line(state, DELETE_FILE_MARKER@, t, indented, true)
    } else if has_prefix(t, UPDATE_FILE_MARKER@) {
        marker_line(state, UPDATE_FILE_MARKER@, t, indented, true)
    } else if has_prefix(t, MOVE_TO_MARKER@) {
        marker_line(state, MOVE_TO_MARKER@, t, indented, true)
    } else if has_prefix(t, EOF_MARKER@) {
        marker_line(state, EOF_MARKER@, t, indented, false)
    } else if has_prefix(t, END_PATCH_MARKER@) {
        marker_line(state, END_PATCH_MARKER@, t, indented, false)
    } else if has_prefix(t, CHANGE_CONTEXT_MARKER@) {
        context_marker_line(state, CHANGE_CONTEXT_MARKER@, t)
    } else if has_prefix(t, EMPTY_CHANGE_CONTEXT_MARKER@) {
        context_marker_line(state, EMPTY_CHANGE_CONTEXT_MARKER@, t)
    } else {
        append_line(state, line)
    }
}

fn push_before_marker(repaired: &mut Vec<char>, before: &[char])
    ensures
        final(repaired)@ == old(repaired)@ + before_marker(before@),
{
    if before.len() == 0 {
        assert(repaired@ =~= old(repaired)@ + before_marker(before@));
        return;
    }
    match split_squashed_diff_line(before) {
        Some(pieces) => {
            push_lines(repaired, pieces.as_slice());
        },
        None => match trim_to_diff_prefix(before) {
            Some(d) => {
                push_line(repaired, trim_end(d));
            },
            None => {
                push_line(repaired, before);
            },
        },
    }
}

fn find_own_text<'a>(queue: &VecDeque<RepairLine>, line: &'a [char]) -> (r: &'a [char])
    ensures
        r@ == own_text(items(queue@), line@),
{
    if queue.len() > 0 {
        assert(items(queue@)[0].text == queue@[0].text@);
        match trim_trailing_prefix_if_squashed(line, queue[0].text.as_slice()) {
            Some(t) => t,
            None => line,
        }
    } else {
        line
    }
}

fn find_end_cut(queue: &VecDeque<RepairLine>, text: &[char], origin: RepairOrigin) -> (r: Option<
    usize,
>)
    ensures
        match r {
            Some(e) => end_cut(items(queue@), text@, origin) == Some(e as int),
            None => end_cut(items(queue@), text@, origin) is None,
        },
{
    let t: &[char] = trim_start(text);
    let shown: &[char] = trim_end(text);
    let is_diff: bool = t.len() > 0 && is_prefix_char(t[0]);
    match find(shown, END_PATCH_MARKER) {
        None => None,
        Some(e) => {
            proof {
                lemma_marker_lengths();
                lemma_find_from(shown@, END_PATCH_MARKER@, 0);
            }
            let rest: usize = shown.len() - e;
            if !is_diff || origin == RepairOrigin::TailSplit || (rest == END_PATCH_LENGTH
                && !has_end_line(queue)) {
                Some(e)
            } else {
                None
            }
        },
    }
}

fn append_plain_line(
    repaired: &mut Vec<char>,
    text: &[char],
    origin: RepairOrigin,
    queue: &mut VecDeque<RepairLine>,
)
    ensures
        (RepairState { text: final(repaired)@, queue: items(final(queue)@) }) == append_plain(
            RepairState { text: old(repaired)@, queue: items(old(queue)@) },
            text@,
            origin,
        ),
{
    match split_squashed_diff_line(text) {
        Some(pieces) => {
            push_pieces(queue, pieces.as_slice());
            return;
        },
        None => {},
    }
    match split_missing_context_prefix_line(text) {
        Some((first, rest)) => {
            insert_context_before_marker(queue, rest);
            match split_squashed_diff_line(first.as_slice()) {
                Some(pieces) => {
                    push_pieces_reversed(queue, pieces.as_slice());
                },
                None => {
                    push_line(repaired, trim_end(first.as_slice()));
                },
            }
            return;
        },
        None => {},
    }
    match trim_to_diff_prefix(text) {
        Some(d) => {
            let shown: &[char] = trim_end(d);
            if origin == RepairOrigin::TailSplit && shown.len() > 0 && shown[0] == ' ' {
                if contains_duplicate_context_line(repaired.as_slice(), shown) {
                    return;
                }
            }
            push_line(repaired, shown);
        },
        None => {
            push_line(repaired, trim_end(text));
        },
    }
}

/// Repairs a line that does not start with a marker.
pub fn append_repaired_line(
    repaired: &mut Vec<char>,
    line: &RepairLine,
    queue: &mut VecDeque<RepairLine>,
)
    ensures
        (RepairState { text: final(repaired)@, queue: items(final(queue)@) }) == append_line(
            RepairState { text: old(repaired)@, queue: items(old(queue)@) },
            item(*line),
        ),
{
    let text: &[char] = find_own_text(queue, line.text.as_slice());
    if line.origin == RepairOrigin::TailSplit {
        proof {
            lemma_marker_from(text@, 0);
        }
        match find_marker_boundary(text) {
            Some(i) => {
                if i > 0 {
                    push_before_marker(repaired, trim_end(span(text, 0, i)));
                    push_rest(queue, trim_start(span(text, i, text.len())));
                    return;
                }
            },
            None => {},
        }
    }
    match find_end_cut(queue, text, line.origin) {
        Some(e) => {
            let shown: &[char] = trim_end(text);
            proof {
                lemma_marker_lengths();
                lemma_find_from(shown@, END_PATCH_MARKER@, 0);
            }
            let total: usize = shown.len();
            assert(e + END_PATCH_LENGTH <= total);
            push_before_marker(repaired, trim_end(span(shown, 0, e)));
            push_line(repaired, chars_of(END_PATCH_MARKER).as_slice());
            push_rest(queue, trim_start(span(shown, e + END_PATCH_LENGTH, total)));
        },
        None => {
            append_plain_line(repaired, text, line.origin, queue);
        },
    }
}

fn repair_context_marker_line(
    repaired: &mut Vec<char>,
    marker: &str,
    with_space: bool,
    t: &[char],
    tail: &[char],
    queue: &mut VecDeque<RepairLine>,
)
    requires
        tail@ == t@.skip(marker@.len() as int),
        with_space == (marker@ == CHANGE_CONTEXT_MARKER@),
    ensures
        (RepairState { text: final(repaired)@, queue: items(final(queue)@) })
            == context_marker_line(
            RepairState { text: old(repaired)@, queue: items(old(queue)@) },
            marker@,
            t@,
        ),
{
    let rest: &[char] = trim_start(tail);
    if with_space && rest.len() > 0 && !is_prefix_char(rest[0]) && !is_marker_at(rest, 0) {
        push_line(repaired, trim_end(t));
    } else {
        push_line(repaired, chars_of(marker).as_slice());
        push_rest(queue, rest);
    }
}

fn repair_marker_line(
    repaired: &mut Vec<char>,
    marker: &str,
    tail: &[char],
    indented: bool,
    is_file: bool,
    queue: &mut VecDeque<RepairLine>,
    Ghost(t): Ghost<Seq<char>>,
)
    requires
        tail@ == t.skip(marker@.len() as int),
    ensures
        (RepairState { text: final(repaired)@, queue: items(final(queue)@) }) == marker_line(
            RepairState { text: old(repaired)@, queue: items(old(queue)@) },
            marker@,
            t,
            indented,
            is_file,
        ),
{
    if indented {
        repaired.push('\n');
        assert(repaired@ =~= old(repaired)@ + seq!['\n']);
    }
    let mut line: Vec<char> = chars_of(marker);
    if is_blank(tail) {
        append_text(&mut line, tail);
        push_line(repaired, line.as_slice());
    } else if is_file {
        match find_marker_tail_split(tail) {
            Some(i) => {
                append_text(&mut line, trim_end(span(tail, 0, i)));
                push_line(repaired, line.as_slice());
                push_rest(queue, trim_start(span(tail, i, tail.len())));
            },
            None => {
                append_text(&mut line, tail);
                push_line(repaired, line.as_slice());
            },
        }
    } else {
        push_line(repaired, line.as_slice());
        push_rest(queue, trim_start(tail));
    }
}

/// Repairs one line.
pub fn repair_patch_line(
    repaired: &mut Vec<char>,
    line: &RepairLine,
    queue: &mut VecDeque<RepairLine>,
)
    ensures
        (RepairState { text: final(repaired)@, queue: items(final(queue)@) }) == repair_line(
            RepairState { text: old(repaired)@, queue: items(old(queue)@) },
            item(*line),
        ),
{
    let t: &[char] = trim_start(line.text.as_slice());
    let indented: bool = t.len() < line.text.len();
    if t.len() == 0 {
        repaired.push('\n');
        assert(repaired@ =~= old(repaired)@ + seq!['\n']);
        return;
    }
    match strip_prefix(t, BEGIN_PATCH_MARKER) {
        Some(tail) => {
            repair_marker_line(
                repaired,
                BEGIN_PATCH_MARKER,
                tail,
                indented,
                false,
                queue,
                Ghost(t@),
            );
            return;
        },
        None => {},
    }
    match strip_prefix(t, ADD_FILE_MARKER) {
        Some(tail) => {
            repair_marker_line(repaired, ADD_FILE_MARKER, tail, indented, true, queue, Ghost(t@));
            return;
        },
        None => {},
    }
    match strip_prefix(t, DELETE_FILE_MARKER) {
        Some(tail) => {
            repair_marker_line(
                repaired,
                DELETE_FILE_MARKER,
                tail,
                indented,
                true,
                queue,
                Ghost(t@),
            );
            return;
        },
        None => {},
    }
    match strip_prefix(t, UPDATE_FILE_MARKER) {
        Some(tail) => {
            repair_marker_line(
                repaired,
                UPDATE_FILE_MARKER,
                tail,
                indented,
                true,
                queue,
                Ghost(t@),
            );
            return;
        },
        None => {},
    }
    match strip_prefix(t, MOVE_TO_MARKER) {
        Some(tail) => {
            repair_marker_line(repaired, MOVE_TO_MARKER, tail, indented, true, queue, Ghost(t@));
            return;
        },
        None => {},
    }
    match strip_prefix(t, EOF_MARKER) {
        Some(tail) => {
            repair_marker_line(repaired, EOF_MARKER, tail, indented, false, queue, Ghost(t@));
            return;
        },
        None => {},
    }
    match strip_prefix(t, END_PATCH_MARKER) {
        Some(tail) => {
            repair_marker_line(
                repaired,
                END_PATCH_MARKER,
                tail,
                indented,
                false,
                queue,
                Ghost(t@),
            );
            return;
        },
        None => {},
    }
    proof {
        lemma_marker_lengths();
    }
    match strip_prefix(t, CHANGE_CONTEXT_MARKER) {
        Some(tail) => {
            repair_context_marker_line(repaired, CHANGE_CONTEXT_MARKER, true, t, tail, queue);
            return;
        },
        None => {},
    }
    match strip_prefix(t, EMPTY_CHANGE_CONTEXT_MARKER) {
        Some(tail) => {
            repair_context_marker_line(
                repaired,
                EMPTY_CHANGE_CONTEXT_MARKER,
                false,
                t,
                tail,
                queue,
            );
            return;
        },
        None => {},
    }
    append_repaired_line(repaired, line, queue);
}

// ---------------------------------------------------------------------------
// All lines
// ---------------------------------------------------------------------------
/// How much work a waiting line stands for.
pub open spec fn line_weight(text: Seq<char>) -> nat {
    if text.len() == 0 {
        1
    } else {
        (3 * text.len() - 2) as nat
    }
}

pub open spec fn queue_weight(queue: Seq<RepairItem>) -> nat
    decreases queue.len(),
{
    if queue.len() == 0 {
        0
    } else {
        line_weight(queue[0].text) + queue_weight(queue.skip(1))
    }
}

proof fn lemma_weight_front(line: RepairItem, queue: Seq<RepairItem>)
    ensures
        queue_weight(seq![line] + queue) == line_weight(line.text) + queue_weight(queue),
{
    assert((seq![line] + queue).skip(1) =~= queue);
}

proof fn lemma_weight_concat(a: Seq<RepairItem>, b: Seq<RepairItem>)
    ensures
        queue_weight(a + b) == queue_weight(a) + queue_weight(b),
    decreases a.len(),
{
    if a.len() == 0 {
        assert(a + b =~= b);
    } else {
        lemma_weight_concat(a.skip(1), b);
        assert((a + b).skip(1) =~= a.skip(1) + b);
    }
}

proof fn lemma_weight_insert(queue: Seq<RepairItem>, i: int, line: RepairItem)
    requires
        0 <= i <= queue.len(),
    ensures
        queue_weight(queue.insert(i, line)) == queue_weight(queue) + line_weight(line.text),
{
    let front = queue.take(i);
    let back = queue.skip(i);
    assert(queue =~= front + back);
    assert(queue.insert(i, line) =~= front + (seq![line] + back));
    lemma_weight_concat(front, back);
    lemma_weight_concat(front, seq![line] + back);
    lemma_weight_front(line, back);
}

/// Pieces that are not empty weigh less than the text they come from.
proof fn lemma_weight_pieces(pieces: Seq<Seq<char>>)
    requires
        none_empty(pieces),
    ensures
        queue_weight(tail_items(pieces)) == 3 * total_len(pieces) - 2 * pieces.len(),
        total_len(pieces) >= pieces.len(),
    decreases pieces.len(),
{
    if pieces.len() > 0 {
        let rest = pieces.drop_last();
        assert(none_empty(rest)) by {
            assert forall|i: int| 0 <= i < rest.len() implies (#[trigger] rest[i]).len() > 0 by {
                assert(rest[i] == pieces[i]);
            }
        }
        lemma_weight_pieces(rest);
        let last = seq![tail_item(pieces.last())];
        assert(tail_items(pieces) =~= tail_items(rest) + last);
        lemma_weight_concat(tail_items(rest), last);
        lemma_weight_front(tail_item(pieces.last()), Seq::empty());
        assert(last + Seq::<RepairItem>::empty() =~= last);
        assert(pieces.last().len() > 0);
    }
}

proof fn lemma_reversed_pieces(pieces: Seq<Seq<char>>)
    ensures
        total_len(pieces.reverse()) == total_len(pieces),
        none_empty(pieces) ==> none_empty(pieces.reverse()),
    decreases pieces.len(),
{
    if pieces.len() > 0 {
        let rest = pieces.drop_last();
        lemma_reversed_pieces(rest);
        assert(pieces.reverse() =~= seq![pieces.last()] + rest.reverse());
        lemma_total_front(pieces.last(), rest.reverse());
    }
}

proof fn lemma_total_front(first: Seq<char>, list: Seq<Seq<char>>)
    ensures
        total_len(seq![first] + list) == first.len() + total_len(list),
    decreases list.len(),
{
    let whole = seq![first] + list;
    reveal_with_fuel(total_len, 2);
    if list.len() == 0 {
        assert(whole.last() == first);
        assert(whole.drop_last() =~= Seq::<Seq<char>>::empty());
    } else {
        lemma_total_front(first, list.drop_last());
        assert(whole.drop_last() =~= seq![first] + list.drop_last());
    }
}

/// A rest that is shorter than the line weighs less.
proof fn lemma_weight_rest(queue: Seq<RepairItem>, text: Seq<char>, n: nat)
    requires
        text.len() < n,
    ensures
        queue_weight(with_rest(queue, text)) < queue_weight(queue) + 3 * n - 2,
{
    lemma_weight_front(tail_item(text), queue);
}

proof fn lemma_own_text(queue: Seq<RepairItem>, line: Seq<char>)
    ensures
        own_text(queue, line).len() <= line.len(),
{
    lemma_trimmed_end(line);
}

proof fn lemma_append_plain_shrinks(state: RepairState, text: Seq<char>, origin: RepairOrigin)
    requires
        text.len() > 0,
    ensures
        queue_weight(append_plain(state, text, origin).queue) < queue_weight(state.queue)
            + line_weight(text),
{
    match squashed_pieces(text) {
        Some(pieces) => {
            law_pieces_are_smaller(text);
            lemma_weight_pieces(pieces);
            lemma_weight_concat(tail_items(pieces), state.queue);
        },
        None => match context_parts(text) {
            Some((first, rest)) => {
                lemma_context_parts(text);
                lemma_context_place(state.queue, 0);
                lemma_weight_insert(state.queue, context_place(state.queue, 0), tail_item(rest));
                match squashed_pieces(first) {
                    Some(pieces) => {
                        law_pieces_are_smaller(first);
                        lemma_reversed_pieces(pieces);
                        lemma_weight_pieces(pieces.reverse());
                        lemma_weight_concat(
                            tail_items(pieces.reverse()),
                            with_context(state.queue, rest),
                        );
                    },
                    None => {},
                }
            },
            None => {},
        },
    }
}

proof fn lemma_append_line_shrinks(state: RepairState, line: RepairItem)
    requires
        line.text.len() > 0,
    ensures
        queue_weight(append_line(state, line).queue) < queue_weight(state.queue) + line_weight(
            line.text,
        ),
{
    let text = own_text(state.queue, line.text);
    lemma_own_text(state.queue, line.text);
    match tail_cut(text, line.origin) {
        Some(i) => {
            lemma_marker_from(text, 0);
            let rest = text.subrange(i, text.len() as int);
            lemma_trimmed_start(rest);
            lemma_weight_rest(state.queue, trimmed_start(rest), line.text.len());
        },
        None => match end_cut(state.queue, text, line.origin) {
            Some(e) => {
                let shown = trimmed_end(text);
                lemma_trimmed_end(text);
                lemma_find_from(shown, END_PATCH_MARKER@, 0);
                lemma_marker_lengths();
                let rest = shown.subrange(e + END_PATCH_MARKER@.len(), shown.len() as int);
                lemma_trimmed_start(rest);
                lemma_weight_rest(state.queue, trimmed_start(rest), line.text.len());
            },
            None => {
                if text.len() > 0 {
                    lemma_append_plain_shrinks(state, text, line.origin);
                } else {
                    lemma_empty_text_is_plain(state, text, line.origin);
                }
            },
        },
    }
}

proof fn lemma_empty_text_is_plain(state: RepairState, text: Seq<char>, origin: RepairOrigin)
    requires
        text.len() == 0,
    ensures
        append_plain(state, text, origin).queue == state.queue,
{
    lemma_diff_line(text);
}

proof fn lemma_marker_line_shrinks(
    state: RepairState,
    marker: Seq<char>,
    line: Seq<char>,
    indented: bool,
    is_file: bool,
)
    requires
        marker.len() > 0,
        has_prefix(trimmed_start(line), marker),
    ensures
        queue_weight(marker_line(state, marker, trimmed_start(line), indented, is_file).queue)
            < queue_weight(state.queue) + line_weight(line),
        queue_weight(context_marker_line(state, marker, trimmed_start(line)).queue)
            < queue_weight(state.queue) + line_weight(line),
{
    let t = trimmed_start(line);
    lemma_trimmed_start(line);
    let tail = t.skip(marker.len() as int);
    lemma_trimmed_start(tail);
    lemma_weight_rest(state.queue, trimmed_start(tail), line.len());
    match marker_tail_split(tail) {
        Some(i) => {
            let rest = tail.subrange(i, tail.len() as int);
            lemma_marker_tail_split(tail);
            lemma_trimmed_start(rest);
            lemma_weight_rest(state.queue, trimmed_start(rest), line.len());
        },
        None => {},
    }
}

/// Every step of the repair makes the waiting lines weigh less.
pub proof fn law_repair_makes_progress(state: RepairState, line: RepairItem)
    ensures
        queue_weight(repair_line(state, line).queue) < queue_weight(state.queue) + line_weight(
            line.text,
        ),
{
    let t = trimmed_start(line.text);
    lemma_trimmed_start(line.text);
    lemma_marker_lengths();
    let indented = t.len() < line.text.len();
    if t.len() == 0 {
    } else if has_prefix(t, BEGIN_PATCH_MARKER@) {
        lemma_marker_line_shrinks(state, BEGIN_PATCH_MARKER@, line.text, indented, false);
    } else if has_prefix(t, ADD_FILE_MARKER@) {
        lemma_marker_line_shrinks(state, ADD_FILE_MARKER@, line.text, indented, true);
    } else if has_prefix(t, DELETE_FILE_MARKER@) {
        lemma_marker_line_shrinks(state, DELETE_FILE_MARKER@, line.text, indented, true);
    } else if has_prefix(t, UPDATE_FILE_MARKER@) {
        lemma_marker_line_shrinks(state, UPDATE_FILE_MARKER@, line.text, indented, true);
    } else if has_prefix(t, MOVE_TO_MARKER@) {
        lemma_marker_line_shrinks(state, MOVE_TO_MARKER@, line.text, indented, true);
    } else if has_prefix(t, EOF_MARKER@) {
        lemma_marker_line_shrinks(state, EOF_MARKER@, line.text, indented, false);
    } else if has_prefix(t, END_PATCH_MARKER@) {
        lemma_marker_line_shrinks(state, END_PATCH_MARKER@, line.text, indented, false);
    } else if has_prefix(t, CHANGE_CONTEXT_MARKER@) {
        lemma_marker_line_shrinks(state, CHANGE_CONTEXT_MARKER@, line.text, indented, false);
    } else if has_prefix(t, EMPTY_CHANGE_CONTEXT_MARKER@) {
        lemma_marker_line_shrinks(state, EMPTY_CHANGE_CONTEXT_MARKER@, line.text, indented, false);
    } else {
        lemma_append_line_shrinks(state, line);
    }
}

/// The text that is left when no line waits any more.
pub open spec fn repair_all(state: RepairState) -> Seq<char>
    decreases queue_weight(state.queue),
{
    if state.queue.len() == 0 {
        state.text
    } else {
        let rest = RepairState { text: state.text, queue: state.queue.skip(1) };
        proof {
            law_repair_makes_progress(rest, state.queue[0]);
        }
        repair_all(repair_line(rest, state.queue[0]))
    }
}

/// The lines of a patch, waiting for repair.
pub open spec fn original_items(lines: Seq<Seq<char>>) -> Seq<RepairItem> {
    Seq::new(
        lines.len(),
        |i: int| RepairItem { text: lines[i], origin: RepairOrigin::Original },
    )
}

fn queue_of(lines: &[Vec<char>]) -> (r: VecDeque<RepairLine>)
    ensures
        items(r@) == original_items(texts(lines@)),
{
    let mut queue: VecDeque<RepairLine> = VecDeque::new();
    let mut i: usize = 0;
    while i < lines.len()
        invariant
            i <= lines@.len(),
            items(queue@) == original_items(texts(lines@)).take(i as int),
        decreases lines@.len() - i,
    {
        let ghost before = items(queue@);
        queue.push_back(
            RepairLine { text: copy_text(lines[i].as_slice()), origin: RepairOrigin::Original },
        );
        assert(items(queue@) =~= before.push(original_items(texts(lines@))[i as int]));
        i += 1;
        assert(items(queue@) =~= original_items(texts(lines@)).take(i as int));
    }
    assert(original_items(texts(lines@)).take(lines@.len() as int) =~= original_items(
        texts(lines@),
    ));
    queue
}

fn repair_lines(lines: &[Vec<char>]) -> (r: Vec<char>)
    ensures
        r@ == repair_all(
            RepairState { text: Seq::empty(), queue: original_items(texts(lines@)) },
        ),
{
    let mut repaired: Vec<char> = Vec::new();
    let mut queue: VecDeque<RepairLine> = queue_of(lines);
    let ghost whole = repair_all(
        RepairState { text: Seq::empty(), queue: original_items(texts(lines@)) },
    );
    assert(repaired@ =~= Seq::<char>::empty());
    while queue.len() > 0
        invariant
            repair_all(RepairState { text: repaired@, queue: items(queue@) }) == whole,
        decreases queue_weight(items(queue@)),
    {
        let ghost before = items(queue@);
        let ghost text_before = repaired@;
        match queue.pop_front() {
            Some(line) => {
                assert(items(queue@) =~= before.skip(1));
                assert(item(line) == before[0]);
                proof {
                    law_repair_makes_progress(
                        RepairState { text: text_before, queue: before.skip(1) },
                        before[0],
                    );
                }
                repair_patch_line(&mut repaired, &line, &mut queue);
            },
            None => {},
        }
    }
    repaired
}

/// The repaired patch. It ends with a line feed only where the patch does.
pub open spec fn repaired_patch(patch: Seq<char>) -> Seq<char> {
    let body = repair_all(
        RepairState { text: Seq::empty(), queue: original_items(line_seq(patch)) },
    );
    let out = ended(prefixed_lines(line_seq(truncated(body))));
    if out.len() > 0 && (patch.len() == 0 || patch.last() != '\n') {
        out.drop_last()
    } else {
        out
    }
}

fn repair_text(patch: &[char]) -> (r: Vec<char>)
    ensures
        r@ == repaired_patch(patch@),
{
    let lines: Vec<Vec<char>> = split_lines(patch);
    let body: Vec<char> = repair_lines(lines.as_slice());
    let shown: Vec<char> = truncate_after_end_patch(body.as_slice());
    let mut out: Vec<char> = prefix_missing_diff_lines(shown.as_slice());
    let ghost whole = out@;
    if out.len() > 0 && (patch.len() == 0 || patch[patch.len() - 1] != '\n') {
        out.pop();
        assert(out@ =~= whole.drop_last());
    }
    out
}

/// Repairs a patch whose lines were run together.
pub fn auto_repair_patch_with_mode(patch: &str) -> (r: String)
    ensures
        r@ == repaired_patch(patch@),
{
    let text: Vec<char> = chars_of(patch);
    string_of(repair_text(text.as_slice()).as_slice())
}

/// Repairs a patch whose lines were run together.
pub fn auto_repair_patch(patch: &str) -> (r: String)
    ensures
        r@ == repaired_patch(patch@),
{
    auto_repair_patch_with_mode(patch)
}

// ---------------------------------------------------------------------------
// Whether a patch needs repair
// ---------------------------------------------------------------------------
/// Line `i` holds more than one line of the patch, or ends with the prefix of the
/// next one.
pub open spec fn line_needs_repair(lines: Seq<Seq<char>>, i: int) -> bool {
    ||| squashed_pieces(lines[i]).is_some()
    ||| context_parts(lines[i]).is_some()
    ||| tail_needs_split(lines[i])
    ||| embedded_end_patch(lines[i])
    ||| i + 1 < lines.len() && without_trailing_prefix(lines[i], lines[i + 1]).is_some()
}

pub open spec fn needs_repair(patch: Seq<char>) -> bool {
    let lines = line_seq(patch);
    exists|i: int| 0 <= i < lines.len() && #[trigger] line_needs_repair(lines, i)
}

fn text_needs_repair(patch: &[char]) -> (r: bool)
    ensures
        r == needs_repair(patch@),
{
    let lines: Vec<Vec<char>> = split_lines(patch);
    let ghost all = line_seq(patch@);
    let mut i: usize = 0;
    while i < lines.len()
        invariant
            i <= lines@.len(),
            texts(lines@) == all,
            all == line_seq(patch@),
            forall|k: int| 0 <= k < i ==> !#[trigger] line_needs_repair(all, k),
        decreases lines@.len() - i,
    {
        let line: &[char] = lines[i].as_slice();
        assert(line@ == all[i as int]);
        if split_squashed_diff_line(line).is_some() || split_missing_context_prefix_line(
            line,
        ).is_some() || marker_tail_needs_split(line) || line_has_embedded_end_patch(line) {
            assert(line_needs_repair(all, i as int));
            return true;
        }
        if i + 1 < lines.len() {
            let next: &[char] = lines[i + 1].as_slice();
            assert(next@ == all[i + 1]);
            if trim_trailing_prefix_if_squashed(line, next).is_some() {
                assert(line_needs_repair(all, i as int));
                return true;
            }
        }
        i += 1;
    }
    false
}

/// Whether lines of the patch were run together.
pub fn needs_proactive_repair(patch: &str) -> (r: bool)
    ensures
        r == needs_repair(patch@),
{
    let text: Vec<char> = chars_of(patch);
    text_needs_repair(text.as_slice())
}

} // verus!
