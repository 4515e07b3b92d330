//! What repair keeps: the text of a patch.
//!
//! Repair divides lines, moves context lines, and adds and drops white space and diff
//! prefixes. The laws of this module say that it does nothing else to the text: what is
//! neither white space nor a diff prefix is called ink here, and all ink stays.
use vstd::multiset::Multiset;
use vstd::prelude::*;

use crate::diff_line::{
    closing_as_context, cut, diff_line, last_pieces, last_repeat, lemma_diff_line, piece_start,
    split_points, squashed_pieces, without_trailing_prefix,
};
use crate::file_marker::{
    context_break_from, context_parts, lemma_context_break_from, lemma_marker_tail_split,
    marker_tail_split,
};
use crate::lines::{
    ended, lemma_line_end, lemma_lines_hold_no_feed, line_end, line_seq, lines_from, without_cr,
};
use crate::markers::{
    first_structural_marker, lemma_first_structural, lemma_marker_from, prefix_char,
    ADD_FILE_MARKER, BEGIN_PATCH_MARKER, CHANGE_CONTEXT_MARKER, DELETE_FILE_MARKER,
    EMPTY_CHANGE_CONTEXT_MARKER, END_PATCH_MARKER, EOF_MARKER, MOVE_TO_MARKER,
    UPDATE_FILE_MARKER,
};
use crate::parse_laws::lemma_lines_shift;
use crate::patch_lines::{
    end_line_from, is_end_line, lemma_prefixed_again, prefix_step, prefixed, prefixed_lines,
    truncated,
};
use crate::repair::{
    append_line, append_plain, before_marker, context_marker_line, context_place, context_text,
    end_cut, last_context, law_repair_makes_progress, lemma_context_place, marker_line,
    original_items, own_text, queue_weight, repair_all, repair_line, repaired_patch,
    repeats_context, tail_cut, tail_item, tail_items, with_context, with_rest, RepairItem,
    RepairOrigin, RepairState,
};
use crate::text::{
    has_prefix, is_ascii_white, is_blank_text, is_white, lemma_find_from,
    lemma_skip_ascii_white, lemma_trimmed_end, lemma_trimmed_start, skip_ascii_white, trimmed,
    trimmed_end, trimmed_start,
};

verus! {

// ---------------------------------------------------------------------------
// Ink
// ---------------------------------------------------------------------------
/// Neither white space nor a diff prefix.
pub open spec fn is_ink(c: char) -> bool {
    !is_white(c) && c != '+' && c != '-'
}

/// What a text holds apart from white space and diff prefixes.
pub open spec fn ink(s: Seq<char>) -> Seq<char> {
    s.filter(|c: char| is_ink(c))
}

/// What the texts of a list hold, one behind the other.
pub open spec fn ink_list(list: Seq<Seq<char>>) -> Seq<char>
    decreases list.len(),
{
    if list.len() == 0 {
        Seq::empty()
    } else {
        ink_list(list.drop_last()) + ink(list.last())
    }
}

proof fn lemma_ink_add(a: Seq<char>, b: Seq<char>)
    ensures
        ink(a + b) == ink(a) + ink(b),
{
    Seq::filter_distributes_over_add(a, b, |c: char| is_ink(c));
}

proof fn lemma_ink_push(a: Seq<char>, c: char)
    ensures
        ink(a.push(c)) == if is_ink(c) {
            ink(a).push(c)
        } else {
            ink(a)
        },
{
    reveal(Seq::filter);
    assert(a.push(c).drop_last() =~= a);
}

proof fn lemma_no_ink(s: Seq<char>)
    requires
        forall|k: int| 0 <= k < s.len() ==> !is_ink(#[trigger] s[k]),
    ensures
        ink(s) == Seq::<char>::empty(),
    decreases s.len(),
{
    reveal(Seq::filter);
    if s.len() > 0 {
        lemma_no_ink(s.drop_last());
        lemma_ink_push(s.drop_last(), s.last());
        assert(s.drop_last().push(s.last()) =~= s);
    } else {
        assert(ink(s) =~= Seq::<char>::empty());
    }
}

proof fn lemma_ink_divided(s: Seq<char>, i: int)
    requires
        0 <= i <= s.len(),
    ensures
        ink(s) == ink(s.take(i)) + ink(s.skip(i)),
        ink(s) == ink(s.subrange(0, i)) + ink(s.subrange(i, s.len() as int)),
{
    assert(s =~= s.take(i) + s.skip(i));
    assert(s.take(i) =~= s.subrange(0, i));
    assert(s.skip(i) =~= s.subrange(i, s.len() as int));
    lemma_ink_add(s.take(i), s.skip(i));
}

proof fn lemma_ink_trimmed(s: Seq<char>)
    ensures
        ink(trimmed_start(s)) == ink(s),
        ink(trimmed_end(s)) == ink(s),
{
    let n = s.len() - trimmed_start(s).len();
    lemma_trimmed_start(s);
    lemma_ink_divided(s, n);
    assert(s.skip(n) =~= trimmed_start(s));
    lemma_no_ink(s.take(n));
    assert(ink(s.take(n)) + ink(s.skip(n)) =~= ink(s.skip(n)));
    let e = trimmed_end(s).len() as int;
    lemma_trimmed_end(s);
    lemma_ink_divided(s, e);
    lemma_no_ink(s.skip(e));
    assert(ink(s.take(e)) + ink(s.skip(e)) =~= ink(s.take(e)));
}

proof fn lemma_ink_list_push(list: Seq<Seq<char>>, s: Seq<char>)
    ensures
        ink_list(list.push(s)) == ink_list(list) + ink(s),
{
    assert(list.push(s).drop_last() =~= list);
}

proof fn lemma_ink_list_add(a: Seq<Seq<char>>, b: Seq<Seq<char>>)
    ensures
        ink_list(a + b) == ink_list(a) + ink_list(b),
    decreases b.len(),
{
    if b.len() == 0 {
        assert(a + b =~= a);
        assert(ink_list(a) + ink_list(b) =~= ink_list(a));
    } else {
        lemma_ink_list_add(a, b.drop_last());
        assert((a + b).drop_last() =~= a + b.drop_last());
        assert(ink_list(a) + ink_list(b.drop_last()) + ink(b.last()) =~= ink_list(a) + (ink_list(
            b.drop_last(),
        ) + ink(b.last())));
    }
}

proof fn lemma_ink_list_one(s: Seq<char>)
    ensures
        ink_list(seq![s]) == ink(s),
{
    let none = Seq::<Seq<char>>::empty();
    lemma_ink_list_push(none, s);
    assert(none.push(s) =~= seq![s]);
    assert(ink_list(none) + ink(s) =~= ink(s));
}

proof fn lemma_ink_list_two(a: Seq<char>, b: Seq<char>)
    ensures
        ink_list(seq![a, b]) == ink(a) + ink(b),
{
    lemma_ink_list_one(a);
    lemma_ink_list_push(seq![a], b);
    assert(seq![a].push(b) =~= seq![a, b]);
}

proof fn lemma_ink_ended(list: Seq<Seq<char>>)
    ensures
        ink(ended(list)) == ink_list(list),
    decreases list.len(),
{
    if list.len() == 0 {
        lemma_no_ink(ended(list));
    } else {
        lemma_ink_ended(list.drop_last());
        lemma_ink_add(ended(list.drop_last()), list.last());
        lemma_ink_push(ended(list.drop_last()) + list.last(), '\n');
        assert(ended(list) =~= (ended(list.drop_last()) + list.last()).push('\n'));
    }
}

// ---------------------------------------------------------------------------
// Divided lines
// ---------------------------------------------------------------------------
proof fn lemma_last_repeat_is_no_ink(d: Seq<char>, best: int, k: int)
    requires
        0 <= best < k <= d.len(),
        prefix_char(d[best]),
        forall|m: int| best < m < k ==> !is_ink(#[trigger] d[m]),
    ensures
        best <= last_repeat(d, best, k) < d.len(),
        forall|m: int| best <= m < last_repeat(d, best, k) ==> !is_ink(#[trigger] d[m]),
    decreases d.len() - k,
{
    if k < d.len() {
        if d[k] == d[best] {
            lemma_last_repeat_is_no_ink(d, k, k + 1);
        } else if is_ascii_white(d[k]) {
            lemma_last_repeat_is_no_ink(d, best, k + 1);
        }
    }
}

proof fn lemma_piece_start_skips_no_ink(d: Seq<char>, i: int)
    requires
        0 <= i <= d.len(),
    ensures
        i <= piece_start(d, i) <= d.len(),
        ink(d.skip(piece_start(d, i))) == ink(d.skip(i)),
{
    let j = skip_ascii_white(d, i);
    lemma_skip_ascii_white(d, i);
    let p = piece_start(d, i);
    if j < d.len() && prefix_char(d[j]) {
        lemma_last_repeat_is_no_ink(d, j, j + 1);
    }
    assert forall|m: int| i <= m < p implies !is_ink(#[trigger] d[m]) by {
        if m < j {
            assert(is_ascii_white(d[m]));
        }
    }
    let gap = d.subrange(i, p);
    assert(d.skip(i) =~= gap + d.skip(p));
    lemma_ink_add(gap, d.skip(p));
    assert forall|k: int| 0 <= k < gap.len() implies !is_ink(#[trigger] gap[k]) by {
        assert(gap[k] == d[i + k]);
    }
    lemma_no_ink(gap);
    assert(ink(gap) + ink(d.skip(p)) =~= ink(d.skip(p)));
}

proof fn lemma_cut_keeps_ink(d: Seq<char>, points: Seq<int>, n: int)
    requires
        0 <= n <= points.len(),
        forall|k: int| 0 <= k < points.len() ==> 0 < #[trigger] points[k] < d.len(),
    ensures
        0 <= cut(d, points, n).1 <= d.len(),
        ink_list(cut(d, points, n).0) + ink(d.skip(cut(d, points, n).1)) == ink(d),
    decreases n,
{
    if n <= 0 {
        assert(d.skip(0) =~= d);
        assert(ink_list(Seq::empty()) + ink(d) =~= ink(d));
    } else {
        lemma_cut_keeps_ink(d, points, n - 1);
        let (pieces, start) = cut(d, points, n - 1);
        let i = points[n - 1];
        if i > start {
            let part = d.subrange(start, i);
            let piece = trimmed_end(part);
            lemma_ink_trimmed(part);
            lemma_piece_start_skips_no_ink(d, i);
            assert(d.skip(start) =~= part + d.skip(i));
            lemma_ink_add(part, d.skip(i));
            lemma_ink_list_push(pieces, piece);
            if piece.len() == 0 {
                lemma_no_ink(piece);
                assert(ink(part) + ink(d.skip(i)) =~= ink(d.skip(i)));
            }
            assert(ink_list(pieces) + ink(piece) + ink(d.skip(i)) =~= ink_list(pieces) + (ink(piece)
                + ink(d.skip(i))));
        }
    }
}

proof fn lemma_last_pieces_keep_ink(rest: Seq<char>)
    ensures
        ink_list(last_pieces(rest)) == ink(rest),
{
    if rest.len() == 0 {
        lemma_no_ink(rest);
    } else if last_pieces(rest).len() == 1 && last_pieces(rest)[0] == rest {
        assert(last_pieces(rest) =~= seq![rest]);
        lemma_ink_list_one(rest);
    } else {
        let head = trimmed_end(rest.drop_last());
        let lone = seq![rest.last()];
        lemma_ink_trimmed(rest.drop_last());
        lemma_no_ink(lone);
        lemma_ink_push(rest.drop_last(), rest.last());
        assert(rest.drop_last().push(rest.last()) =~= rest);
        if head.len() > 0 {
            lemma_ink_list_two(head, lone);
            assert(ink(head) + ink(lone) =~= ink(head));
        } else {
            lemma_no_ink(head);
            lemma_ink_list_one(lone);
        }
    }
}

proof fn lemma_closing_keeps_ink(list: Seq<Seq<char>>)
    ensures
        ink_list(Seq::new(list.len(), |i: int| closing_as_context(list[i]))) == ink_list(list),
    decreases list.len(),
{
    let out = Seq::new(list.len(), |i: int| closing_as_context(list[i]));
    if list.len() > 0 {
        let rest = list.drop_last();
        lemma_closing_keeps_ink(rest);
        assert(out.drop_last() =~= Seq::new(rest.len(), |i: int| closing_as_context(rest[i])));
        let piece = list.last();
        let changed = closing_as_context(piece);
        assert(out.last() == changed);
        if changed != piece {
            lemma_ink_divided(piece, 1);
            lemma_ink_divided(changed, 1);
            assert(changed.skip(1) =~= piece.skip(1));
            lemma_no_ink(piece.take(1));
            lemma_no_ink(changed.take(1));
        }
    }
}

/// A diff line holds the ink of its line.
proof fn lemma_diff_line_keeps_ink(line: Seq<char>)
    ensures
        diff_line(line) matches Some(d) ==> ink(d) == ink(line),
{
    lemma_ink_trimmed(line);
}

/// The lines that a line is divided into hold its ink, in its order.
pub proof fn law_pieces_keep_ink(line: Seq<char>)
    ensures
        squashed_pieces(line) matches Some(pieces) ==> ink_list(pieces) == ink(line),
{
    lemma_diff_line(line);
    lemma_diff_line_keeps_ink(line);
    if let Some(pieces) = squashed_pieces(line) {
        let d = diff_line(line)->0;
        let content = d.subrange(1, d.len() as int);
        if let Some(i) = first_structural_marker(content) {
            lemma_first_structural(content);
            let first = content.subrange(0, i);
            let rest = content.subrange(i, content.len() as int);
            let head = seq![d[0]] + trimmed_end(first);
            let tail = trimmed_start(rest);
            lemma_ink_trimmed(first);
            lemma_ink_trimmed(rest);
            lemma_ink_divided(content, i);
            lemma_ink_divided(d, 1);
            assert(d.take(1) =~= seq![d[0]]);
            lemma_no_ink(seq![d[0]]);
            lemma_ink_add(seq![d[0]], trimmed_end(first));
            lemma_ink_list_two(head, tail);
            assert(pieces =~= seq![head, tail]);
            assert(ink(seq![d[0]]) + ink(first) =~= ink(first));
            assert(ink(seq![d[0]]) + ink(content) =~= ink(content));
        } else {
            let points = split_points(d, 1, 0);
            crate::diff_line::lemma_split_points(d, 1, 0);
            lemma_cut_keeps_ink(d, points, points.len() as int);
            let (front, start) = cut(d, points, points.len() as int);
            let part = d.subrange(start, d.len() as int);
            assert(part =~= d.skip(start));
            let rest = trimmed_end(part);
            lemma_ink_trimmed(part);
            lemma_last_pieces_keep_ink(rest);
            let all = front + last_pieces(rest);
            lemma_ink_list_add(front, last_pieces(rest));
            lemma_closing_keeps_ink(all);
        }
    }
}

/// A line and the context line that follows it on the same line hold its ink, in its order.
pub proof fn law_context_parts_keep_ink(line: Seq<char>)
    ensures
        context_parts(line) matches Some((first, rest)) ==> ink(first) + ink(rest) == ink(line),
{
    lemma_diff_line(line);
    lemma_diff_line_keeps_ink(line);
    if let Some((first, rest)) = context_parts(line) {
        let d = diff_line(line)->0;
        let content = d.subrange(1, d.len() as int);
        lemma_context_break_from(content, 0);
        let i = context_break_from(content, 0)->0;
        let a = content.subrange(0, i + 1);
        let b = content.subrange(i + 1, content.len() as int);
        lemma_ink_divided(content, i + 1);
        lemma_ink_divided(d, 1);
        assert(d.take(1) =~= seq![d[0]]);
        lemma_no_ink(seq![d[0]]);
        lemma_no_ink(seq![' ']);
        lemma_ink_add(seq![d[0]], a);
        lemma_ink_trimmed(b);
        lemma_ink_add(seq![' '], trimmed_end(b));
        assert(ink(seq![d[0]]) + ink(a) =~= ink(a));
        assert(ink(seq![' ']) + ink(b) =~= ink(b));
        assert(ink(seq![d[0]]) + ink(content) =~= ink(content));
    }
}

// ---------------------------------------------------------------------------
// One line
// ---------------------------------------------------------------------------
/// The texts of waiting lines.
pub open spec fn item_texts(queue: Seq<RepairItem>) -> Seq<Seq<char>> {
    Seq::new(queue.len(), |i: int| queue[i].text)
}

/// The ink of a repair in progress: that of the repaired text and of the lines that wait.
pub open spec fn state_ink(state: RepairState) -> Seq<char> {
    ink(state.text) + ink_list(item_texts(state.queue))
}

/// The same with a line before those that wait.
pub open spec fn ink_with(state: RepairState, line: Seq<char>) -> Seq<char> {
    ink(state.text) + (ink(line) + ink_list(item_texts(state.queue)))
}

proof fn lemma_item_texts_add(a: Seq<RepairItem>, b: Seq<RepairItem>)
    ensures
        ink_list(item_texts(a + b)) == ink_list(item_texts(a)) + ink_list(item_texts(b)),
{
    assert(item_texts(a + b) =~= item_texts(a) + item_texts(b));
    lemma_ink_list_add(item_texts(a), item_texts(b));
}

proof fn lemma_tail_items_ink(pieces: Seq<Seq<char>>, queue: Seq<RepairItem>)
    ensures
        ink_list(item_texts(tail_items(pieces) + queue)) == ink_list(pieces) + ink_list(
            item_texts(queue),
        ),
{
    lemma_item_texts_add(tail_items(pieces), queue);
    assert(item_texts(tail_items(pieces)) =~= pieces);
}

proof fn lemma_with_rest_ink(queue: Seq<RepairItem>, text: Seq<char>)
    ensures
        ink_list(item_texts(with_rest(queue, text))) == ink(text) + ink_list(item_texts(queue)),
{
    if text.len() == 0 {
        lemma_no_ink(text);
        assert(ink(text) + ink_list(item_texts(queue)) =~= ink_list(item_texts(queue)));
    } else {
        lemma_item_texts_add(seq![tail_item(text)], queue);
        assert(item_texts(seq![tail_item(text)]) =~= seq![text]);
        lemma_ink_list_one(text);
    }
}

proof fn lemma_before_marker_ink(before: Seq<char>)
    ensures
        ink(before_marker(before)) == ink(before),
{
    if before.len() == 0 {
    } else {
        match squashed_pieces(before) {
            Some(pieces) => {
                law_pieces_keep_ink(before);
                lemma_ink_ended(pieces);
            },
            None => match diff_line(before) {
                Some(d) => {
                    lemma_diff_line_keeps_ink(before);
                    lemma_ink_trimmed(d);
                    lemma_ink_ended(seq![trimmed_end(d)]);
                    lemma_ink_list_one(trimmed_end(d));
                },
                None => {
                    lemma_ink_ended(seq![before]);
                    lemma_ink_list_one(before);
                },
            },
        }
    }
}

proof fn lemma_ended_line_ink(text: Seq<char>, line: Seq<char>)
    ensures
        ink(text + ended(seq![line])) == ink(text) + ink(line),
{
    lemma_ink_ended(seq![line]);
    lemma_ink_list_one(line);
    lemma_ink_add(text, ended(seq![line]));
}

proof fn lemma_three(a: Seq<char>, b: Seq<char>, c: Seq<char>)
    ensures
        a + b + c == a + (b + c),
{
    assert(a + b + c =~= a + (b + c));
}

proof fn lemma_marker_line_keeps_ink(
    state: RepairState,
    marker: Seq<char>,
    t: Seq<char>,
    indented: bool,
    is_file: bool,
)
    requires
        has_prefix(t, marker),
    ensures
        state_ink(marker_line(state, marker, t, indented, is_file)) == ink_with(state, t),
{
    let tail = t.skip(marker.len() as int);
    let waiting = ink_list(item_texts(state.queue));
    let text = if indented {
        state.text + seq!['\n']
    } else {
        state.text
    };
    lemma_ink_divided(t, marker.len() as int);
    assert(t.take(marker.len() as int) =~= marker) by {
        assert(t.subrange(0, marker.len() as int) =~= t.take(marker.len() as int));
    }
    assert(ink(text) == ink(state.text)) by {
        lemma_ink_add(state.text, seq!['\n']);
        lemma_no_ink(seq!['\n']);
        assert(ink(state.text) + ink(seq!['\n']) =~= ink(state.text));
    }
    assert(ink(marker + tail) == ink(t)) by {
        lemma_ink_add(marker, tail);
    }
    if is_blank_text(tail) || (is_file && marker_tail_split(tail) is None) {
        lemma_ended_line_ink(text, marker + tail);
        lemma_three(ink(text), ink(t), waiting);
    } else if is_file {
        let i = marker_tail_split(tail)->0;
        lemma_marker_tail_split(tail);
        let a = tail.subrange(0, i);
        let b = tail.subrange(i, tail.len() as int);
        lemma_ink_divided(tail, i);
        lemma_ink_trimmed(a);
        lemma_ink_trimmed(b);
        lemma_ink_add(marker, trimmed_end(a));
        lemma_ended_line_ink(text, marker + trimmed_end(a));
        lemma_with_rest_ink(state.queue, trimmed_start(b));
        assert(ink(text) + (ink(marker) + ink(a)) + (ink(b) + waiting) =~= ink(text) + ((ink(marker)
            + (ink(a) + ink(b))) + waiting));
    } else {
        lemma_ink_trimmed(tail);
        lemma_ended_line_ink(text, marker);
        lemma_with_rest_ink(state.queue, trimmed_start(tail));
        assert(ink(text) + ink(marker) + (ink(tail) + waiting) =~= ink(text) + ((ink(marker) + ink(
            tail,
        )) + waiting));
    }
}

proof fn lemma_context_marker_line_keeps_ink(state: RepairState, marker: Seq<char>, t: Seq<char>)
    requires
        has_prefix(t, marker),
    ensures
        state_ink(context_marker_line(state, marker, t)) == ink_with(state, t),
{
    let tail = t.skip(marker.len() as int);
    let rest = trimmed_start(tail);
    let waiting = ink_list(item_texts(state.queue));
    lemma_ink_divided(t, marker.len() as int);
    assert(t.take(marker.len() as int) =~= marker) by {
        assert(t.subrange(0, marker.len() as int) =~= t.take(marker.len() as int));
    }
    lemma_ink_trimmed(tail);
    lemma_ink_trimmed(t);
    lemma_ended_line_ink(state.text, trimmed_end(t));
    lemma_three(ink(state.text), ink(t), waiting);
    lemma_ended_line_ink(state.text, marker);
    lemma_with_rest_ink(state.queue, rest);
    assert(ink(state.text) + ink(marker) + (ink(tail) + waiting) =~= ink(state.text) + ((ink(marker)
        + ink(tail)) + waiting));
}

proof fn lemma_own_text_keeps_ink(queue: Seq<RepairItem>, line: Seq<char>)
    ensures
        ink(own_text(queue, line)) == ink(line),
{
    if queue.len() > 0 {
        if let Some(t) = without_trailing_prefix(line, queue[0].text) {
            let d = diff_line(line)->0;
            lemma_trimmed_start(line);
            assert(d.last() == line.last());
            lemma_ink_push(t, line.last());
            assert(t.push(line.last()) =~= line);
        }
    }
}

/// The bag of the characters of a text.
pub open spec fn bag(s: Seq<char>) -> Multiset<char> {
    s.to_multiset()
}

proof fn lemma_bag_add(a: Seq<char>, b: Seq<char>)
    ensures
        bag(a + b) == bag(a).add(bag(b)),
{
    vstd::seq_lib::lemma_multiset_commutative(a, b);
}

proof fn lemma_insert_ink(queue: Seq<RepairItem>, p: int, line: RepairItem)
    requires
        0 <= p <= queue.len(),
    ensures
        bag(ink_list(item_texts(queue.insert(p, line)))) == bag(ink(line.text)).add(
            bag(ink_list(item_texts(queue))),
        ),
{
    let a = queue.take(p);
    let b = queue.skip(p);
    assert(queue =~= a + b);
    assert(queue.insert(p, line) =~= a + (seq![line] + b));
    lemma_item_texts_add(a, b);
    lemma_item_texts_add(a, seq![line] + b);
    lemma_item_texts_add(seq![line], b);
    assert(item_texts(seq![line]) =~= seq![line.text]);
    lemma_ink_list_one(line.text);
    let x = ink_list(item_texts(a));
    let y = ink_list(item_texts(b));
    lemma_bag_add(x, y);
    lemma_bag_add(x, ink(line.text) + y);
    lemma_bag_add(ink(line.text), y);
    assert(bag(x).add(bag(ink(line.text)).add(bag(y))) =~= bag(ink(line.text)).add(
        bag(x).add(bag(y)),
    ));
}

proof fn lemma_reversed_ink(pieces: Seq<Seq<char>>)
    ensures
        bag(ink_list(pieces.reverse())) == bag(ink_list(pieces)),
    decreases pieces.len(),
{
    if pieces.len() > 0 {
        let rest = pieces.drop_last();
        let last = pieces.last();
        lemma_reversed_ink(rest);
        assert(pieces.reverse() =~= seq![last] + rest.reverse());
        lemma_ink_list_add(seq![last], rest.reverse());
        lemma_ink_list_one(last);
        lemma_bag_add(ink(last), ink_list(rest.reverse()));
        lemma_bag_add(ink_list(rest), ink(last));
        assert(bag(ink(last)).add(bag(ink_list(rest))) =~= bag(ink_list(rest)).add(
            bag(ink(last)),
        ));
    } else {
        assert(pieces.reverse() =~= pieces);
    }
}

proof fn lemma_moved_context_keeps_ink(state: RepairState, text: Seq<char>, origin: RepairOrigin)
    requires
        squashed_pieces(text) is None,
        context_parts(text) is Some,
    ensures
        bag(state_ink(append_plain(state, text, origin))) == bag(ink_with(state, text)),
        text.contains(';') || text.contains('?'),
{
    let (first, rest) = context_parts(text)->0;
    let next = append_plain(state, text, origin);
    let waiting = ink_list(item_texts(state.queue));
    law_context_parts_keep_ink(text);
    lemma_break_char(text);
    let queue = with_context(state.queue, rest);
    lemma_context_place(state.queue, 0);
    lemma_insert_ink(state.queue, context_place(state.queue, 0), tail_item(rest));
    lemma_bag_add(ink(state.text), ink(text) + waiting);
    lemma_bag_add(ink(text), waiting);
    lemma_bag_add(ink(first), ink(rest));
    let moved = ink_list(item_texts(queue));
    match squashed_pieces(first) {
        Some(pieces) => {
            law_pieces_keep_ink(first);
            lemma_tail_items_ink(pieces.reverse(), queue);
            lemma_reversed_ink(pieces);
            lemma_bag_add(ink(state.text), ink_list(pieces.reverse()) + moved);
            lemma_bag_add(ink_list(pieces.reverse()), moved);
            assert(bag(ink(state.text)).add(
                bag(ink(first)).add(bag(ink(rest)).add(bag(waiting))),
            ) =~= bag(ink(state.text)).add(
                bag(ink(first)).add(bag(ink(rest))).add(bag(waiting)),
            ));
        },
        None => {
            lemma_ink_trimmed(first);
            lemma_ended_line_ink(state.text, trimmed_end(first));
            lemma_bag_add(ink(state.text) + ink(first), moved);
            lemma_bag_add(ink(state.text), ink(first));
            assert(bag(ink(state.text)).add(bag(ink(first))).add(
                bag(ink(rest)).add(bag(waiting)),
            ) =~= bag(ink(state.text)).add(
                bag(ink(first)).add(bag(ink(rest))).add(bag(waiting)),
            ));
        },
    }
}

proof fn lemma_break_char(text: Seq<char>)
    requires
        context_parts(text) is Some,
    ensures
        text.contains(';') || text.contains('?'),
{
    let d = diff_line(text)->0;
    lemma_diff_line(text);
    lemma_trimmed_start(text);
    let content = d.subrange(1, d.len() as int);
    lemma_context_break_from(content, 0);
    let i = context_break_from(content, 0)->0;
    let n = text.len() - d.len();
    assert(content[i] == text[n + 1 + i]);
}

/// The line repeats the context line that was repaired last: a line of the repaired text
/// is the same, or is the same behind a prefix and a space.
pub open spec fn is_repeated(text: Seq<char>, line: Seq<char>) -> bool {
    exists|k: int|
        0 <= k < line_seq(text).len() && {
            let l = #[trigger] line_seq(text)[k];
            l == line || (l.len() > 2 && prefix_char(l[0]) && l[1] == ' ' && l.skip(2) == line)
        }
}

proof fn lemma_last_context(lines: Seq<Seq<char>>, n: int)
    requires
        0 <= n <= lines.len(),
    ensures
        last_context(lines, n) matches Some(c) ==> exists|k: int|
            0 <= k < n && {
                let l = #[trigger] lines[k];
                l == c || (l.len() > 2 && prefix_char(l[0]) && l[1] == ' ' && l.skip(2) == c)
            },
    decreases n,
{
    if n > 0 {
        if context_text(lines[n - 1]) is Some {
            let l = lines[n - 1];
            assert(l == lines[n - 1]);
        } else {
            lemma_last_context(lines, n - 1);
        }
    }
}

/// What a step of the repair does with a line: its ink comes behind that of the repaired
/// text, before that of the lines that wait; or it is left out because it repeats a
/// context line; or, where it holds a semicolon or a question mark, a part of it waits
/// further down.
pub open spec fn is_taken_in(state: RepairState, line: RepairItem, next: RepairState) -> bool {
    ||| state_ink(next) == ink_with(state, line.text)
    ||| {
        &&& next == state
        &&& line.origin == RepairOrigin::TailSplit
        &&& exists|c: Seq<char>|
            #[trigger] is_repeated(state.text, c) && c.len() > 0 && c[0] == ' ' && ink(c) == ink(
                line.text,
            )
    }
    ||| {
        &&& line.text.contains(';') || line.text.contains('?')
        &&& bag(state_ink(next)) == bag(ink_with(state, line.text))
    }
}

proof fn lemma_append_plain_keeps_ink(
    state: RepairState,
    line: RepairItem,
    text: Seq<char>,
)
    requires
        ink(text) == ink(line.text),
        forall|c: char| #[trigger] text.contains(c) ==> line.text.contains(c),
    ensures
        is_taken_in(state, line, append_plain(state, text, line.origin)),
{
    let waiting = ink_list(item_texts(state.queue));
    let next = append_plain(state, text, line.origin);
    match squashed_pieces(text) {
        Some(pieces) => {
            law_pieces_keep_ink(text);
            lemma_tail_items_ink(pieces, state.queue);
            assert(state_ink(next) == ink_with(state, line.text));
        },
        None => match context_parts(text) {
            Some(_) => {
                lemma_moved_context_keeps_ink(state, text, line.origin);
            },
            None => match diff_line(text) {
                Some(d) => {
                    let shown = trimmed_end(d);
                    lemma_diff_line_keeps_ink(text);
                    lemma_ink_trimmed(d);
                    if next == state && line.origin == RepairOrigin::TailSplit && shown.len() > 0
                        && shown[0] == ' ' && repeats_context(state.text, shown) {
                        let lines = line_seq(state.text);
                        lemma_last_context(lines, lines.len() as int);
                        assert(is_repeated(state.text, shown));
                    } else {
                        lemma_ended_line_ink(state.text, shown);
                        lemma_three(ink(state.text), ink(text), waiting);
                        assert(state_ink(next) == ink_with(state, line.text));
                    }
                },
                None => {
                    lemma_ink_trimmed(text);
                    lemma_ended_line_ink(state.text, trimmed_end(text));
                    lemma_three(ink(state.text), ink(text), waiting);
                    assert(state_ink(next) == ink_with(state, line.text));
                },
            },
        },
    }
}

proof fn lemma_own_text_chars(queue: Seq<RepairItem>, line: Seq<char>)
    ensures
        forall|c: char| #[trigger] own_text(queue, line).contains(c) ==> line.contains(c),
{
    let text = own_text(queue, line);
    assert forall|c: char| #[trigger] text.contains(c) implies line.contains(c) by {
        let k = choose|k: int| 0 <= k < text.len() && text[k] == c;
        lemma_diff_line(line);
        assert(line[k] == c);
    }
}

proof fn lemma_append_line_keeps_ink(state: RepairState, line: RepairItem)
    ensures
        is_taken_in(state, line, append_line(state, line)),
{
    let text = own_text(state.queue, line.text);
    let waiting = ink_list(item_texts(state.queue));
    let next = append_line(state, line);
    lemma_own_text_keeps_ink(state.queue, line.text);
    match tail_cut(text, line.origin) {
        Some(i) => {
            lemma_marker_from(text, 0);
            let a = text.subrange(0, i);
            let b = text.subrange(i, text.len() as int);
            lemma_ink_divided(text, i);
            lemma_ink_trimmed(a);
            lemma_ink_trimmed(b);
            lemma_before_marker_ink(trimmed_end(a));
            lemma_ink_add(state.text, before_marker(trimmed_end(a)));
            lemma_with_rest_ink(state.queue, trimmed_start(b));
            assert(ink(state.text) + ink(a) + (ink(b) + waiting) =~= ink(state.text) + ((ink(a)
                + ink(b)) + waiting));
        },
        None => match end_cut(state.queue, text, line.origin) {
            Some(e) => {
                let shown = trimmed_end(text);
                let n = END_PATCH_MARKER@.len() as int;
                lemma_ink_trimmed(text);
                lemma_find_from(shown, END_PATCH_MARKER@, 0);
                let a = shown.subrange(0, e);
                let b = shown.subrange(e + n, shown.len() as int);
                lemma_ink_divided(shown, e);
                let more = shown.subrange(e, shown.len() as int);
                lemma_ink_divided(more, n);
                assert(more.take(n) =~= END_PATCH_MARKER@) by {
                    assert(more.take(n) =~= shown.subrange(e, e + n));
                }
                assert(more.skip(n) =~= b);
                lemma_ink_trimmed(a);
                lemma_ink_trimmed(b);
                lemma_before_marker_ink(trimmed_end(a));
                let before = state.text + before_marker(trimmed_end(a));
                lemma_ink_add(state.text, before_marker(trimmed_end(a)));
                lemma_ended_line_ink(before, END_PATCH_MARKER@);
                lemma_with_rest_ink(state.queue, trimmed_start(b));
                let marker = ink(END_PATCH_MARKER@);
                assert(ink(state.text) + ink(a) + marker + (ink(b) + waiting) =~= ink(state.text)
                    + ((ink(a) + (marker + ink(b))) + waiting));
            },
            None => {
                lemma_own_text_chars(state.queue, line.text);
                lemma_append_plain_keeps_ink(state, line, text);
            },
        },
    }
}

/// No step of the repair loses ink.
pub proof fn law_repair_of_a_line_keeps_ink(state: RepairState, line: RepairItem)
    ensures
        is_taken_in(state, line, repair_line(state, line)),
{
    let t = trimmed_start(line.text);
    let indented = t.len() < line.text.len();
    lemma_ink_trimmed(line.text);
    if t.len() == 0 {
        lemma_no_ink(t);
        lemma_ink_add(state.text, seq!['\n']);
        lemma_no_ink(seq!['\n']);
        assert(ink(state.text) + ink(seq!['\n']) =~= ink(state.text));
        assert(ink(line.text) + ink_list(item_texts(state.queue)) =~= ink_list(
            item_texts(state.queue),
        ));
    } else if has_prefix(t, BEGIN_PATCH_MARKER@) {
        lemma_marker_line_keeps_ink(state, BEGIN_PATCH_MARKER@, t, indented, false);
    } else if has_prefix(t, ADD_FILE_MARKER@) {
        lemma_marker_line_keeps_ink(state, ADD_FILE_MARKER@, t, indented, true);
    } else if has_prefix(t, DELETE_FILE_MARKER@) {
        lemma_marker_line_keeps_ink(state, DELETE_FILE_MARKER@, t, indented, true);
    } else if has_prefix(t, UPDATE_FILE_MARKER@) {
        lemma_marker_line_keeps_ink(state, UPDATE_FILE_MARKER@, t, indented, true);
    } else if has_prefix(t, MOVE_TO_MARKER@) {
        lemma_marker_line_keeps_ink(state, MOVE_TO_MARKER@, t, indented, true);
    } else if has_prefix(t, EOF_MARKER@) {
        lemma_marker_line_keeps_ink(state, EOF_MARKER@, t, indented, false);
    } else if has_prefix(t, END_PATCH_MARKER@) {
        lemma_marker_line_keeps_ink(state, END_PATCH_MARKER@, t, indented, false);
    } else if has_prefix(t, CHANGE_CONTEXT_MARKER@) {
        lemma_context_marker_line_keeps_ink(state, CHANGE_CONTEXT_MARKER@, t);
    } else if has_prefix(t, EMPTY_CHANGE_CONTEXT_MARKER@) {
        lemma_context_marker_line_keeps_ink(state, EMPTY_CHANGE_CONTEXT_MARKER@, t);
    } else {
        lemma_append_line_keeps_ink(state, line);
    }
}

// ---------------------------------------------------------------------------
// All lines
// ---------------------------------------------------------------------------
/// The text is empty or ends with a line feed.
spec fn is_closed(s: Seq<char>) -> bool {
    s.len() == 0 || s.last() == '\n'
}

/// The text `b` goes on behind `a`, and is closed.
spec fn goes_on(a: Seq<char>, b: Seq<char>) -> bool {
    a.len() <= b.len() && b.take(a.len() as int) == a && is_closed(b)
}

proof fn lemma_goes_on(text: Seq<char>, more: Seq<char>)
    requires
        is_closed(text),
        is_closed(more),
    ensures
        goes_on(text, text + more),
{
    assert((text + more).take(text.len() as int) =~= text);
    if more.len() > 0 {
        assert((text + more).last() == more.last());
    } else {
        assert(text + more =~= text);
    }
}

proof fn lemma_ended_is_closed(list: Seq<Seq<char>>)
    ensures
        is_closed(ended(list)),
{
}

proof fn lemma_before_marker_is_closed(before: Seq<char>)
    ensures
        is_closed(before_marker(before)),
{
    if before.len() > 0 {
        match squashed_pieces(before) {
            Some(pieces) => {
                lemma_ended_is_closed(pieces);
            },
            None => match diff_line(before) {
                Some(d) => {
                    lemma_ended_is_closed(seq![trimmed_end(d)]);
                },
                None => {
                    lemma_ended_is_closed(seq![before]);
                },
            },
        }
    }
}

proof fn lemma_goes_on_twice(a: Seq<char>, b: Seq<char>, c: Seq<char>)
    requires
        goes_on(a, b),
        goes_on(b, c),
    ensures
        goes_on(a, c),
{
    assert(c.take(a.len() as int) =~= a) by {
        assert forall|i: int| 0 <= i < a.len() implies c.take(a.len() as int)[i] == a[i] by {
            assert(b.take(a.len() as int)[i] == b[i]);
            assert(c.take(b.len() as int)[i] == c[i]);
        }
    }
}

proof fn lemma_marker_line_goes_on(
    state: RepairState,
    marker: Seq<char>,
    t: Seq<char>,
    indented: bool,
    is_file: bool,
)
    requires
        is_closed(state.text),
    ensures
        goes_on(state.text, marker_line(state, marker, t, indented, is_file).text),
        goes_on(state.text, context_marker_line(state, marker, t).text),
{
    let tail = t.skip(marker.len() as int);
    let text = if indented {
        state.text + seq!['\n']
    } else {
        state.text
    };
    lemma_goes_on(state.text, seq!['\n']);
    lemma_goes_on(state.text, Seq::empty());
    assert(state.text + Seq::<char>::empty() =~= state.text);
    let next = marker_line(state, marker, t, indented, is_file).text;
    let line = if is_blank_text(tail) || (is_file && marker_tail_split(tail) is None) {
        marker + tail
    } else if is_file {
        marker + trimmed_end(tail.subrange(0, marker_tail_split(tail)->0))
    } else {
        marker
    };
    assert(next == text + ended(seq![line]));
    lemma_ended_is_closed(seq![line]);
    lemma_goes_on(text, ended(seq![line]));
    lemma_goes_on_twice(state.text, text, next);
    lemma_ended_is_closed(seq![trimmed_end(t)]);
    lemma_ended_is_closed(seq![marker]);
    lemma_goes_on(state.text, ended(seq![trimmed_end(t)]));
    lemma_goes_on(state.text, ended(seq![marker]));
}

proof fn lemma_append_line_goes_on(state: RepairState, line: RepairItem)
    requires
        is_closed(state.text),
    ensures
        goes_on(state.text, append_line(state, line).text),
{
    let text = own_text(state.queue, line.text);
    lemma_goes_on(state.text, Seq::empty());
    assert(state.text + Seq::<char>::empty() =~= state.text);
    match tail_cut(text, line.origin) {
        Some(i) => {
            let before = trimmed_end(text.subrange(0, i));
            lemma_before_marker_is_closed(before);
            lemma_goes_on(state.text, before_marker(before));
        },
        None => match end_cut(state.queue, text, line.origin) {
            Some(e) => {
                let before = trimmed_end(trimmed_end(text).subrange(0, e));
                let one = state.text + before_marker(before);
                lemma_before_marker_is_closed(before);
                lemma_goes_on(state.text, before_marker(before));
                lemma_ended_is_closed(seq![END_PATCH_MARKER@]);
                lemma_goes_on(one, ended(seq![END_PATCH_MARKER@]));
                lemma_goes_on_twice(state.text, one, one + ended(seq![END_PATCH_MARKER@]));
            },
            None => {
                if squashed_pieces(text) is None {
                    match context_parts(text) {
                        Some((first, _)) => {
                            lemma_ended_is_closed(seq![trimmed_end(first)]);
                            lemma_goes_on(state.text, ended(seq![trimmed_end(first)]));
                        },
                        None => match diff_line(text) {
                            Some(d) => {
                                lemma_ended_is_closed(seq![trimmed_end(d)]);
                                lemma_goes_on(state.text, ended(seq![trimmed_end(d)]));
                            },
                            None => {
                                lemma_ended_is_closed(seq![trimmed_end(text)]);
                                lemma_goes_on(state.text, ended(seq![trimmed_end(text)]));
                            },
                        },
                    }
                }
            },
        },
    }
}

proof fn lemma_repair_line_goes_on(state: RepairState, line: RepairItem)
    requires
        is_closed(state.text),
    ensures
        goes_on(state.text, repair_line(state, line).text),
{
    let t = trimmed_start(line.text);
    let indented = t.len() < line.text.len();
    lemma_goes_on(state.text, seq!['\n']);
    lemma_marker_line_goes_on(state, BEGIN_PATCH_MARKER@, t, indented, false);
    lemma_marker_line_goes_on(state, ADD_FILE_MARKER@, t, indented, true);
    lemma_marker_line_goes_on(state, DELETE_FILE_MARKER@, t, indented, true);
    lemma_marker_line_goes_on(state, UPDATE_FILE_MARKER@, t, indented, true);
    lemma_marker_line_goes_on(state, MOVE_TO_MARKER@, t, indented, true);
    lemma_marker_line_goes_on(state, EOF_MARKER@, t, indented, false);
    lemma_marker_line_goes_on(state, END_PATCH_MARKER@, t, indented, false);
    lemma_marker_line_goes_on(state, CHANGE_CONTEXT_MARKER@, t, indented, false);
    lemma_marker_line_goes_on(state, EMPTY_CHANGE_CONTEXT_MARKER@, t, indented, false);
    lemma_append_line_goes_on(state, line);
}

proof fn lemma_lines_behind(a: Seq<char>, rest: Seq<char>, i: int)
    requires
        is_closed(a),
        0 <= i <= a.len(),
    ensures
        lines_from(a + rest, i) == lines_from(a, i) + line_seq(rest),
    decreases a.len() - i,
{
    let all = a + rest;
    if i == a.len() {
        lemma_lines_shift(a, rest, 0);
        assert(lines_from(a, i) + line_seq(rest) =~= line_seq(rest));
    } else {
        lemma_line_end(a, i);
        let e = line_end(a, i);
        assert(e < a.len()) by {
            if e == a.len() {
                assert(a[a.len() - 1] != '\n');
            }
        }
        lemma_same_line_end(a, rest, i);
        assert(all.subrange(i, e) =~= a.subrange(i, e));
        lemma_lines_behind(a, rest, e + 1);
        assert(lines_from(all, i) =~= lines_from(a, i) + line_seq(rest));
    }
}

proof fn lemma_same_line_end(a: Seq<char>, rest: Seq<char>, i: int)
    requires
        0 <= i < a.len(),
        line_end(a, i) < a.len(),
    ensures
        line_end(a + rest, i) == line_end(a, i),
    decreases a.len() - i,
{
    assert((a + rest)[i] == a[i]);
    if a[i] != '\n' {
        assert(line_end(a, i) == line_end(a, i + 1));
        if i + 1 < a.len() {
            lemma_same_line_end(a, rest, i + 1);
        } else {
            assert(line_end(a, i + 1) == i + 1);
        }
    }
}

proof fn lemma_repeated_later(a: Seq<char>, b: Seq<char>, line: Seq<char>)
    requires
        is_closed(a),
        goes_on(a, b),
        is_repeated(a, line),
    ensures
        is_repeated(b, line),
{
    let rest = b.skip(a.len() as int);
    assert(b =~= a + rest);
    lemma_lines_behind(a, rest, 0);
    let k = choose|k: int|
        0 <= k < line_seq(a).len() && {
            let l = #[trigger] line_seq(a)[k];
            l == line || (l.len() > 2 && prefix_char(l[0]) && l[1] == ' ' && l.skip(2) == line)
        };
    assert(line_seq(b)[k] == line_seq(a)[k]);
}

/// The repaired text holds all ink but that of lines that repeat a context line of it.
spec fn accounts_for(start: Seq<char>, body: Seq<char>, repeated: Seq<Seq<char>>) -> bool {
    &&& bag(start) == bag(ink(body)).add(bag(ink_list(repeated)))
    &&& forall|k: int|
        0 <= k < repeated.len() ==> is_repeated(body, #[trigger] repeated[k]) && repeated[k].len()
            > 0 && repeated[k][0] == ' '
}

proof fn lemma_front_ink(state: RepairState)
    requires
        state.queue.len() > 0,
    ensures
        state_ink(state) == ink_with(
            RepairState { text: state.text, queue: state.queue.skip(1) },
            state.queue[0].text,
        ),
{
    let first = seq![state.queue[0]];
    assert(state.queue =~= first + state.queue.skip(1));
    lemma_item_texts_add(first, state.queue.skip(1));
    assert(item_texts(first) =~= seq![state.queue[0].text]);
    lemma_ink_list_one(state.queue[0].text);
}

proof fn lemma_repair_all_keeps_ink(state: RepairState) -> (repeated: Seq<Seq<char>>)
    requires
        is_closed(state.text),
    ensures
        goes_on(state.text, repair_all(state)),
        accounts_for(state_ink(state), repair_all(state), repeated),
    decreases queue_weight(state.queue),
{
    let none = Seq::<Seq<char>>::empty();
    if state.queue.len() == 0 {
        lemma_goes_on(state.text, Seq::empty());
        assert(state.text + Seq::<char>::empty() =~= state.text);
        assert(state_ink(state) =~= ink(state.text));
        lemma_bag_add(ink(state.text), Seq::empty());
        assert(ink(state.text) + Seq::<char>::empty() =~= ink(state.text));
        none
    } else {
        let rest = RepairState { text: state.text, queue: state.queue.skip(1) };
        let line = state.queue[0];
        let next = repair_line(rest, line);
        law_repair_makes_progress(rest, line);
        assert(queue_weight(next.queue) < queue_weight(state.queue));
        lemma_repair_line_goes_on(rest, line);
        let repeated = lemma_repair_all_keeps_ink(next);
        let body = repair_all(next);
        assert(repair_all(state) == body);
        lemma_goes_on_twice(state.text, next.text, body);
        lemma_front_ink(state);
        law_repair_of_a_line_keeps_ink(rest, line);
        if bag(state_ink(next)) == bag(ink_with(rest, line.text)) {
            repeated
        } else {
            let c = choose|c: Seq<char>|
                #[trigger] is_repeated(rest.text, c) && c.len() > 0 && c[0] == ' ' && ink(c) == ink(
                    line.text,
                );
            lemma_repeated_later(rest.text, body, c);
            let waiting = ink_list(item_texts(rest.queue));
            lemma_bag_add(ink(rest.text), waiting);
            lemma_bag_add(ink(rest.text), ink(line.text) + waiting);
            lemma_bag_add(ink(line.text), waiting);
            lemma_ink_list_push(repeated, c);
            lemma_bag_add(ink_list(repeated), ink(c));
            let longer = repeated.push(c);
            assert(next == rest);
            assert(bag(ink(rest.text)).add(bag(waiting)) == bag(ink(body)).add(
                bag(ink_list(repeated)),
            ));
            assert(bag(state_ink(state)) =~= bag(ink(rest.text)).add(bag(waiting)).add(
                bag(ink(c)),
            ));
            assert(bag(state_ink(state)) =~= bag(ink(body)).add(bag(ink_list(longer))));
            assert forall|k: int| 0 <= k < longer.len() implies is_repeated(
                body,
                #[trigger] longer[k],
            ) && longer[k].len() > 0 && longer[k][0] == ' ' by {
                if k < repeated.len() {
                    assert(longer[k] == repeated[k]);
                }
            }
            longer
        }
    }
}

// ---------------------------------------------------------------------------
// Order
// ---------------------------------------------------------------------------
/// The characters of `a` stand in `b` at the given positions, which ascend.
pub open spec fn stand_at(a: Seq<char>, b: Seq<char>, at: Seq<int>) -> bool {
    &&& at.len() == a.len()
    &&& forall|k: int| 0 <= k < at.len() ==> 0 <= #[trigger] at[k] < b.len() && b[at[k]] == a[k]
    &&& forall|j: int, k: int| 0 <= j < k < at.len() ==> #[trigger] at[j] < #[trigger] at[k]
}

/// The characters of `a` stand in `b` in the same order.
pub open spec fn is_in_order(a: Seq<char>, b: Seq<char>) -> bool {
    exists|at: Seq<int>| stand_at(a, b, at)
}

proof fn lemma_in_own_order(a: Seq<char>)
    ensures
        is_in_order(a, a),
{
    assert(stand_at(a, a, Seq::new(a.len(), |i: int| i)));
}

proof fn lemma_in_order_twice(a: Seq<char>, b: Seq<char>, c: Seq<char>)
    requires
        is_in_order(a, b),
        is_in_order(b, c),
    ensures
        is_in_order(a, c),
{
    let x = choose|at: Seq<int>| stand_at(a, b, at);
    let y = choose|at: Seq<int>| stand_at(b, c, at);
    let z = Seq::new(a.len(), |k: int| y[x[k]]);
    assert forall|k: int| 0 <= k < z.len() implies 0 <= #[trigger] z[k] < c.len() && c[z[k]]
        == a[k] by {
        assert(0 <= x[k] < b.len());
        assert(0 <= y[x[k]] < c.len());
    }
    assert forall|j: int, k: int| 0 <= j < k < z.len() implies #[trigger] z[j] < #[trigger] z[k] by {
        assert(x[j] < x[k]);
        assert(0 <= x[j] && x[k] < b.len());
        assert(y[x[j]] < y[x[k]]);
    }
    assert(stand_at(a, c, z));
}

proof fn lemma_left_out(a: Seq<char>, b: Seq<char>, c: Seq<char>)
    ensures
        is_in_order(a + c, a + (b + c)),
{
    let at = Seq::new(
        (a.len() + c.len()) as nat,
        |k: int| if k < a.len() {
            k
        } else {
            k + b.len()
        },
    );
    assert(stand_at(a + c, a + (b + c), at));
}

proof fn lemma_ink_contains(s: Seq<char>, c: char)
    requires
        s.contains(c),
        is_ink(c),
    ensures
        ink(s).contains(c),
{
    let i = choose|i: int| 0 <= i < s.len() && s[i] == c;
    s.lemma_filter_contains(|c: char| is_ink(c), i);
}

proof fn lemma_repair_all_keeps_order(state: RepairState)
    requires
        !state_ink(state).contains(';'),
        !state_ink(state).contains('?'),
    ensures
        is_in_order(ink(repair_all(state)), state_ink(state)),
    decreases queue_weight(state.queue),
{
    if state.queue.len() == 0 {
        assert(state_ink(state) =~= ink(state.text));
        lemma_in_own_order(ink(state.text));
    } else {
        let rest = RepairState { text: state.text, queue: state.queue.skip(1) };
        let line = state.queue[0];
        let next = repair_line(rest, line);
        law_repair_makes_progress(rest, line);
        assert(queue_weight(next.queue) < queue_weight(state.queue));
        lemma_front_ink(state);
        law_repair_of_a_line_keeps_ink(rest, line);
        let waiting = ink_list(item_texts(rest.queue));
        let whole = ink_with(rest, line.text);
        if line.text.contains(';') || line.text.contains('?') {
            let c = if line.text.contains(';') {
                ';'
            } else {
                '?'
            };
            lemma_ink_contains(line.text, c);
            let own = ink(line.text);
            let i = choose|i: int| 0 <= i < own.len() && own[i] == c;
            assert(whole[ink(rest.text).len() + i] == c);
        }
        assert(is_in_order(state_ink(next), whole)) by {
            if state_ink(next) == whole {
                lemma_in_own_order(whole);
            } else {
                lemma_left_out(ink(rest.text), ink(line.text), waiting);
            }
        }
        assert forall|c: char| #[trigger] state_ink(next).contains(c) implies whole.contains(c) by {
            let at = choose|at: Seq<int>| stand_at(state_ink(next), whole, at);
            let i = choose|i: int| 0 <= i < state_ink(next).len() && state_ink(next)[i] == c;
            assert(0 <= at[i] < whole.len() && whole[at[i]] == c);
        }
        lemma_repair_all_keeps_order(next);
        lemma_in_order_twice(ink(repair_all(next)), state_ink(next), whole);
    }
}

// ---------------------------------------------------------------------------
// Whole patches
// ---------------------------------------------------------------------------
proof fn lemma_lines_keep_ink(s: Seq<char>, i: int)
    requires
        0 <= i <= s.len(),
    ensures
        ink_list(lines_from(s, i)) == ink(s.skip(i)),
    decreases s.len() - i,
{
    if i == s.len() {
        lemma_no_ink(s.skip(i));
    } else {
        lemma_line_end(s, i);
        let e = line_end(s, i);
        if e >= s.len() {
            assert(s.skip(i) =~= s.subrange(i, s.len() as int));
            lemma_ink_list_one(s.skip(i));
        } else {
            let line = s.subrange(i, e);
            lemma_lines_keep_ink(s, e + 1);
            lemma_without_cr_keeps_ink(line);
            lemma_ink_list_add(seq![without_cr(line)], lines_from(s, e + 1));
            lemma_ink_list_one(without_cr(line));
            assert(s.skip(i) =~= line.push('\n') + s.skip(e + 1));
            lemma_ink_push(line, '\n');
            lemma_ink_add(line.push('\n'), s.skip(e + 1));
        }
    }
}

proof fn lemma_without_cr_keeps_ink(line: Seq<char>)
    ensures
        ink(without_cr(line)) == ink(line),
{
    if line.len() > 0 && line.last() == '\r' {
        lemma_ink_push(line.drop_last(), '\r');
        assert(line.drop_last().push('\r') =~= line);
    }
}

/// Lines with a line feed behind each are split again.
pub proof fn lemma_lines_of_ended(list: Seq<Seq<char>>)
    requires
        forall|k: int| 0 <= k < list.len() ==> !(#[trigger] list[k]).contains('\n'),
    ensures
        line_seq(ended(list)).len() == list.len(),
        forall|k: int|
            0 <= k < list.len() ==> #[trigger] line_seq(ended(list))[k] == without_cr(list[k]),
    decreases list.len(),
{
    if list.len() > 0 {
        let front = list.drop_last();
        let line = list.last();
        assert forall|k: int| 0 <= k < front.len() implies !(#[trigger] front[k]).contains('\n') by {
            assert(front[k] == list[k]);
        }
        lemma_lines_of_ended(front);
        let tail = line + seq!['\n'];
        assert(ended(list) =~= ended(front) + tail);
        lemma_ended_is_closed(front);
        lemma_lines_behind(ended(front), tail, 0);
        assert(line_seq(tail) =~= seq![without_cr(line)]) by {
            lemma_line_end(tail, 0);
            let e = line_end(tail, 0);
            assert(!list[list.len() - 1].contains('\n'));
            assert(tail[line.len() as int] == '\n');
            if e < line.len() {
                assert(line[e] == tail[e]);
                assert(line.contains('\n'));
            }
            assert(e == line.len());
            assert(tail.subrange(0, e) =~= line);
            assert(lines_from(tail, e + 1) =~= Seq::<Seq<char>>::empty());
        }
        assert(line_seq(ended(list)) =~= line_seq(ended(front)) + seq![without_cr(line)]);
    }
}

/// The line of a repaired patch is a line as repair left it; or that line with a diff
/// prefix before it; or the end marker without the white space before it.
pub open spec fn is_prefixed_line(out: Seq<char>, line: Seq<char>) -> bool {
    ||| out == line
    ||| out.len() > 0 && (prefix_char(out[0]) || out[0] == ' ') && out == seq![out[0]] + line
    ||| out == END_PATCH_MARKER@ && trimmed_start(line) == END_PATCH_MARKER@
}

proof fn lemma_prefixed_ink(lines: Seq<Seq<char>>, n: int)
    requires
        0 <= n <= lines.len(),
    ensures
        prefixed(lines, n).1.len() == n,
        ink_list(prefixed(lines, n).1) == ink_list(lines.take(n)),
        forall|k: int|
            0 <= k < n ==> is_prefixed_line(#[trigger] prefixed(lines, n).1[k], lines[k]),
    decreases n,
{
    if n > 0 {
        lemma_prefixed_ink(lines, n - 1);
        lemma_prefixed_again(lines, n - 1);
        let (state, out) = prefixed(lines, n - 1);
        let line = lines[n - 1];
        let (next, shown) = prefix_step(state, line);
        assert(is_prefixed_line(shown, line));
        assert(ink(shown) == ink(line)) by {
            lemma_ink_trimmed(line);
            if shown != line && !(shown == END_PATCH_MARKER@ && trimmed_start(line)
                == END_PATCH_MARKER@) {
                lemma_ink_add(seq![shown[0]], line);
                lemma_no_ink(seq![shown[0]]);
                assert(ink(seq![shown[0]]) + ink(line) =~= ink(line));
            }
        }
        lemma_ink_list_push(out, shown);
        lemma_ink_list_push(lines.take(n - 1), line);
        assert(lines.take(n - 1).push(line) =~= lines.take(n));
        let all = prefixed(lines, n).1;
        assert(all == out.push(shown));
        assert forall|k: int| 0 <= k < n implies is_prefixed_line(#[trigger] all[k], lines[k]) by {
            if k < n - 1 {
                assert(all[k] == out[k]);
            }
        }
    } else {
        assert(lines.take(0) =~= Seq::<Seq<char>>::empty());
    }
}

/// Some line of the list holds this ink.
pub open spec fn holds_line(list: Seq<Seq<char>>, line: Seq<char>) -> bool {
    exists|k: int| 0 <= k < list.len() && ink(#[trigger] list[k]) == ink(line)
}

/// What becomes of the text of a patch: `out` are the lines of the repaired patch, `kept`
/// these lines before they got their prefixes, `cut` the lines behind the first of
/// several end markers, and `repeated` the context lines that were left out because they
/// stand there already.
pub open spec fn is_account(
    patch: Seq<char>,
    repaired: Seq<char>,
    out: Seq<Seq<char>>,
    kept: Seq<Seq<char>>,
    cut: Seq<Seq<char>>,
    repeated: Seq<Seq<char>>,
) -> bool {
    &&& repaired == ended(out) || repaired.push('\n') == ended(out)
    &&& out.len() == kept.len()
    &&& forall|k: int| 0 <= k < out.len() ==> is_prefixed_line(#[trigger] out[k], kept[k])
    &&& ink(repaired) == ink_list(kept)
    &&& bag(ink(patch)) == bag(ink(repaired)).add(bag(ink_list(cut))).add(bag(ink_list(repeated)))
    &&& cut.len() > 0 ==> {
        &&& kept.len() > 0 && ink(kept.last()) == ink(END_PATCH_MARKER@)
        &&& exists|k: int| 0 <= k < cut.len() && trimmed(#[trigger] cut[k]) == END_PATCH_MARKER@
    }
    &&& forall|k: int|
        0 <= k < repeated.len() ==> (#[trigger] repeated[k]).len() > 0 && repeated[k][0] == ' '
            && holds_line(kept + cut, repeated[k])
    &&& !patch.contains(';') && !patch.contains('?') ==> is_in_order(
        ink_list(kept + cut),
        ink(patch),
    )
}

proof fn lemma_end_line_from(lines: Seq<Seq<char>>, i: int)
    requires
        0 <= i <= lines.len(),
    ensures
        i <= end_line_from(lines, i) <= lines.len(),
        end_line_from(lines, i) < lines.len() ==> trimmed(lines[end_line_from(lines, i)])
            == END_PATCH_MARKER@,
    decreases lines.len() - i,
{
    if i < lines.len() && !is_end_line(lines[i]) {
        lemma_end_line_from(lines, i + 1);
    }
}

proof fn lemma_trimmed_ink(s: Seq<char>)
    ensures
        ink(trimmed(s)) == ink(s),
{
    lemma_ink_trimmed(s);
    lemma_ink_trimmed(trimmed_start(s));
}

proof fn lemma_truncated(body: Seq<char>) -> (cut: Seq<Seq<char>>)
    ensures
        ({
            let kept = line_seq(truncated(body));
            let all = line_seq(body);
            &&& kept.len() + cut.len() == all.len()
            &&& forall|k: int|
                0 <= k < all.len() ==> ink(#[trigger] (kept + cut)[k]) == ink(all[k])
            &&& ink_list(kept + cut) == ink(body)
            &&& cut.len() > 0 ==> {
                &&& kept.len() > 0 && ink(kept.last()) == ink(END_PATCH_MARKER@)
                &&& exists|k: int|
                    0 <= k < cut.len() && trimmed(#[trigger] cut[k]) == END_PATCH_MARKER@
            }
        }),
{
    let all = line_seq(body);
    let kept = line_seq(truncated(body));
    let first = end_line_from(all, 0);
    lemma_end_line_from(all, 0);
    lemma_lines_keep_ink(body, 0);
    assert(body.skip(0) =~= body);
    if first < all.len() && end_line_from(all, first + 1) < all.len() {
        let front = all.take(first + 1);
        let cut = all.skip(first + 1);
        lemma_end_line_from(all, first + 1);
        let second = end_line_from(all, first + 1);
        assert(cut[second - first - 1] == all[second]);
        assert forall|k: int| 0 <= k < front.len() implies !(#[trigger] front[k]).contains('\n') by {
            lemma_lines_hold_no_feed(body, 0, k);
        }
        lemma_lines_of_ended(front);
        assert forall|k: int| 0 <= k < all.len() implies ink(#[trigger] (kept + cut)[k]) == ink(
            all[k],
        ) by {
            if k < kept.len() {
                assert((kept + cut)[k] == kept[k]);
                assert(kept[k] == without_cr(front[k]));
                lemma_without_cr_keeps_ink(front[k]);
            } else {
                assert((kept + cut)[k] == all[k]);
            }
        }
        lemma_same_ink(kept + cut, all);
        lemma_trimmed_ink(all[first]);
        assert((kept + cut)[first] == kept.last());
        cut
    } else {
        let cut = Seq::<Seq<char>>::empty();
        assert(kept + cut =~= all);
        cut
    }
}

proof fn lemma_same_ink(a: Seq<Seq<char>>, b: Seq<Seq<char>>)
    requires
        a.len() == b.len(),
        forall|k: int| 0 <= k < a.len() ==> ink(#[trigger] a[k]) == ink(b[k]),
    ensures
        ink_list(a) == ink_list(b),
    decreases a.len(),
{
    if a.len() > 0 {
        assert forall|k: int| 0 <= k < a.drop_last().len() implies ink(#[trigger] a.drop_last()[k])
            == ink(b.drop_last()[k]) by {
            assert(a.drop_last()[k] == a[k]);
        }
        lemma_same_ink(a.drop_last(), b.drop_last());
        assert(a.last() == a[a.len() - 1]);
    }
}

proof fn lemma_repeated_is_held(body: Seq<char>, list: Seq<Seq<char>>, line: Seq<char>)
    requires
        is_repeated(body, line),
        list.len() == line_seq(body).len(),
        forall|k: int| 0 <= k < list.len() ==> ink(#[trigger] list[k]) == ink(line_seq(body)[k]),
    ensures
        holds_line(list, line),
{
    let k = choose|k: int|
        0 <= k < line_seq(body).len() && {
            let l = #[trigger] line_seq(body)[k];
            l == line || (l.len() > 2 && prefix_char(l[0]) && l[1] == ' ' && l.skip(2) == line)
        };
    let l = line_seq(body)[k];
    if l != line {
        lemma_ink_divided(l, 2);
        lemma_no_ink(l.take(2));
        assert(ink(l.take(2)) + ink(l.skip(2)) =~= ink(l.skip(2)));
    }
    assert(ink(list[k]) == ink(line));
}

/// Repair keeps the text of a patch. All of its ink, which is what is neither white space
/// nor a diff prefix, stands in the repaired patch, but for context lines that stand there
/// already and for what follows the first of several end markers. Where the patch holds no
/// semicolon and no question mark, it stands there in its order.
pub proof fn law_repair_keeps_the_text(patch: Seq<char>)
    ensures
        exists|
            out: Seq<Seq<char>>,
            kept: Seq<Seq<char>>,
            cut: Seq<Seq<char>>,
            repeated: Seq<Seq<char>>,
        |
            is_account(patch, repaired_patch(patch), out, kept, cut, repeated),
{
    let lines = line_seq(patch);
    let state = RepairState { text: Seq::empty(), queue: original_items(lines) };
    let body = repair_all(state);
    assert(item_texts(state.queue) =~= lines);
    lemma_lines_keep_ink(patch, 0);
    assert(patch.skip(0) =~= patch);
    lemma_no_ink(state.text);
    assert(state_ink(state) =~= ink(patch));
    let repeated = lemma_repair_all_keeps_ink(state);
    let cut = lemma_truncated(body);
    let shown = truncated(body);
    let kept = line_seq(shown);
    let out = prefixed_lines(kept);
    lemma_prefixed_ink(kept, kept.len() as int);
    assert(kept.take(kept.len() as int) =~= kept);
    lemma_ink_ended(out);
    let whole = ended(out);
    let repaired = repaired_patch(patch);
    lemma_ended_is_closed(out);
    if repaired != whole {
        assert(repaired.push('\n') =~= whole);
        lemma_ink_push(repaired, '\n');
    }
    lemma_ink_list_add(kept, cut);
    lemma_bag_add(ink_list(kept), ink_list(cut));
    assert forall|k: int| 0 <= k < repeated.len() implies (#[trigger] repeated[k]).len() > 0
        && repeated[k][0] == ' ' && holds_line(kept + cut, repeated[k]) by {
        lemma_repeated_is_held(body, kept + cut, repeated[k]);
    }
    if !patch.contains(';') && !patch.contains('?') {
        lemma_ink_has_no_others(patch, ';');
        lemma_ink_has_no_others(patch, '?');
        lemma_repair_all_keeps_order(state);
    }
    assert(is_account(patch, repaired, out, kept, cut, repeated));
}

proof fn lemma_ink_has_no_others(s: Seq<char>, c: char)
    requires
        !s.contains(c),
    ensures
        !ink(s).contains(c),
{
    if ink(s).contains(c) {
        s.lemma_filter_contains_rev(|c: char| is_ink(c), c);
    }
}

} // verus!
