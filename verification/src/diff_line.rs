//! Single lines of a patch: the diff prefix of a line, and lines that hold several
//! logical lines squashed into one.
use vstd::prelude::*;

use crate::lines::{lemma_texts_push, texts};
use crate::markers::{
    code_char, contains_marker, find_structural_marker_boundary, first_structural_marker,
    hard_boundary, has_marker, is_hard_boundary, is_prefix_char, is_word_char,
    lemma_first_structural, prefix_char, word_char,
};
use crate::text::{
    append_text, contains, contains_text, copy_text, is_ascii_char, is_ascii_digit, is_ascii_letter,
    is_ascii_white, is_ascii_whitespace, is_digit, is_letter, is_white, is_whitespace,
    lemma_skip_ascii_white, lemma_trimmed_end, lemma_trimmed_start, skip_ascii_white,
    skip_ascii_whitespace, span, trim_end, trim_start, trimmed_end, trimmed_start,
};

verus! {

// ---------------------------------------------------------------------------
// The diff prefix of a line
// ---------------------------------------------------------------------------
/// A line as a diff line: an added or removed line starts at its `+` or `-`,
/// a context line is any other line that is not blank and starts with a space.
pub open spec fn diff_line(line: Seq<char>) -> Option<Seq<char>> {
    let t = trimmed_start(line);
    if t.len() == 0 {
        None
    } else if prefix_char(t[0]) {
        Some(t)
    } else if line[0] == ' ' {
        Some(line)
    } else {
        None
    }
}

/// What a diff line starts with.
pub proof fn lemma_diff_line(line: Seq<char>)
    ensures
        diff_line(line) matches Some(d) ==> 0 < d.len() <= line.len() && (prefix_char(d[0]) || d[0]
            == ' '),
{
    lemma_trimmed_start(line);
}

/// The line as a diff line, if it is one.
pub fn trim_to_diff_prefix(line: &[char]) -> (r: Option<&[char]>)
    ensures
        match r {
            Some(d) => diff_line(line@) == Some(d@),
            None => diff_line(line@) is None,
        },
{
    let t: &[char] = trim_start(line);
    if t.len() == 0 {
        return None;
    }
    proof {
        lemma_trimmed_start(line@);
    }
    if is_prefix_char(t[0]) {
        Some(t)
    } else if line[0] == ' ' {
        Some(line)
    } else {
        None
    }
}

/// A diff line that ends with the prefix of the diff line after it, as in
/// `+code;+`, loses that last character.
pub open spec fn without_trailing_prefix(line: Seq<char>, next_line: Seq<char>) -> Option<
    Seq<char>,
> {
    match diff_line(line) {
        Some(d) => if diff_line(next_line).is_some() && d.len() >= 2 && prefix_char(d.last())
            && code_char(d[d.len() - 2]) {
            Some(line.drop_last())
        } else {
            None
        },
        None => None,
    }
}

/// The line without the prefix of the next line at its end, if it ends with one.
pub fn trim_trailing_prefix_if_squashed<'a>(line: &'a [char], next_line: &[char]) -> (r: Option<
    &'a [char],
>)
    ensures
        match r {
            Some(t) => without_trailing_prefix(line@, next_line@) == Some(t@) && t@.len()
                < line@.len(),
            None => without_trailing_prefix(line@, next_line@) is None,
        },
{
    proof {
        lemma_diff_line(line@);
        lemma_trimmed_start(line@);
        lemma_trimmed_end(line@);
    }
    match trim_to_diff_prefix(line) {
        None => None,
        Some(d) => {
            if trim_to_diff_prefix(next_line).is_none() {
                return None;
            }
            if !is_prefix_char(d[d.len() - 1]) {
                return None;
            }
            if d.len() < 2 {
                return None;
            }
            let prev: char = d[d.len() - 2];
            if is_whitespace(prev) || is_prefix_char(prev) {
                return None;
            }
            assert(line@.last() == d@.last());
            let t: &[char] = trim_end(line);
            assert(t@ == line@);
            assert(t@.subrange(0, t@.len() - 1) =~= line@.drop_last());
            Some(span(t, 0, t.len() - 1))
        },
    }
}

// ---------------------------------------------------------------------------
// Where a squashed line is split
// ---------------------------------------------------------------------------
/// A character as the split rules see it. A character beyond ASCII is some
/// character that is neither white space, nor a word character, nor a prefix.
pub open spec fn ascii_or_other(c: char) -> char {
    if is_ascii_char(c) {
        c
    } else {
        '\u{fffd}'
    }
}

/// The character as the split rules see it.
pub fn narrow(c: char) -> (r: char)
    ensures
        r == ascii_or_other(c),
{
    if c <= '\u{7f}' {
        c
    } else {
        '\u{fffd}'
    }
}

/// From `i` on, `s` holds a `+`, or a `-` that does not belong to an arrow
/// (`->`, with ASCII white space allowed inside).
pub open spec fn has_loose_prefix(s: Seq<char>, i: int) -> bool
    decreases s.len() - i,
{
    if i < 0 || i >= s.len() {
        false
    } else if prefix_char(s[i]) {
        let j = skip_ascii_white(s, i + 1);
        proof {
            lemma_skip_ascii_white(s, i + 1);
        }
        if s[i] == '-' && j < s.len() && s[j] == '>' {
            has_loose_prefix(s, j + 1)
        } else {
            true
        }
    } else {
        has_loose_prefix(s, i + 1)
    }
}

fn find_loose_prefix(s: &[char]) -> (r: bool)
    ensures
        r == has_loose_prefix(s@, 0),
{
    let mut i: usize = 0;
    while i < s.len()
        invariant
            i <= s@.len(),
            has_loose_prefix(s@, 0) == has_loose_prefix(s@, i as int),
        decreases s@.len() - i,
    {
        let c: char = s[i];
        if is_prefix_char(c) {
            let j: usize = skip_ascii_whitespace(s, i + 1);
            if c == '-' && j < s.len() && s[j] == '>' {
                i = j + 1;
            } else {
                return true;
            }
        } else {
            i += 1;
        }
    }
    false
}

/// The last position up to `k` that holds no ASCII white space (or 0).
pub open spec fn back_over_white(s: Seq<char>, k: int) -> int
    decreases k,
{
    if 0 < k < s.len() && is_ascii_white(s[k]) {
        back_over_white(s, k - 1)
    } else {
        k
    }
}

/// A `-` between these two characters belongs to code: a range or call after a
/// bracket, a negative index, a gap between strings, an arrow, a hyphenated
/// word, or a minus after a space.
pub open spec fn dash_in_code(prev: char, next: char) -> bool {
    ||| (prev == ')' || prev == ']' || prev == '}') && (next == '{' || next == '(' || next == '[')
    ||| prev == '[' && is_digit(next)
    ||| prev == '"' && next == '"'
    ||| next == '>'
    ||| word_char(prev) && word_char(next)
    ||| prev == ' '
}

/// The prefix `c` can follow in a line that starts with `first`.
pub open spec fn prefix_matches(first: char, c: char) -> bool {
    c == first || (first == '-' && c == '+')
}

/// What stands before the operator at `i` looks like an operand.
pub open spec fn operand_before(d: Seq<char>, i: int) -> bool {
    let p = ascii_or_other(d[back_over_white(d, i - 1)]);
    word_char(p) || p == ')' || p == ']' || p == '}'
}

/// A new logical line can start at position `i` of the diff line `d`.
pub open spec fn split_candidate(d: Seq<char>, i: int) -> bool {
    let first = d[0];
    let c = d[i];
    let k = skip_ascii_white(d, i + 1);
    let prev = ascii_or_other(d[i - 1]);
    let next = ascii_or_other(d[k]);
    &&& 0 < i && i + 1 < d.len() && k < d.len()
    &&& prefix_char(c) || (c == ' ' && first == ' ' && prefix_char(next))
    &&& !is_white(next)
    &&& !(prefix_char(c) && next == '=')
    &&& !(c == '-' && dash_in_code(prev, next))
    &&& if hard_boundary(prev) {
        // not a binary operator between two operands
        !(prefix_char(c) && prev == ' ' && (word_char(next) || next == '(') && operand_before(d, i))
    } else {
        &&& prefix_char(c) && prefix_matches(first, c)
        &&& word_char(prev) ==> {
            ||| k > i + 1
            ||| !word_char(next)
            ||| is_digit(prev) && (is_letter(next) || next == '_')
            ||| first == '-' && c == '+'
        }
    }
}

/// Splitting at `i` would leave a lone prefix after the split at `last`.
pub open spec fn split_too_short(d: Seq<char>, i: int, last: int) -> bool {
    i - last < 2 && hard_boundary(ascii_or_other(d[i - 1])) && !prefix_matches(d[0], d[i])
}

/// The positions from `i` on where `d` is split, after a split at `last`.
pub open spec fn split_points(d: Seq<char>, i: int, last: int) -> Seq<int>
    decreases d.len() - i,
{
    if i < 1 || i >= d.len() {
        Seq::empty()
    } else if split_candidate(d, i) && !split_too_short(d, i, last) {
        seq![i] + split_points(d, i + 1, i)
    } else {
        split_points(d, i + 1, last)
    }
}

fn find_back_over_white(s: &[char], k: usize) -> (r: usize)
    requires
        k < s@.len(),
    ensures
        r == back_over_white(s@, k as int),
        r <= k,
{
    let mut i: usize = k;
    while i > 0 && is_ascii_whitespace(s[i])
        invariant
            i <= k < s@.len(),
            back_over_white(s@, k as int) == back_over_white(s@, i as int),
        decreases i,
    {
        i -= 1;
    }
    i
}

fn is_dash_in_code(prev: char, next: char) -> (r: bool)
    ensures
        r == dash_in_code(prev, next),
{
    ((prev == ')' || prev == ']' || prev == '}') && (next == '{' || next == '(' || next == '['))
        || (prev == '[' && is_ascii_digit(next)) || (prev == '"' && next == '"') || next == '>'
        || (is_word_char(prev) && is_word_char(next)) || prev == ' '
}

fn is_split_candidate(d: &[char], i: usize) -> (r: bool)
    requires
        0 < i < d@.len(),
    ensures
        r == split_candidate(d@, i as int),
{
    let first: char = d[0];
    let c: char = d[i];
    let is_prefix: bool = is_prefix_char(c);
    if (!is_prefix && c != ' ') || i + 1 >= d.len() {
        return false;
    }
    let prev: char = narrow(d[i - 1]);
    let k: usize = skip_ascii_whitespace(d, i + 1);
    if k >= d.len() {
        return false;
    }
    let next: char = narrow(d[k]);
    if !is_prefix && (first != ' ' || !is_prefix_char(next)) {
        return false;
    }
    if is_whitespace(next) || (is_prefix && next == '=') || (c == '-' && is_dash_in_code(
        prev,
        next,
    )) {
        return false;
    }
    if is_hard_boundary(prev) {
        if is_prefix && prev == ' ' && (is_word_char(next) || next == '(') {
            let p: char = narrow(d[find_back_over_white(d, i - 1)]);
            if is_word_char(p) || p == ')' || p == ']' || p == '}' {
                return false;
            }
        }
        true
    } else {
        let matches_first: bool = c == first || (first == '-' && c == '+');
        if !is_prefix || !matches_first {
            return false;
        }
        !is_word_char(prev) || k > i + 1 || !is_word_char(next) || (is_ascii_digit(prev) && (
        is_ascii_letter(next) || next == '_')) || (first == '-' && c == '+')
    }
}

/// Positions as mathematical integers.
pub open spec fn positions(v: Seq<usize>) -> Seq<int> {
    Seq::new(v.len(), |i: int| v[i] as int)
}

fn find_split_points(d: &[char]) -> (r: Vec<usize>)
    requires
        d@.len() > 0,
    ensures
        positions(r@) == split_points(d@, 1, 0),
        forall|k: int| 0 <= k < r@.len() ==> 0 < #[trigger] r@[k] < d@.len(),
{
    let mut out: Vec<usize> = Vec::new();
    let mut last: usize = 0;
    let mut i: usize = 1;
    assert(positions(out@) + split_points(d@, 1, 0) =~= split_points(d@, 1, 0));
    while i < d.len()
        invariant
            1 <= i <= d@.len(),
            last < i,
            positions(out@) + split_points(d@, i as int, last as int) == split_points(d@, 1, 0),
            forall|k: int| 0 <= k < out@.len() ==> 0 < #[trigger] out@[k] < d@.len(),
        decreases d@.len() - i,
    {
        let ghost before = out@;
        let c: char = d[i];
        let first: char = d[0];
        let too_short: bool = i - last < 2 && is_hard_boundary(narrow(d[i - 1])) && !(c == first
            || (first == '-' && c == '+'));
        if is_split_candidate(d, i) && !too_short {
            assert(split_candidate(d@, i as int));
            assert(!split_too_short(d@, i as int, last as int));
            out.push(i);
            assert(positions(out@) + split_points(d@, i + 1, i as int) =~= positions(before)
                + split_points(d@, i as int, last as int));
            last = i;
        }
        i += 1;
    }
    assert(positions(out@) =~= split_points(d@, 1, 0));
    out
}

// ---------------------------------------------------------------------------
// The pieces of a squashed line
// ---------------------------------------------------------------------------
/// The last repetition of the prefix at `best`, over ASCII white space, from `k` on.
pub open spec fn last_repeat(d: Seq<char>, best: int, k: int) -> int
    decreases d.len() - k,
{
    if k < 0 || k >= d.len() {
        best
    } else if d[k] == d[best] {
        last_repeat(d, k, k + 1)
    } else if is_ascii_white(d[k]) {
        last_repeat(d, best, k + 1)
    } else {
        best
    }
}

/// Where the piece that is split off at `i` starts: a repeated prefix, as in
/// `++` or `+ +`, counts once.
pub open spec fn piece_start(d: Seq<char>, i: int) -> int {
    let j = skip_ascii_white(d, i);
    if j < d.len() && prefix_char(d[j]) {
        last_repeat(d, j, j + 1)
    } else if j < d.len() {
        i
    } else {
        j
    }
}

/// The pieces before the first `n` split points, and where the rest starts.
pub open spec fn cut(d: Seq<char>, points: Seq<int>, n: int) -> (Seq<Seq<char>>, int)
    decreases n,
{
    if n <= 0 {
        (Seq::empty(), 0)
    } else {
        let (pieces, start) = cut(d, points, n - 1);
        let i = points[n - 1];
        if i <= start {
            (pieces, start)
        } else {
            let piece = trimmed_end(d.subrange(start, i));
            (
                if piece.len() > 0 {
                    pieces.push(piece)
                } else {
                    pieces
                },
                piece_start(d, i),
            )
        }
    }
}

/// The pieces of what is left after the last split. A prefix that trails a
/// boundary, as in `code;+`, is a piece of its own.
pub open spec fn last_pieces(rest: Seq<char>) -> Seq<Seq<char>> {
    if rest.len() == 0 {
        Seq::empty()
    } else if rest.len() >= 2 && prefix_char(rest.last()) && hard_boundary(rest[rest.len() - 2]) {
        let head = trimmed_end(rest.drop_last());
        if head.len() > 0 {
            seq![head, seq![rest.last()]]
        } else {
            seq![seq![rest.last()]]
        }
    } else {
        seq![rest]
    }
}

/// A character that closes a block or ends a statement.
pub open spec fn closer_char(c: char) -> bool {
    c == '}' || c == ']' || c == ')' || c == ';' || c == ','
}

/// An added or removed line of closing characters only.
pub open spec fn is_closing_piece(piece: Seq<char>) -> bool {
    let rest = trimmed_start(piece.subrange(1, piece.len() as int));
    &&& piece.len() > 0 && prefix_char(piece[0])
    &&& rest.len() > 0
    &&& forall|i: int| 0 <= i < rest.len() ==> closer_char(#[trigger] rest[i])
}

/// Such a line as a context line.
pub open spec fn closing_as_context(piece: Seq<char>) -> Seq<char> {
    if is_closing_piece(piece) {
        piece.update(0, ' ')
    } else {
        piece
    }
}

/// Some piece has another prefix than `first`.
pub open spec fn mixed_prefixes(pieces: Seq<Seq<char>>, first: char) -> bool {
    exists|k: int|
        0 <= k < pieces.len() && (#[trigger] pieces[k]).len() > 0 && prefix_char(pieces[k][0])
            && pieces[k][0] != first
}

/// The pieces at the split points of the diff line `d`.
pub open spec fn point_pieces(d: Seq<char>) -> Option<Seq<Seq<char>>> {
    let points = split_points(d, 1, 0);
    let (front, start) = cut(d, points, points.len() as int);
    let all = front + last_pieces(trimmed_end(d.subrange(start, d.len() as int)));
    if points.len() == 0 || all.len() <= 1 {
        None
    } else if mixed_prefixes(all, d[0]) {
        Some(Seq::new(all.len(), |i: int| closing_as_context(all[i])))
    } else {
        Some(all)
    }
}

/// The logical lines that a line holds, where it holds more than one.
///
/// A line that quotes a diff header is left alone. A structural marker splits
/// the line in front of it. Otherwise a line without markers is split at its
/// split points, unless it starts with two prefixes or its only prefixes are
/// arrows.
pub open spec fn squashed_pieces(line: Seq<char>) -> Option<Seq<Seq<char>>> {
    match diff_line(line) {
        None => None,
        Some(d) => {
            let content = d.subrange(1, d.len() as int);
            if contains_text(content, "+++ "@) || contains_text(content, "--- "@)
                || contains_text(content, "@@ "@) {
                None
            } else if first_structural_marker(content).is_some() {
                let i = first_structural_marker(content).unwrap();
                Some(
                    seq![
                        seq![d[0]] + trimmed_end(content.subrange(0, i)),
                        trimmed_start(content.subrange(i, content.len() as int)),
                    ],
                )
            } else if contains_marker(content) || (prefix_char(d[0]) && d.len() > 1 && prefix_char(
                d[1],
            )) {
                None
            } else if contains_text(content, "->"@) && !has_loose_prefix(content, 0) {
                None
            } else {
                point_pieces(d)
            }
        },
    }
}

// ---------------------------------------------------------------------------
// Splitting a squashed line
// ---------------------------------------------------------------------------
fn find_last_repeat(d: &[char], i: usize) -> (r: usize)
    requires
        i < d@.len(),
    ensures
        r == last_repeat(d@, i as int, i + 1),
        i <= r < d@.len(),
{
    let p: char = d[i];
    let mut best: usize = i;
    let mut k: usize = i + 1;
    while k < d.len() && (d[k] == p || is_ascii_whitespace(d[k]))
        invariant
            i <= best < k <= d@.len(),
            d@[best as int] == p,
            last_repeat(d@, i as int, i + 1) == last_repeat(d@, best as int, k as int),
        decreases d@.len() - k,
    {
        if d[k] == p {
            best = k;
        }
        k += 1;
    }
    best
}

fn find_piece_start(d: &[char], i: usize) -> (r: usize)
    requires
        i <= d@.len(),
    ensures
        r == piece_start(d@, i as int),
        i <= r <= d@.len(),
{
    let j: usize = skip_ascii_whitespace(d, i);
    if j < d.len() {
        if is_prefix_char(d[j]) {
            find_last_repeat(d, j)
        } else {
            i
        }
    } else {
        j
    }
}

fn cut_pieces(d: &[char], points: &[usize]) -> (r: (Vec<Vec<char>>, usize))
    requires
        forall|k: int| 0 <= k < points@.len() ==> #[trigger] points@[k] < d@.len(),
    ensures
        (texts(r.0@), r.1 as int) == cut(d@, positions(points@), points@.len() as int),
        r.1 <= d@.len(),
{
    let mut out: Vec<Vec<char>> = Vec::new();
    let mut start: usize = 0;
    let mut n: usize = 0;
    assert(texts(out@) =~= Seq::<Seq<char>>::empty());
    while n < points.len()
        invariant
            n <= points@.len(),
            start <= d@.len(),
            forall|k: int| 0 <= k < points@.len() ==> #[trigger] points@[k] < d@.len(),
            (texts(out@), start as int) == cut(d@, positions(points@), n as int),
        decreases points@.len() - n,
    {
        let i: usize = points[n];
        if i > start {
            let piece: &[char] = trim_end(span(d, start, i));
            if piece.len() > 0 {
                let owned: Vec<char> = copy_text(piece);
                proof {
                    lemma_texts_push(out@, owned);
                }
                out.push(owned);
            }
            start = find_piece_start(d, i);
        }
        n += 1;
    }
    (out, start)
}

fn push_last_pieces(out: &mut Vec<Vec<char>>, rest: &[char])
    ensures
        texts(final(out)@) == texts(old(out)@) + last_pieces(rest@),
{
    let ghost before = out@;
    let n: usize = rest.len();
    if n == 0 {
        assert(texts(out@) =~= texts(before) + last_pieces(rest@));
        return;
    }
    if n >= 2 && is_prefix_char(rest[n - 1]) && is_hard_boundary(rest[n - 2]) {
        assert(rest@.subrange(0, n - 1) =~= rest@.drop_last());
        let head: &[char] = trim_end(span(rest, 0, n - 1));
        if head.len() > 0 {
            out.push(copy_text(head));
        }
        let mut lone: Vec<char> = Vec::new();
        lone.push(rest[n - 1]);
        assert(lone@ =~= seq![rest@.last()]);
        out.push(lone);
        assert(texts(out@) =~= texts(before) + last_pieces(rest@));
    } else {
        out.push(copy_text(rest));
        assert(texts(out@) =~= texts(before) + last_pieces(rest@));
    }
}

/// An added or removed line that holds closing characters only, as a context line.
pub fn normalize_context_closing_segment(segment: &[char]) -> (r: Option<Vec<char>>)
    ensures
        match r {
            Some(v) => is_closing_piece(segment@) && v@ == closing_as_context(segment@),
            None => !is_closing_piece(segment@),
        },
{
    if segment.len() == 0 || !is_prefix_char(segment[0]) {
        return None;
    }
    let rest: &[char] = span(segment, 1, segment.len());
    let code: &[char] = trim_start(rest);
    if code.len() == 0 {
        return None;
    }
    let mut i: usize = 0;
    while i < code.len()
        invariant
            i <= code@.len(),
            code@ == trimmed_start(segment@.subrange(1, segment@.len() as int)),
            forall|k: int| 0 <= k < i ==> closer_char(#[trigger] code@[k]),
        decreases code@.len() - i,
    {
        let c: char = code[i];
        if !(c == '}' || c == ']' || c == ')' || c == ';' || c == ',') {
            return None;
        }
        i += 1;
    }
    let mut out: Vec<char> = Vec::new();
    out.push(' ');
    append_text(&mut out, rest);
    assert(out@ =~= segment@.update(0, ' '));
    Some(out)
}

fn has_mixed_prefixes(pieces: &[Vec<char>], first: char) -> (r: bool)
    ensures
        r == mixed_prefixes(texts(pieces@), first),
{
    let mut k: usize = 0;
    while k < pieces.len()
        invariant
            k <= pieces@.len(),
            forall|j: int|
                0 <= j < k ==> !((#[trigger] texts(pieces@)[j]).len() > 0 && prefix_char(
                    texts(pieces@)[j][0],
                ) && texts(pieces@)[j][0] != first),
        decreases pieces@.len() - k,
    {
        let piece: &[char] = pieces[k].as_slice();
        if piece.len() > 0 && is_prefix_char(piece[0]) && piece[0] != first {
            assert(texts(pieces@)[k as int] == piece@);
            return true;
        }
        k += 1;
    }
    false
}

fn split_at_points(d: &[char]) -> (r: Option<Vec<Vec<char>>>)
    requires
        d@.len() > 0,
    ensures
        match r {
            Some(v) => point_pieces(d@) == Some(texts(v@)),
            None => point_pieces(d@) is None,
        },
{
    let points: Vec<usize> = find_split_points(d);
    assert(positions(points@).len() == points@.len());
    if points.len() == 0 {
        return None;
    }
    let (mut pieces, start): (Vec<Vec<char>>, usize) = cut_pieces(d, points.as_slice());
    let ghost front = texts(pieces@);
    let rest: &[char] = trim_end(span(d, start, d.len()));
    push_last_pieces(&mut pieces, rest);
    let ghost all = texts(pieces@);
    assert(all == front + last_pieces(trimmed_end(d@.subrange(start as int, d@.len() as int))));
    assert(all.len() == pieces@.len());
    if pieces.len() <= 1 {
        return None;
    }
    if has_mixed_prefixes(pieces.as_slice(), d[0]) {
        let mut out: Vec<Vec<char>> = Vec::new();
        let mut k: usize = 0;
        while k < pieces.len()
            invariant
                k <= pieces@.len(),
                all == texts(pieces@),
                out@.len() == k,
                forall|j: int| 0 <= j < k ==> #[trigger] out@[j]@ == closing_as_context(all[j]),
            decreases pieces@.len() - k,
        {
            match normalize_context_closing_segment(pieces[k].as_slice()) {
                Some(context) => {
                    out.push(context);
                },
                None => {
                    out.push(copy_text(pieces[k].as_slice()));
                },
            }
            k += 1;
        }
        assert(texts(out@) =~= Seq::new(all.len(), |i: int| closing_as_context(all[i])));
        return Some(out);
    }
    Some(pieces)
}

/// Splits a line that holds several logical lines into those lines.
pub fn split_squashed_diff_line(line: &[char]) -> (r: Option<Vec<Vec<char>>>)
    ensures
        match r {
            Some(v) => squashed_pieces(line@) == Some(texts(v@)),
            None => squashed_pieces(line@) is None,
        },
{
    let d: &[char] = match trim_to_diff_prefix(line) {
        Some(d) => d,
        None => {
            return None;
        },
    };
    proof {
        lemma_diff_line(line@);
    }
    let content: &[char] = span(d, 1, d.len());
    if contains(content, "+++ ") || contains(content, "--- ") || contains(content, "@@ ") {
        return None;
    }
    match find_structural_marker_boundary(content) {
        Some(i) => {
            let mut head: Vec<char> = Vec::new();
            head.push(d[0]);
            append_text(&mut head, trim_end(span(content, 0, i)));
            let tail: Vec<char> = copy_text(trim_start(span(content, i, content.len())));
            let mut out: Vec<Vec<char>> = Vec::new();
            out.push(head);
            out.push(tail);
            assert(head@ =~= seq![d@[0]] + trimmed_end(content@.subrange(0, i as int)));
            assert(texts(out@) =~= seq![head@, tail@]);
            return Some(out);
        },
        None => {},
    }
    if has_marker(content) || (is_prefix_char(d[0]) && d.len() > 1 && is_prefix_char(d[1])) {
        return None;
    }
    if contains(content, "->") && !find_loose_prefix(content) {
        return None;
    }
    split_at_points(d)
}

// ---------------------------------------------------------------------------
// The size of the pieces
// ---------------------------------------------------------------------------
/// The number of characters in a list of texts.
pub open spec fn total_len(list: Seq<Seq<char>>) -> nat
    decreases list.len(),
{
    if list.len() == 0 {
        0
    } else {
        total_len(list.drop_last()) + list.last().len()
    }
}

/// No text of the list is empty.
pub open spec fn none_empty(list: Seq<Seq<char>>) -> bool {
    forall|k: int| 0 <= k < list.len() ==> (#[trigger] list[k]).len() > 0
}

pub proof fn lemma_total_len_push(list: Seq<Seq<char>>, t: Seq<char>)
    ensures
        total_len(list.push(t)) == total_len(list) + t.len(),
{
    assert(list.push(t).drop_last() =~= list);
}

proof fn lemma_last_repeat(d: Seq<char>, best: int, k: int)
    requires
        0 <= best < k,
        best < d.len(),
    ensures
        best <= last_repeat(d, best, k) < d.len(),
    decreases d.len() - k,
{
    if k < d.len() {
        if d[k] == d[best] {
            lemma_last_repeat(d, k, k + 1);
        } else if is_ascii_white(d[k]) {
            lemma_last_repeat(d, best, k + 1);
        }
    }
}

proof fn lemma_piece_start(d: Seq<char>, i: int)
    requires
        0 <= i <= d.len(),
    ensures
        i <= piece_start(d, i) <= d.len(),
{
    lemma_skip_ascii_white(d, i);
    let j = skip_ascii_white(d, i);
    if j < d.len() && prefix_char(d[j]) {
        lemma_last_repeat(d, j, j + 1);
    }
}

/// Split points lie inside the line.
pub proof fn lemma_split_points(d: Seq<char>, i: int, last: int)
    requires
        1 <= i,
    ensures
        forall|k: int|
            0 <= k < split_points(d, i, last).len() ==> i <= #[trigger] split_points(
                d,
                i,
                last,
            )[k] < d.len(),
    decreases d.len() - i,
{
    if i < d.len() {
        lemma_split_points(d, i + 1, i);
        lemma_split_points(d, i + 1, last);
        let rest = split_points(d, i + 1, i);
        assert forall|k: int| 0 <= k < split_points(d, i, last).len() implies i
            <= #[trigger] split_points(d, i, last)[k] < d.len() by {
            if split_candidate(d, i) && !split_too_short(d, i, last) {
                assert(split_points(d, i, last) == seq![i] + rest);
                if k > 0 {
                    assert(split_points(d, i, last)[k] == rest[k - 1]);
                }
            } else {
                assert(split_points(d, i, last) == split_points(d, i + 1, last));
            }
        }
    }
}

proof fn lemma_cut(d: Seq<char>, points: Seq<int>, n: int)
    requires
        0 <= n <= points.len(),
        forall|k: int| 0 <= k < points.len() ==> 0 < #[trigger] points[k] < d.len(),
    ensures
        0 <= cut(d, points, n).1 <= d.len(),
        total_len(cut(d, points, n).0) <= cut(d, points, n).1,
        none_empty(cut(d, points, n).0),
    decreases n,
{
    if n > 0 {
        lemma_cut(d, points, n - 1);
        let (pieces, start) = cut(d, points, n - 1);
        let i = points[n - 1];
        if i > start {
            let piece = trimmed_end(d.subrange(start, i));
            lemma_trimmed_end(d.subrange(start, i));
            lemma_total_len_push(pieces, piece);
            lemma_piece_start(d, i);
        }
    }
}

/// A squashed line splits in at least two pieces, none of them empty, that
/// together hold no more characters than the line.
pub proof fn law_pieces_are_smaller(line: Seq<char>)
    ensures
        squashed_pieces(line) matches Some(pieces) ==> {
            &&& pieces.len() >= 2
            &&& none_empty(pieces)
            &&& total_len(pieces) <= line.len()
        },
{
    lemma_diff_line(line);
    if let Some(d) = diff_line(line) {
        let content = d.subrange(1, d.len() as int);
        if let Some(pieces) = squashed_pieces(line) {
            if let Some(i) = first_structural_marker(content) {
                lemma_first_structural(content);
                let head = seq![d[0]] + trimmed_end(content.subrange(0, i));
                let tail = trimmed_start(content.subrange(i, content.len() as int));
                lemma_trimmed_end(content.subrange(0, i));
                lemma_trimmed_start(content.subrange(i, content.len() as int));
                lemma_structural_is_code(content);
                assert(pieces =~= Seq::<Seq<char>>::empty().push(head).push(tail));
                lemma_total_len_push(Seq::empty(), head);
                lemma_total_len_push(Seq::<Seq<char>>::empty().push(head), tail);
            } else {
                lemma_point_pieces(d);
            }
        }
    }
}

/// A structural marker starts with a character that is no white space.
proof fn lemma_structural_is_code(content: Seq<char>)
    ensures
        first_structural_marker(content) matches Some(i) ==> trimmed_start(
            content.subrange(i, content.len() as int),
        ).len() > 0,
{
    crate::markers::lemma_structural_marker_start(content);
    if let Some(i) = first_structural_marker(content) {
        lemma_first_structural(content);
        lemma_trimmed_start(content.subrange(i, content.len() as int));
    }
}

proof fn lemma_point_pieces(d: Seq<char>)
    requires
        d.len() > 0,
    ensures
        point_pieces(d) matches Some(pieces) ==> {
            &&& pieces.len() >= 2
            &&& none_empty(pieces)
            &&& total_len(pieces) <= d.len()
        },
{
    let points = split_points(d, 1, 0);
    lemma_split_points(d, 1, 0);
    lemma_cut(d, points, points.len() as int);
    let (front, start) = cut(d, points, points.len() as int);
    let rest = trimmed_end(d.subrange(start, d.len() as int));
    lemma_trimmed_end(d.subrange(start, d.len() as int));
    let all = front + last_pieces(rest);
    assert(none_empty(all) && total_len(all) <= total_len(front) + rest.len()) by {
        if rest.len() == 0 {
            assert(all =~= front);
        } else if rest.len() >= 2 && prefix_char(rest.last()) && hard_boundary(
            rest[rest.len() - 2],
        ) {
            let head = trimmed_end(rest.drop_last());
            lemma_trimmed_end(rest.drop_last());
            let lone = seq![rest.last()];
            if head.len() > 0 {
                assert(all =~= front.push(head).push(lone));
                lemma_total_len_push(front, head);
                lemma_total_len_push(front.push(head), lone);
            } else {
                assert(all =~= front.push(lone));
                lemma_total_len_push(front, lone);
            }
        } else {
            assert(all =~= front.push(rest));
            lemma_total_len_push(front, rest);
        }
    }
    let context = Seq::new(all.len(), |i: int| closing_as_context(all[i]));
    assert forall|k: int| 0 <= k < context.len() implies (#[trigger] context[k]).len()
        == all[k].len() by {}
    lemma_same_total_len(context, all);
}

proof fn lemma_same_total_len(a: Seq<Seq<char>>, b: Seq<Seq<char>>)
    requires
        a.len() == b.len(),
        forall|k: int| 0 <= k < a.len() ==> (#[trigger] a[k]).len() == b[k].len(),
    ensures
        total_len(a) == total_len(b),
    decreases a.len(),
{
    if a.len() > 0 {
        lemma_same_total_len(a.drop_last(), b.drop_last());
    }
}

} // verus!
