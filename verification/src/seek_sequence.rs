//! Search for a run of lines in a file.
use vstd::prelude::*;

use crate::indent::{columns, line_columns, TAB_WIDTH};
use crate::lines::{lemma_texts_push, strings, texts, texts_of};
use crate::text::{
    append_text, copy_text, is_blank, is_blank_text, is_white, is_whitespace, lemma_blank,
    lemma_skip_white, lemma_trimmed_end, lemma_trimmed_start, same_text, skip_white, span, trim, trim_end, trimmed,
    trimmed_end, trimmed_start,
};

verus! {

// ---------------------------------------------------------------------------
// How lines are compared
// ---------------------------------------------------------------------------
/// How strictly two lines are compared.
#[derive(Clone, Copy, Debug, PartialEq, Eq, Structural)]
pub enum Strictness {
    /// As they stand.
    Exact,
    /// Without white space at the end.
    TrimEnd,
    /// Without white space at both ends.
    Trim,
    /// Trimmed, with typographic punctuation and spaces as ASCII.
    Punctuation,
    /// By their words.
    Tokens,
}

/// The ASCII character for a typographic dash, quotation mark or space.
pub open spec fn plain_char(c: char) -> char {
    if '\u{2010}' <= c <= '\u{2015}' || c == '\u{2212}' {
        '-'
    } else if '\u{2018}' <= c <= '\u{201B}' {
        '\''
    } else if '\u{201C}' <= c <= '\u{201F}' {
        '"'
    } else if c == '\u{00A0}' || '\u{2002}' <= c <= '\u{200A}' || c == '\u{202F}' || c
        == '\u{205F}' || c == '\u{3000}' {
        ' '
    } else {
        c
    }
}

/// The text with plain characters.
pub open spec fn plain_text(s: Seq<char>) -> Seq<char> {
    Seq::new(s.len(), |i: int| plain_char(s[i]))
}

/// The first position at or after `i` that holds white space (or the end).
pub open spec fn word_end(s: Seq<char>, i: int) -> int
    decreases s.len() - i,
{
    if 0 <= i < s.len() && !is_white(s[i]) {
        word_end(s, i + 1)
    } else {
        i
    }
}

/// The words of `s` from position `i` on, each with a space before it.
pub open spec fn words_from(s: Seq<char>, i: int) -> Seq<char>
    decreases s.len() - i,
    via words_from_decreases
{
    let a = skip_white(s, i);
    let b = word_end(s, a);
    if i < 0 || i > s.len() || a >= s.len() {
        Seq::empty()
    } else {
        seq![' '] + s.subrange(a, b) + words_from(s, b)
    }
}

#[via_fn]
proof fn words_from_decreases(s: Seq<char>, i: int) {
    if 0 <= i <= s.len() {
        lemma_skip_white(s, i);
        lemma_word_end(s, skip_white(s, i));
    }
}

proof fn lemma_word_end(s: Seq<char>, i: int)
    requires
        0 <= i <= s.len(),
    ensures
        i <= word_end(s, i) <= s.len(),
        i < s.len() && !is_white(s[i]) ==> i < word_end(s, i),
        forall|k: int| i <= k < word_end(s, i) ==> !is_white(s[k]),
    decreases s.len() - i,
{
    if i < s.len() && !is_white(s[i]) {
        lemma_word_end(s, i + 1);
    }
}

/// The words of `s` with one space between them.
pub open spec fn words_of(s: Seq<char>) -> Seq<char> {
    let words = words_from(s, 0);
    if words.len() > 0 {
        words.skip(1)
    } else {
        words
    }
}

/// What is compared of a line.
pub open spec fn shape(strictness: Strictness, line: Seq<char>) -> Seq<char> {
    match strictness {
        Strictness::Exact => line,
        Strictness::TrimEnd => trimmed_end(line),
        Strictness::Trim => trimmed(line),
        Strictness::Punctuation => plain_text(trimmed(line)),
        Strictness::Tokens => words_of(line),
    }
}

/// The pattern matches the lines at position `i`.
pub open spec fn matches_block(
    strictness: Strictness,
    lines: Seq<Seq<char>>,
    pattern: Seq<Seq<char>>,
    i: int,
) -> bool {
    &&& 0 <= i && i + pattern.len() <= lines.len()
    &&& forall|j: int|
        0 <= j < pattern.len() ==> shape(strictness, #[trigger] lines[i + j]) == shape(
            strictness,
            pattern[j],
        )
}

/// The first match at or after `i`.
pub open spec fn first_match(
    strictness: Strictness,
    lines: Seq<Seq<char>>,
    pattern: Seq<Seq<char>>,
    i: int,
) -> Option<int>
    decreases lines.len() + 1 - i,
{
    if i < 0 || i + pattern.len() > lines.len() {
        None
    } else if matches_block(strictness, lines, pattern, i) {
        Some(i)
    } else {
        first_match(strictness, lines, pattern, i + 1)
    }
}

// ---------------------------------------------------------------------------
// Blank lines left out
// ---------------------------------------------------------------------------
/// The lines that are not blank.
pub open spec fn solid_lines(lines: Seq<Seq<char>>) -> Seq<Seq<char>>
    decreases lines.len(),
{
    if lines.len() == 0 {
        Seq::empty()
    } else {
        let rest = solid_lines(lines.drop_last());
        if is_blank_text(lines.last()) {
            rest
        } else {
            rest.push(lines.last())
        }
    }
}

/// The first line at or after `i` that is not blank (or the end).
pub open spec fn skip_blank(lines: Seq<Seq<char>>, i: int) -> int
    decreases lines.len() - i,
{
    if 0 <= i < lines.len() && is_blank_text(lines[i]) {
        skip_blank(lines, i + 1)
    } else {
        i
    }
}

/// The lines from `i` on that are not blank start with those of `solid`, and none
/// of these is indented less than `base`.
pub open spec fn solid_match(
    lines: Seq<Seq<char>>,
    i: int,
    solid: Seq<Seq<char>>,
    base: int,
) -> bool
    decreases solid.len(),
{
    if solid.len() == 0 {
        true
    } else {
        let k = skip_blank(lines, i);
        &&& k < lines.len()
        &&& columns(lines[k], TAB_WIDTH as nat) >= base
        &&& trimmed(lines[k]) == trimmed(solid[0])
        &&& solid_match(lines, k + 1, solid.skip(1), base)
    }
}

/// The first line at or after `i` where `solid` matches.
pub open spec fn first_solid_match(
    lines: Seq<Seq<char>>,
    solid: Seq<Seq<char>>,
    base: int,
    i: int,
) -> Option<int>
    decreases lines.len() - i,
{
    if i < 0 || i >= lines.len() {
        None
    } else if solid_match(lines, i, solid, base) {
        Some(i)
    } else {
        first_solid_match(lines, solid, base, i + 1)
    }
}

/// The lines from `j` to `end` are blank or go on with `solid[k]`, `solid[k + 1]`
/// and so on.
pub open spec fn leads_to(
    lines: Seq<Seq<char>>,
    j: int,
    end: int,
    solid: Seq<Seq<char>>,
    k: int,
) -> bool
    decreases end + 1 - j,
{
    if j > end {
        true
    } else if 0 <= k < solid.len() && trimmed(lines[j]) == trimmed(solid[k]) {
        leads_to(lines, j + 1, end, solid, k + 1)
    } else {
        is_blank_text(lines[j]) && leads_to(lines, j + 1, end, solid, k)
    }
}

/// The last line from `start` to `i` that holds the first line of `solid` and leads
/// on to `initial` (or `initial` itself).
pub open spec fn solid_start(
    lines: Seq<Seq<char>>,
    start: int,
    i: int,
    initial: int,
    solid: Seq<Seq<char>>,
) -> int
    decreases i + 1 - start,
{
    if i < start || solid.len() == 0 {
        initial
    } else if trimmed(lines[i]) == trimmed(solid[0]) && leads_to(lines, i, initial, solid, 0) {
        i
    } else {
        solid_start(lines, start, i - 1, initial, solid)
    }
}

/// Where the pattern matches once blank lines are left out. A pattern of blank
/// lines matches at `start`.
pub open spec fn blank_tolerant_match(
    lines: Seq<Seq<char>>,
    pattern: Seq<Seq<char>>,
    start: int,
) -> Option<int> {
    let solid = solid_lines(pattern);
    if solid.len() == 0 {
        Some(start)
    } else {
        match first_solid_match(lines, solid, columns(solid[0], TAB_WIDTH as nat) as int, start) {
            Some(i) => Some(solid_start(lines, start, i, i, solid)),
            None => None,
        }
    }
}

// ---------------------------------------------------------------------------
// The search
// ---------------------------------------------------------------------------
/// The first match from `start` on under the strictest comparison that has one.
pub open spec fn seek_from(
    lines: Seq<Seq<char>>,
    pattern: Seq<Seq<char>>,
    start: int,
) -> Option<int> {
    if first_match(Strictness::Exact, lines, pattern, start).is_some() {
        first_match(Strictness::Exact, lines, pattern, start)
    } else if first_match(Strictness::TrimEnd, lines, pattern, start).is_some() {
        first_match(Strictness::TrimEnd, lines, pattern, start)
    } else if first_match(Strictness::Trim, lines, pattern, start).is_some() {
        first_match(Strictness::Trim, lines, pattern, start)
    } else if first_match(Strictness::Punctuation, lines, pattern, start).is_some() {
        first_match(Strictness::Punctuation, lines, pattern, start)
    } else if first_match(Strictness::Tokens, lines, pattern, start).is_some() {
        first_match(Strictness::Tokens, lines, pattern, start)
    } else {
        blank_tolerant_match(lines, pattern, start)
    }
}

/// Where the end of the file is tried for a pattern: at the last lines that it fits
/// on, but not before `start`.
pub open spec fn end_start(lines: Seq<Seq<char>>, pattern: Seq<Seq<char>>, start: int) -> int {
    if start >= lines.len() - pattern.len() {
        start
    } else {
        lines.len() - pattern.len()
    }
}

/// Where the pattern stands in the lines, at or after `start`. With `eof` the end
/// of the file is tried first.
pub open spec fn seek(
    lines: Seq<Seq<char>>,
    pattern: Seq<Seq<char>>,
    start: int,
    eof: bool,
) -> Option<int> {
    if pattern.len() == 0 {
        Some(start)
    } else if pattern.len() > lines.len() {
        None
    } else if eof && seek_from(lines, pattern, end_start(lines, pattern, start)).is_some() {
        seek_from(lines, pattern, end_start(lines, pattern, start))
    } else {
        seek_from(lines, pattern, start)
    }
}

fn to_plain_char(c: char) -> (r: char)
    ensures
        r == plain_char(c),
{
    if ('\u{2010}' <= c && c <= '\u{2015}') || c == '\u{2212}' {
        '-'
    } else if '\u{2018}' <= c && c <= '\u{201B}' {
        '\''
    } else if '\u{201C}' <= c && c <= '\u{201F}' {
        '"'
    } else if c == '\u{00A0}' || ('\u{2002}' <= c && c <= '\u{200A}') || c == '\u{202F}' || c
        == '\u{205F}' || c == '\u{3000}' {
        ' '
    } else {
        c
    }
}

/// The trimmed text with typographic punctuation and spaces as ASCII.
pub fn normalise(s: &[char]) -> (r: Vec<char>)
    ensures
        r@ == plain_text(trimmed(s@)),
{
    let t: &[char] = trim(s);
    let mut out: Vec<char> = Vec::new();
    let mut i: usize = 0;
    while i < t.len()
        invariant
            i <= t@.len(),
            out@ == plain_text(t@).take(i as int),
        decreases t@.len() - i,
    {
        out.push(to_plain_char(t[i]));
        i += 1;
        assert(out@ =~= plain_text(t@).take(i as int));
    }
    assert(out@ =~= plain_text(t@));
    out
}

/// The words of a text with one space between them.
pub fn normalize_tokens(s: &[char]) -> (r: Vec<char>)
    ensures
        r@ == words_of(s@),
{
    let mut out: Vec<char> = Vec::new();
    let mut i: usize = 0;
    assert(out@ + words_from(s@, 0) =~= words_from(s@, 0));
    loop
        invariant
            i <= s@.len(),
            out@ + words_from(s@, i as int) == words_from(s@, 0),
        decreases s@.len() - i,
    {
        let mut a: usize = i;
        while a < s.len() && is_whitespace(s[a])
            invariant
                i <= a <= s@.len(),
                skip_white(s@, i as int) == skip_white(s@, a as int),
            decreases s@.len() - a,
        {
            a += 1;
        }
        if a >= s.len() {
            assert(out@ =~= out@ + words_from(s@, i as int));
            if out.len() > 0 {
                let rest: Vec<char> = copy_text(span(out.as_slice(), 1, out.len()));
                assert(rest@ =~= words_of(s@));
                return rest;
            }
            return out;
        }
        let mut b: usize = a;
        while b < s.len() && !is_whitespace(s[b])
            invariant
                a <= b <= s@.len(),
                a < s@.len(),
                word_end(s@, a as int) == word_end(s@, b as int),
                !is_white(s@[a as int]),
            decreases s@.len() - b,
        {
            b += 1;
        }
        proof {
            lemma_word_end(s@, a as int);
        }
        let ghost before = out@;
        out.push(' ');
        append_text(&mut out, span(s, a, b));
        assert(out@ + words_from(s@, b as int) =~= before + words_from(s@, i as int));
        i = b;
    }
}

fn shape_of(strictness: Strictness, line: &[char]) -> (r: Vec<char>)
    ensures
        r@ == shape(strictness, line@),
{
    match strictness {
        Strictness::Exact => copy_text(line),
        Strictness::TrimEnd => copy_text(trim_end(line)),
        Strictness::Trim => copy_text(trim(line)),
        Strictness::Punctuation => normalise(line),
        Strictness::Tokens => normalize_tokens(line),
    }
}

fn shapes_of(strictness: Strictness, lines: &[Vec<char>]) -> (r: Vec<Vec<char>>)
    ensures
        r@.len() == lines@.len(),
        forall|i: int| 0 <= i < r@.len() ==> (#[trigger] r@[i])@ == shape(strictness, lines@[i]@),
{
    let mut out: Vec<Vec<char>> = Vec::new();
    let mut i: usize = 0;
    while i < lines.len()
        invariant
            i <= lines@.len(),
            out@.len() == i,
            forall|k: int|
                0 <= k < i ==> (#[trigger] out@[k])@ == shape(strictness, lines@[k]@),
        decreases lines@.len() - i,
    {
        out.push(shape_of(strictness, lines[i].as_slice()));
        i += 1;
    }
    out
}

fn find_first_match(
    strictness: Strictness,
    lines: &[Vec<char>],
    pattern: &[Vec<char>],
    start: usize,
) -> (r: Option<usize>)
    requires
        pattern@.len() <= lines@.len(),
    ensures
        match r {
            Some(i) => first_match(strictness, texts(lines@), texts(pattern@), start as int)
                == Some(i as int),
            None => first_match(strictness, texts(lines@), texts(pattern@), start as int) is None,
        },
{
    let line_shapes: Vec<Vec<char>> = shapes_of(strictness, lines);
    let pattern_shapes: Vec<Vec<char>> = shapes_of(strictness, pattern);
    let ghost all = texts(lines@);
    let ghost pat = texts(pattern@);
    let last: usize = lines.len() - pattern.len();
    let n: usize = pattern.len();
    let mut i: usize = start;
    while i <= last
        invariant
            last == lines@.len() - pattern@.len(),
            n == pattern@.len(),
            n <= lines@.len(),
            lines@.len() <= usize::MAX,
            all == texts(lines@),
            pat == texts(pattern@),
            line_shapes@.len() == lines@.len(),
            pattern_shapes@.len() == n,
            forall|k: int|
                0 <= k < line_shapes@.len() ==> (#[trigger] line_shapes@[k])@ == shape(
                    strictness,
                    lines@[k]@,
                ),
            forall|k: int|
                0 <= k < n ==> (#[trigger] pattern_shapes@[k])@ == shape(strictness, pattern@[k]@),
            first_match(strictness, all, pat, start as int) == first_match(
                strictness,
                all,
                pat,
                i as int,
            ),
        decreases last + 1 - i,
    {
        let mut j: usize = 0;
        while j < n && same_text(
            line_shapes[i + j].as_slice(),
            pattern_shapes[j].as_slice(),
        )
            invariant
                j <= n,
                i + n <= lines@.len(),
                lines@.len() <= usize::MAX,
                n == pattern@.len(),
                all == texts(lines@),
                pat == texts(pattern@),
                line_shapes@.len() == lines@.len(),
                pattern_shapes@.len() == n,
                forall|k: int|
                    0 <= k < line_shapes@.len() ==> (#[trigger] line_shapes@[k])@ == shape(
                        strictness,
                        lines@[k]@,
                    ),
                forall|k: int|
                    0 <= k < n ==> (#[trigger] pattern_shapes@[k])@ == shape(
                        strictness,
                        pattern@[k]@,
                    ),
                forall|k: int|
                    0 <= k < j ==> shape(strictness, #[trigger] all[i + k]) == shape(
                        strictness,
                        pat[k],
                    ),
            decreases n - j,
        {
            assert(all[i + j] == lines@[i + j]@);
            assert(pat[j as int] == pattern@[j as int]@);
            j += 1;
        }
        if j == n {
            assert(matches_block(strictness, all, pat, i as int));
            return Some(i);
        }
        assert(all[i + j] == lines@[i + j]@);
        assert(pat[j as int] == pattern@[j as int]@);
        assert(!matches_block(strictness, all, pat, i as int));
        if i == usize::MAX {
            return None;
        }
        i += 1;
    }
    None
}

fn solid_lines_of(lines: &[Vec<char>]) -> (r: Vec<Vec<char>>)
    ensures
        texts(r@) == solid_lines(texts(lines@)),
{
    let mut out: Vec<Vec<char>> = Vec::new();
    let ghost all = texts(lines@);
    let mut i: usize = 0;
    assert(all.take(0) =~= Seq::<Seq<char>>::empty());
    assert(texts(out@) =~= Seq::<Seq<char>>::empty());
    while i < lines.len()
        invariant
            i <= lines@.len(),
            all == texts(lines@),
            texts(out@) == solid_lines(all.take(i as int)),
        decreases lines@.len() - i,
    {
        let line: &[char] = lines[i].as_slice();
        assert(all.take(i + 1).drop_last() =~= all.take(i as int));
        assert(all.take(i + 1).last() == line@);
        if !is_blank(line) {
            let t: Vec<char> = copy_text(line);
            proof {
                lemma_texts_push(out@, t);
            }
            out.push(t);
        }
        i += 1;
    }
    assert(all.take(lines@.len() as int) =~= all);
    out
}

fn find_solid_line(lines: &[Vec<char>], start: usize) -> (r: usize)
    requires
        start <= lines@.len(),
    ensures
        r == skip_blank(texts(lines@), start as int),
        start <= r <= lines@.len(),
{
    let mut i: usize = start;
    while i < lines.len() && is_blank(lines[i].as_slice())
        invariant
            start <= i <= lines@.len(),
            skip_blank(texts(lines@), start as int) == skip_blank(texts(lines@), i as int),
        decreases lines@.len() - i,
    {
        i += 1;
    }
    i
}

fn is_solid_match(lines: &[Vec<char>], start: usize, solid: &[Vec<char>], base: u128) -> (r: bool)
    requires
        start <= lines@.len(),
    ensures
        r == solid_match(texts(lines@), start as int, texts(solid@), base as int),
{
    let ghost all = texts(lines@);
    let ghost pats = texts(solid@);
    let mut i: usize = start;
    let mut k: usize = 0;
    assert(pats.skip(0) =~= pats);
    while k < solid.len()
        invariant
            i <= lines@.len(),
            k <= solid@.len(),
            all == texts(lines@),
            pats == texts(solid@),
            solid_match(all, start as int, pats, base as int) == solid_match(
                all,
                i as int,
                pats.skip(k as int),
                base as int,
            ),
        decreases solid@.len() - k,
    {
        let next: usize = find_solid_line(lines, i);
        assert(pats.skip(k as int)[0] == solid@[k as int]@);
        assert(pats.skip(k as int).skip(1) =~= pats.skip(k + 1));
        if next >= lines.len() {
            return false;
        }
        let line: &[char] = lines[next].as_slice();
        assert(line@ == all[next as int]);
        if line_columns(line, TAB_WIDTH) < base || !same_text(
            trim(line),
            trim(solid[k].as_slice()),
        ) {
            return false;
        }
        i = next + 1;
        k += 1;
    }
    true
}

fn does_lead_to(lines: &[Vec<char>], from: usize, end: usize, solid: &[Vec<char>]) -> (r: bool)
    requires
        from <= end < lines@.len(),
    ensures
        r == leads_to(texts(lines@), from as int, end as int, texts(solid@), 0),
{
    let ghost all = texts(lines@);
    let ghost pats = texts(solid@);
    let mut j: usize = from;
    let mut k: usize = 0;
    while j <= end
        invariant
            j <= end + 1,
            end < lines@.len(),
            k <= solid@.len(),
            all == texts(lines@),
            pats == texts(solid@),
            leads_to(all, from as int, end as int, pats, 0) == leads_to(
                all,
                j as int,
                end as int,
                pats,
                k as int,
            ),
        decreases end + 1 - j,
    {
        let line: &[char] = lines[j].as_slice();
        assert(line@ == all[j as int]);
        if k < solid.len() && same_text(trim(line), trim(solid[k].as_slice())) {
            k += 1;
        } else if !is_blank(line) {
            return false;
        }
        j += 1;
    }
    true
}

/// Where a match that was found at `initial_start` starts.
pub fn find_actual_start_greedy(
    source: &[Vec<char>],
    start: usize,
    initial_start: usize,
    non_blank_pattern: &[Vec<char>],
) -> (r: usize)
    requires
        non_blank_pattern@.len() > 0 ==> initial_start < source@.len(),
    ensures
        r == solid_start(
            texts(source@),
            start as int,
            initial_start as int,
            initial_start as int,
            texts(non_blank_pattern@),
        ),
{
    if non_blank_pattern.len() == 0 {
        return initial_start;
    }
    let ghost all = texts(source@);
    let ghost pats = texts(non_blank_pattern@);
    let total: usize = source.len();
    assert(initial_start < total);
    let mut n: usize = initial_start + 1;
    while n > start
        invariant
            n <= initial_start + 1,
            initial_start < source@.len(),
            non_blank_pattern@.len() > 0,
            all == texts(source@),
            pats == texts(non_blank_pattern@),
            solid_start(
                all,
                start as int,
                initial_start as int,
                initial_start as int,
                pats,
            ) == solid_start(all, start as int, n - 1, initial_start as int, pats),
        decreases n,
    {
        let i: usize = n - 1;
        assert(all[i as int] == source@[i as int]@);
        assert(pats[0] == non_blank_pattern@[0]@);
        if same_text(trim(source[i].as_slice()), trim(non_blank_pattern[0].as_slice()))
            && does_lead_to(source, i, initial_start, non_blank_pattern) {
            return i;
        }
        n -= 1;
    }
    initial_start
}

/// Finds the pattern with blank lines left out.
pub fn match_with_greedy_blank_tolerance(
    source: &[Vec<char>],
    pattern: &[Vec<char>],
    start: usize,
) -> (r: Option<usize>)
    ensures
        match r {
            Some(i) => blank_tolerant_match(texts(source@), texts(pattern@), start as int) == Some(
                i as int,
            ),
            None => blank_tolerant_match(texts(source@), texts(pattern@), start as int) is None,
        },
{
    let solid: Vec<Vec<char>> = solid_lines_of(pattern);
    if solid.len() == 0 {
        return Some(start);
    }
    let ghost all = texts(source@);
    let ghost pats = texts(solid@);
    assert(pats[0] == solid@[0]@);
    let base: u128 = line_columns(solid[0].as_slice(), TAB_WIDTH);
    let mut i: usize = start;
    while i < source.len()
        invariant
            all == texts(source@),
            pats == texts(solid@),
            pats == solid_lines(texts(pattern@)),
            solid@.len() > 0,
            base == columns(pats[0], TAB_WIDTH as nat),
            first_solid_match(all, pats, base as int, start as int) == first_solid_match(
                all,
                pats,
                base as int,
                i as int,
            ),
        decreases source@.len() - i,
    {
        if is_solid_match(source, i, solid.as_slice(), base) {
            return Some(find_actual_start_greedy(source, start, i, solid.as_slice()));
        }
        i += 1;
    }
    None
}

fn seek_texts_from(lines: &[Vec<char>], pattern: &[Vec<char>], start: usize) -> (r: Option<usize>)
    requires
        pattern@.len() <= lines@.len(),
    ensures
        match r {
            Some(i) => seek_from(texts(lines@), texts(pattern@), start as int) == Some(i as int),
            None => seek_from(texts(lines@), texts(pattern@), start as int) is None,
        },
{
    match find_first_match(Strictness::Exact, lines, pattern, start) {
        Some(i) => {
            return Some(i);
        },
        None => {},
    }
    match find_first_match(Strictness::TrimEnd, lines, pattern, start) {
        Some(i) => {
            return Some(i);
        },
        None => {},
    }
    match find_first_match(Strictness::Trim, lines, pattern, start) {
        Some(i) => {
            return Some(i);
        },
        None => {},
    }
    match find_first_match(Strictness::Punctuation, lines, pattern, start) {
        Some(i) => {
            return Some(i);
        },
        None => {},
    }
    match find_first_match(Strictness::Tokens, lines, pattern, start) {
        Some(i) => {
            return Some(i);
        },
        None => {},
    }
    match_with_greedy_blank_tolerance(lines, pattern, start)
}

/// Finds the pattern among lines that are given as characters.
pub fn seek_texts(lines: &[Vec<char>], pattern: &[Vec<char>], start: usize, eof: bool) -> (r:
    Option<usize>)
    ensures
        match r {
            Some(i) => seek(texts(lines@), texts(pattern@), start as int, eof) == Some(i as int),
            None => seek(texts(lines@), texts(pattern@), start as int, eof) is None,
        },
{
    if pattern.len() == 0 {
        return Some(start);
    }
    if pattern.len() > lines.len() {
        return None;
    }
    if eof {
        let last: usize = lines.len() - pattern.len();
        let from: usize = if start >= last {
            start
        } else {
            last
        };
        match seek_texts_from(lines, pattern, from) {
            Some(i) => {
                return Some(i);
            },
            None => {},
        }
    }
    seek_texts_from(lines, pattern, start)
}

/// Finds the pattern in the lines, at or after `start`, with decreasing
/// strictness: as it stands, without white space at the line ends, without white
/// space at both ends, with plain punctuation, by words, and with blank lines left
/// out. With `eof` the end of the lines is tried first.
pub fn seek_sequence(lines: &[String], pattern: &[String], start: usize, eof: bool) -> (r: Option<
    usize,
>)
    ensures
        match r {
            Some(i) => seek(strings(lines@), strings(pattern@), start as int, eof) == Some(
                i as int,
            ),
            None => seek(strings(lines@), strings(pattern@), start as int, eof) is None,
        },
{
    let l: Vec<Vec<char>> = texts_of(lines);
    let p: Vec<Vec<char>> = texts_of(pattern);
    seek_texts(l.as_slice(), p.as_slice(), start, eof)
}

// ---------------------------------------------------------------------------
// Laws
// ---------------------------------------------------------------------------
/// How many comparisons are stricter.
pub open spec fn rank(strictness: Strictness) -> int {
    match strictness {
        Strictness::Exact => 0,
        Strictness::TrimEnd => 1,
        Strictness::Trim => 2,
        Strictness::Punctuation => 3,
        Strictness::Tokens => 3,
    }
}

proof fn lemma_trim_after_trim_end(s: Seq<char>)
    ensures
        trimmed(trimmed_end(s)) == trimmed(s),
{
    let e = trimmed_end(s);
    lemma_trimmed_end(s);
    lemma_trimmed_start(s);
    lemma_trimmed_start(e);
    let a = skip_white(s, 0);
    if e.len() == 0 {
        lemma_trimmed_end(trimmed_start(s));
        lemma_trimmed_end(trimmed_start(e));
        assert(trimmed(e) =~= trimmed(s)) by {
            if trimmed_start(s).len() > 0 {
                assert(!is_white(s[a]));
            }
        }
    } else {
        assert(!is_white(e.last()));
        assert(e.last() == s[e.len() - 1]);
        lemma_skip_prefix(s, e.len() as int, 0);
        assert(a < e.len());
        let t = trimmed_start(s);
        let te = trimmed_start(e);
        assert(te =~= t.take(te.len() as int));
        assert(te.last() == e.last());
        lemma_trimmed_end(te);
        assert(trimmed(e) == te);
        lemma_drop_to(t, te.len() as int, t.len() as int);
        assert(trimmed(s) =~= te);
    }
}

/// White space is skipped up to the same place in a text and in a part of it that
/// ends with something else.
proof fn lemma_skip_prefix(s: Seq<char>, n: int, i: int)
    requires
        0 <= i < n <= s.len(),
        !is_white(s[n - 1]),
    ensures
        skip_white(s.take(n), i) == skip_white(s, i),
        skip_white(s, i) < n,
    decreases n - i,
{
    assert(s.take(n)[i] == s[i]);
    if is_white(s[i]) {
        lemma_skip_prefix(s, n, i + 1);
    }
}

proof fn lemma_drop_to(s: Seq<char>, n: int, m: int)
    requires
        0 < n <= m <= s.len(),
        !is_white(s[n - 1]),
        forall|k: int| n <= k < m ==> is_white(s[k]),
    ensures
        crate::text::drop_white(s, m) == n,
    decreases m,
{
    if m > n {
        lemma_drop_to(s, n, m - 1);
    }
}

/// Trimming a text does not change its words.
proof fn lemma_words_of_trimmed(s: Seq<char>)
    ensures
        words_from(trimmed(s), 0) == words_from(s, 0),
{
    lemma_trimmed_start(s);
    let a = skip_white(s, 0);
    let t = trimmed_start(s);
    lemma_skip_white(s, 0);
    assert(words_from(s, 0) == words_from(s, a)) by {
        if a < s.len() {
            assert(skip_white(s, a) == a);
        }
    }
    lemma_words_shift(s, a, 0);
    lemma_trimmed_end(t);
    lemma_words_prefix(t, trimmed_end(t).len() as int, 0);
}

proof fn lemma_words_shift(s: Seq<char>, a: int, i: int)
    requires
        0 <= a <= s.len(),
        0 <= i <= s.len() - a,
    ensures
        words_from(s.skip(a), i) == words_from(s, a + i),
    decreases s.len() - a - i,
{
    let t = s.skip(a);
    lemma_skip_after(s, a, i);
    let x = skip_white(t, i);
    lemma_skip_white(t, i);
    if x < t.len() {
        lemma_word_end_after(s, a, x);
        lemma_word_end(t, x);
        let y = word_end(t, x);
        assert(t.subrange(x, y) =~= s.subrange(a + x, a + y));
        lemma_words_shift(s, a, y);
    }
}

proof fn lemma_skip_after(s: Seq<char>, a: int, i: int)
    requires
        0 <= a <= s.len(),
        0 <= i <= s.len() - a,
    ensures
        skip_white(s, a + i) == a + skip_white(s.skip(a), i),
    decreases s.len() - a - i,
{
    if i < s.len() - a {
        assert(s.skip(a)[i] == s[a + i]);
        if is_white(s[a + i]) {
            lemma_skip_after(s, a, i + 1);
        }
    }
}

proof fn lemma_word_end_after(s: Seq<char>, a: int, i: int)
    requires
        0 <= a <= s.len(),
        0 <= i <= s.len() - a,
    ensures
        word_end(s, a + i) == a + word_end(s.skip(a), i),
    decreases s.len() - a - i,
{
    if i < s.len() - a {
        assert(s.skip(a)[i] == s[a + i]);
        if !is_white(s[a + i]) {
            lemma_word_end_after(s, a, i + 1);
        }
    }
}

/// White space at the end of a text holds no words.
proof fn lemma_words_prefix(s: Seq<char>, n: int, i: int)
    requires
        0 <= i <= n <= s.len(),
        n > 0 ==> !is_white(s[n - 1]),
        forall|k: int| n <= k < s.len() ==> is_white(s[k]),
    ensures
        words_from(s.take(n), i) == words_from(s, i),
    decreases n - i,
{
    let t = s.take(n);
    if i == n {
        lemma_skip_white(s, i);
        assert(skip_white(s, i) >= s.len());
    } else {
        lemma_skip_prefix(s, n, i);
        lemma_skip_white(s, i);
        let x = skip_white(s, i);
        lemma_word_end_prefix(s, n, x);
        let y = word_end(t, x);
        lemma_word_end(t, x);
        assert(t.subrange(x, y) =~= s.subrange(x, y));
        lemma_words_prefix(s, n, y);
    }
}

proof fn lemma_word_end_prefix(s: Seq<char>, n: int, i: int)
    requires
        0 <= i <= n <= s.len(),
        forall|k: int| n <= k < s.len() ==> is_white(s[k]),
    ensures
        word_end(s.take(n), i) == word_end(s, i),
    decreases n - i,
{
    if i < n {
        assert(s.take(n)[i] == s[i]);
        if !is_white(s[i]) {
            lemma_word_end_prefix(s, n, i + 1);
        }
    }
}

proof fn lemma_shapes_agree(a: Seq<char>, b: Seq<char>, strict: Strictness, loose: Strictness)
    requires
        rank(strict) < rank(loose),
        shape(strict, a) == shape(strict, b),
    ensures
        shape(loose, a) == shape(loose, b),
{
    if strict == Strictness::TrimEnd {
        lemma_trim_after_trim_end(a);
        lemma_trim_after_trim_end(b);
    }
    lemma_words_of_trimmed(a);
    lemma_words_of_trimmed(b);
}

/// What matches under a strict comparison matches under every looser one.
pub proof fn law_looser_comparison_matches_too(
    lines: Seq<Seq<char>>,
    pattern: Seq<Seq<char>>,
    i: int,
    strict: Strictness,
    loose: Strictness,
)
    requires
        rank(strict) < rank(loose),
        matches_block(strict, lines, pattern, i),
    ensures
        matches_block(loose, lines, pattern, i),
{
    assert forall|j: int| 0 <= j < pattern.len() implies shape(loose, #[trigger] lines[i + j])
        == shape(loose, pattern[j]) by {
        lemma_shapes_agree(lines[i + j], pattern[j], strict, loose);
    }
}

proof fn lemma_first_match(
    strictness: Strictness,
    lines: Seq<Seq<char>>,
    pattern: Seq<Seq<char>>,
    i: int,
)
    requires
        0 <= i,
    ensures
        match first_match(strictness, lines, pattern, i) {
            Some(k) => i <= k && matches_block(strictness, lines, pattern, k) && forall|m: int|
                i <= m < k ==> !matches_block(strictness, lines, pattern, m),
            None => forall|m: int| i <= m ==> !matches_block(strictness, lines, pattern, m),
        },
    decreases lines.len() + 1 - i,
{
    if i + pattern.len() <= lines.len() && !matches_block(strictness, lines, pattern, i) {
        lemma_first_match(strictness, lines, pattern, i + 1);
    }
}

proof fn lemma_first_solid_match(lines: Seq<Seq<char>>, solid: Seq<Seq<char>>, base: int, i: int)
    requires
        0 <= i,
    ensures
        first_solid_match(lines, solid, base, i) matches Some(k) ==> i <= k < lines.len(),
    decreases lines.len() - i,
{
    if i < lines.len() && !solid_match(lines, i, solid, base) {
        lemma_first_solid_match(lines, solid, base, i + 1);
    }
}

proof fn lemma_solid_start(
    lines: Seq<Seq<char>>,
    start: int,
    i: int,
    initial: int,
    solid: Seq<Seq<char>>,
)
    requires
        start <= initial,
    ensures
        start <= solid_start(lines, start, i, initial, solid),
    decreases i + 1 - start,
{
    if i >= start {
        lemma_solid_start(lines, start, i - 1, initial, solid);
    }
}

proof fn lemma_seek_from_start(lines: Seq<Seq<char>>, pattern: Seq<Seq<char>>, start: int)
    requires
        0 <= start,
    ensures
        seek_from(lines, pattern, start) matches Some(i) ==> start <= i,
{
    lemma_first_match(Strictness::Exact, lines, pattern, start);
    lemma_first_match(Strictness::TrimEnd, lines, pattern, start);
    lemma_first_match(Strictness::Trim, lines, pattern, start);
    lemma_first_match(Strictness::Punctuation, lines, pattern, start);
    lemma_first_match(Strictness::Tokens, lines, pattern, start);
    let solid = solid_lines(pattern);
    if solid.len() > 0 {
        let base = columns(solid[0], TAB_WIDTH as nat) as int;
        lemma_first_solid_match(lines, solid, base, start);
        match first_solid_match(lines, solid, base, start) {
            Some(i) => {
                lemma_solid_start(lines, start, i, i, solid);
            },
            None => {},
        }
    }
}

/// A match starts at or after `start`.
pub proof fn law_match_starts_at_or_after_start(
    lines: Seq<Seq<char>>,
    pattern: Seq<Seq<char>>,
    start: int,
    eof: bool,
)
    requires
        0 <= start,
    ensures
        seek(lines, pattern, start, eof) matches Some(i) ==> start <= i,
{
    lemma_seek_from_start(lines, pattern, start);
    lemma_seek_from_start(lines, pattern, end_start(lines, pattern, start));
}

/// Where the pattern stands as it is at or after `start`, the first such place is
/// found, whatever else would match under a looser comparison.
pub proof fn law_exact_match_comes_first(
    lines: Seq<Seq<char>>,
    pattern: Seq<Seq<char>>,
    start: int,
    i: int,
)
    requires
        pattern.len() > 0,
        0 <= start <= i,
        matches_block(Strictness::Exact, lines, pattern, i),
    ensures
        ({
            let found = seek(lines, pattern, start, false);
            &&& found matches Some(k) && start <= k <= i && lines.subrange(k, k + pattern.len())
                == pattern
        }),
{
    lemma_first_match(Strictness::Exact, lines, pattern, start);
    let k = first_match(Strictness::Exact, lines, pattern, start).unwrap();
    assert(lines.subrange(k, k + pattern.len()) =~= pattern) by {
        assert forall|j: int| 0 <= j < pattern.len() implies lines.subrange(
            k,
            k + pattern.len(),
        )[j] == pattern[j] by {
            assert(lines[k + j] == pattern[j]);
        }
    }
}

/// With `eof`, a pattern that ends the lines at or after `start` is found there.
pub proof fn law_end_of_file_is_tried_first(lines: Seq<Seq<char>>, pattern: Seq<Seq<char>>, start: int)
    requires
        0 < pattern.len() <= lines.len(),
        start <= lines.len() - pattern.len(),
        lines.skip(lines.len() - pattern.len()) == pattern,
    ensures
        seek(lines, pattern, start, true) == Some(lines.len() - pattern.len()),
{
    let i = lines.len() - pattern.len();
    assert forall|j: int| 0 <= j < pattern.len() implies #[trigger] lines[i + j] == pattern[j] by {
        assert(lines.skip(i)[j] == lines[i + j]);
    }
    assert(matches_block(Strictness::Exact, lines, pattern, i));
}

/// A pattern without lines matches where the search starts, and one that is longer
/// than the file does not match.
pub proof fn law_patterns_that_need_no_search(
    lines: Seq<Seq<char>>,
    pattern: Seq<Seq<char>>,
    start: int,
    eof: bool,
)
    ensures
        pattern.len() == 0 ==> seek(lines, pattern, start, eof) == Some(start),
        pattern.len() > lines.len() ==> seek(lines, pattern, start, eof) is None,
{
}

// ---------------------------------------------------------------------------
// What is found
// ---------------------------------------------------------------------------
/// The lines of a list that are not blank, in their order.
pub open spec fn solids(lines: Seq<Seq<char>>) -> Seq<Seq<char>> {
    lines.filter(|line: Seq<char>| !is_blank_text(line))
}

/// The lines are the same but for white space around them and between their words, or
/// for typographic punctuation.
pub open spec fn alike(a: Seq<char>, b: Seq<char>) -> bool {
    plain_text(trimmed(a)) == plain_text(trimmed(b)) || words_of(a) == words_of(b)
}

/// The lines from `m` on that are not blank start with all lines of the pattern that
/// are not blank.
pub open spec fn follows(lines: Seq<Seq<char>>, pattern: Seq<Seq<char>>, m: int) -> bool {
    let there = solids(lines.skip(m));
    let wanted = solids(pattern);
    &&& 0 <= m <= lines.len()
    &&& wanted.len() <= there.len()
    &&& forall|k: int| 0 <= k < wanted.len() ==> alike(#[trigger] there[k], wanted[k])
}

/// The same where the lines differ in nothing but the white space around them, and none
/// is indented less than the first line of the pattern that is not blank.
pub open spec fn follows_closely(lines: Seq<Seq<char>>, pattern: Seq<Seq<char>>, m: int) -> bool {
    let there = solids(lines.skip(m));
    let wanted = solids(pattern);
    &&& 0 <= m <= lines.len()
    &&& wanted.len() <= there.len()
    &&& forall|k: int|
        0 <= k < wanted.len() ==> trimmed(#[trigger] there[k]) == trimmed(wanted[k]) && columns(
            there[k],
            TAB_WIDTH as nat,
        ) >= columns(wanted[0], TAB_WIDTH as nat)
}

/// The lines from `m` on are those of the pattern, blank ones included, each under the
/// given comparison.
pub open spec fn stands_at(
    strictness: Strictness,
    lines: Seq<Seq<char>>,
    pattern: Seq<Seq<char>>,
    m: int,
) -> bool {
    &&& 0 <= m && m + pattern.len() <= lines.len()
    &&& forall|j: int|
        0 <= j < pattern.len() ==> match strictness {
            Strictness::Exact => #[trigger] lines[m + j] == pattern[j],
            Strictness::TrimEnd => trimmed_end(lines[m + j]) == trimmed_end(pattern[j]),
            Strictness::Trim => trimmed(lines[m + j]) == trimmed(pattern[j]),
            Strictness::Punctuation => plain_text(trimmed(lines[m + j])) == plain_text(
                trimmed(pattern[j]),
            ),
            Strictness::Tokens => words_of(lines[m + j]) == words_of(pattern[j]),
        }
}

/// The comparisons, the strictest first.
pub open spec fn turn(strictness: Strictness) -> int {
    match strictness {
        Strictness::Exact => 0,
        Strictness::TrimEnd => 1,
        Strictness::Trim => 2,
        Strictness::Punctuation => 3,
        Strictness::Tokens => 4,
    }
}

proof fn lemma_stands_at(
    strictness: Strictness,
    lines: Seq<Seq<char>>,
    pattern: Seq<Seq<char>>,
    m: int,
)
    ensures
        stands_at(strictness, lines, pattern, m) == matches_block(strictness, lines, pattern, m),
{
    if stands_at(strictness, lines, pattern, m) {
        assert forall|j: int| 0 <= j < pattern.len() implies shape(
            strictness,
            #[trigger] lines[m + j],
        ) == shape(strictness, pattern[j]) by {}
    }
    if matches_block(strictness, lines, pattern, m) {
        assert forall|j: int| 0 <= j < pattern.len() implies match strictness {
            Strictness::Exact => #[trigger] lines[m + j] == pattern[j],
            Strictness::TrimEnd => trimmed_end(lines[m + j]) == trimmed_end(pattern[j]),
            Strictness::Trim => trimmed(lines[m + j]) == trimmed(pattern[j]),
            Strictness::Punctuation => plain_text(trimmed(lines[m + j])) == plain_text(
                trimmed(pattern[j]),
            ),
            Strictness::Tokens => words_of(lines[m + j]) == words_of(pattern[j]),
        } by {
            assert(shape(strictness, lines[m + j]) == shape(strictness, pattern[j]));
        }
    }
}

/// The strictest comparison under which the pattern stands anywhere at or after `start`
/// decides, and the first such place is found.
pub proof fn law_strictest_comparison_decides(
    strictness: Strictness,
    lines: Seq<Seq<char>>,
    pattern: Seq<Seq<char>>,
    start: int,
    m: int,
)
    requires
        pattern.len() > 0,
        0 <= start <= m,
        stands_at(strictness, lines, pattern, m),
        forall|k: int| start <= k < m ==> !stands_at(strictness, lines, pattern, k),
        forall|stricter: Strictness, k: int|
            turn(stricter) < turn(strictness) && start <= k ==> !#[trigger] stands_at(
                stricter,
                lines,
                pattern,
                k,
            ),
    ensures
        seek(lines, pattern, start, false) == Some(m),
{
    lemma_first_place(Strictness::Exact, lines, pattern, start);
    lemma_first_place(Strictness::TrimEnd, lines, pattern, start);
    lemma_first_place(Strictness::Trim, lines, pattern, start);
    lemma_first_place(Strictness::Punctuation, lines, pattern, start);
    lemma_first_place(Strictness::Tokens, lines, pattern, start);
}

proof fn lemma_first_place(
    strictness: Strictness,
    lines: Seq<Seq<char>>,
    pattern: Seq<Seq<char>>,
    start: int,
)
    requires
        0 <= start,
    ensures
        match first_match(strictness, lines, pattern, start) {
            Some(k) => start <= k && stands_at(strictness, lines, pattern, k) && forall|m: int|
                start <= m < k ==> !stands_at(strictness, lines, pattern, m),
            None => forall|m: int| start <= m ==> !stands_at(strictness, lines, pattern, m),
        },
{
    lemma_first_match(strictness, lines, pattern, start);
    assert forall|m: int| stands_at(strictness, lines, pattern, m) == matches_block(
        strictness,
        lines,
        pattern,
        m,
    ) by {
        lemma_stands_at(strictness, lines, pattern, m);
    }
}

// Lists of solid lines.
proof fn lemma_solids_add(a: Seq<Seq<char>>, b: Seq<Seq<char>>)
    ensures
        solids(a + b) == solids(a) + solids(b),
{
    Seq::filter_distributes_over_add(a, b, |line: Seq<char>| !is_blank_text(line));
}

proof fn lemma_solids_push(a: Seq<Seq<char>>, line: Seq<char>)
    ensures
        solids(a.push(line)) == if is_blank_text(line) {
            solids(a)
        } else {
            solids(a).push(line)
        },
{
    reveal(Seq::filter);
    assert(a.push(line).drop_last() =~= a);
}

proof fn lemma_solids_front(line: Seq<char>, rest: Seq<Seq<char>>)
    ensures
        solids(seq![line] + rest) == if is_blank_text(line) {
            solids(rest)
        } else {
            seq![line] + solids(rest)
        },
{
    let none = Seq::<Seq<char>>::empty();
    lemma_solids_add(seq![line], rest);
    assert(none.push(line) =~= seq![line]);
    lemma_solids_push(none, line);
    assert(solids(none) =~= none) by {
        reveal(Seq::filter);
    }
    assert(none + solids(rest) =~= solids(rest));
    assert(none.push(line) + solids(rest) =~= seq![line] + solids(rest));
}

proof fn lemma_solids_from(lines: Seq<Seq<char>>, i: int)
    requires
        0 <= i < lines.len(),
    ensures
        solids(lines.skip(i)) == if is_blank_text(lines[i]) {
            solids(lines.skip(i + 1))
        } else {
            seq![lines[i]] + solids(lines.skip(i + 1))
        },
{
    assert(lines.skip(i) =~= seq![lines[i]] + lines.skip(i + 1));
    lemma_solids_front(lines[i], lines.skip(i + 1));
}

proof fn lemma_solid_lines(lines: Seq<Seq<char>>)
    ensures
        solid_lines(lines) == solids(lines),
    decreases lines.len(),
{
    if lines.len() == 0 {
        reveal(Seq::filter);
        assert(solids(lines) =~= Seq::<Seq<char>>::empty());
    } else {
        lemma_solid_lines(lines.drop_last());
        lemma_solids_push(lines.drop_last(), lines.last());
        assert(lines.drop_last().push(lines.last()) =~= lines);
    }
}

proof fn lemma_no_solids_at_end(lines: Seq<Seq<char>>)
    ensures
        solids(lines.skip(lines.len() as int)).len() == 0,
{
    reveal(Seq::filter);
}

proof fn lemma_skip_blank(lines: Seq<Seq<char>>, i: int)
    requires
        0 <= i <= lines.len(),
    ensures
        i <= skip_blank(lines, i) <= lines.len(),
        solids(lines.skip(i)) == solids(lines.skip(skip_blank(lines, i))),
        skip_blank(lines, i) < lines.len() ==> !is_blank_text(lines[skip_blank(lines, i)]),
    decreases lines.len() - i,
{
    if i < lines.len() && is_blank_text(lines[i]) {
        lemma_solids_from(lines, i);
        lemma_skip_blank(lines, i + 1);
    }
}

/// The first lines of `there` are those of `wanted` but for white space around them, and
/// indented by `base` columns at least.
spec fn starts_closely(there: Seq<Seq<char>>, wanted: Seq<Seq<char>>, base: int) -> bool {
    &&& wanted.len() <= there.len()
    &&& forall|k: int|
        0 <= k < wanted.len() ==> trimmed(#[trigger] there[k]) == trimmed(wanted[k]) && columns(
            there[k],
            TAB_WIDTH as nat,
        ) >= base
}

proof fn lemma_solid_match(lines: Seq<Seq<char>>, i: int, solid: Seq<Seq<char>>, base: int)
    requires
        0 <= i <= lines.len(),
    ensures
        solid_match(lines, i, solid, base) == starts_closely(solids(lines.skip(i)), solid, base),
    decreases solid.len(),
{
    let there = solids(lines.skip(i));
    if solid.len() > 0 {
        let k = skip_blank(lines, i);
        lemma_skip_blank(lines, i);
        if k < lines.len() {
            let rest = solids(lines.skip(k + 1));
            lemma_solids_from(lines, k);
            assert(there == seq![lines[k]] + rest);
            lemma_solid_match(lines, k + 1, solid.skip(1), base);
            if solid_match(lines, i, solid, base) {
                assert forall|n: int| 0 <= n < solid.len() implies trimmed(#[trigger] there[n])
                    == trimmed(solid[n]) && columns(there[n], TAB_WIDTH as nat) >= base by {
                    if n > 0 {
                        assert(there[n] == rest[n - 1]);
                        assert(solid[n] == solid.skip(1)[n - 1]);
                    }
                }
            }
            if starts_closely(there, solid, base) {
                assert(there[0] == lines[k]);
                assert forall|n: int| 0 <= n < solid.skip(1).len() implies trimmed(
                    #[trigger] rest[n],
                ) == trimmed(solid.skip(1)[n]) && columns(rest[n], TAB_WIDTH as nat) >= base by {
                    assert(there[n + 1] == rest[n]);
                    assert(solid[n + 1] == solid.skip(1)[n]);
                }
            }
        } else {
            lemma_no_solids_at_end(lines);
        }
    }
}

proof fn lemma_first_solid_match_exact(
    lines: Seq<Seq<char>>,
    solid: Seq<Seq<char>>,
    base: int,
    i: int,
)
    requires
        0 <= i,
    ensures
        match first_solid_match(lines, solid, base, i) {
            Some(k) => i <= k < lines.len() && solid_match(lines, k, solid, base) && forall|m: int|
                i <= m < k ==> !#[trigger] solid_match(lines, m, solid, base),
            None => forall|m: int|
                i <= m < lines.len() ==> !#[trigger] solid_match(lines, m, solid, base),
        },
    decreases lines.len() - i,
{
    if i < lines.len() && !solid_match(lines, i, solid, base) {
        lemma_first_solid_match_exact(lines, solid, base, i + 1);
    }
}

/// The line is one of the pattern but for the white space around it.
pub open spec fn is_of_pattern(line: Seq<char>, pattern: Seq<Seq<char>>) -> bool {
    exists|k: int| 0 <= k < pattern.len() && trimmed(line) == trimmed(#[trigger] pattern[k])
}

proof fn lemma_leads_to(
    lines: Seq<Seq<char>>,
    j: int,
    end: int,
    solid: Seq<Seq<char>>,
    k: int,
    n: int,
)
    requires
        leads_to(lines, j, end, solid, k),
        j <= n <= end,
    ensures
        is_blank_text(lines[n]) || is_of_pattern(lines[n], solid),
    decreases n - j,
{
    if j < n {
        if 0 <= k < solid.len() && trimmed(lines[j]) == trimmed(solid[k]) {
            lemma_leads_to(lines, j + 1, end, solid, k + 1, n);
        } else {
            lemma_leads_to(lines, j + 1, end, solid, k, n);
        }
    }
}

proof fn lemma_solid_start_leads(
    lines: Seq<Seq<char>>,
    start: int,
    i: int,
    initial: int,
    solid: Seq<Seq<char>>,
)
    requires
        i <= initial,
        solid.len() > 0,
    ensures
        ({
            let s = solid_start(lines, start, i, initial, solid);
            s == initial || (s <= i && trimmed(lines[s]) == trimmed(solid[0]) && leads_to(
                lines,
                s,
                initial,
                solid,
                0,
            ))
        }),
    decreases i + 1 - start,
{
    if i >= start && !(trimmed(lines[i]) == trimmed(solid[0]) && leads_to(
        lines,
        i,
        initial,
        solid,
        0,
    )) {
        lemma_solid_start_leads(lines, start, i - 1, initial, solid);
    }
}

proof fn lemma_solids_are_of_list(lines: Seq<Seq<char>>, k: int)
    requires
        0 <= k < solids(lines).len(),
    ensures
        exists|j: int| 0 <= j < lines.len() && solids(lines)[k] == #[trigger] lines[j],
        !is_blank_text(solids(lines)[k]),
    decreases lines.len(),
{
    reveal(Seq::filter);
    if lines.len() > 0 {
        let rest = lines.drop_last();
        lemma_solids_push(rest, lines.last());
        assert(rest.push(lines.last()) =~= lines);
        if k < solids(rest).len() {
            lemma_solids_are_of_list(rest, k);
            let j = choose|j: int| 0 <= j < rest.len() && solids(rest)[k] == #[trigger] rest[j];
            assert(lines[j] == rest[j]);
        } else {
            assert(lines[lines.len() - 1] == lines.last());
        }
    }
}

proof fn lemma_words_blank(s: Seq<char>)
    ensures
        is_blank_text(s) == (words_of(s).len() == 0),
{
    lemma_blank(s);
    lemma_skip_white(s, 0);
    let a = skip_white(s, 0);
    if a < s.len() {
        lemma_word_end(s, a);
        let b = word_end(s, a);
        assert(words_from(s, 0) == seq![' '] + s.subrange(a, b) + words_from(s, b));
    }
}

proof fn lemma_same_shape(strictness: Strictness, a: Seq<char>, b: Seq<char>)
    requires
        shape(strictness, a) == shape(strictness, b),
    ensures
        alike(a, b),
        is_blank_text(a) == is_blank_text(b),
{
    if turn(strictness) < 3 {
        lemma_shapes_agree(a, b, strictness, Strictness::Punctuation);
    }
    lemma_words_blank(a);
    lemma_words_blank(b);
    if turn(strictness) <= 3 {
        assert(plain_text(trimmed(a)).len() == trimmed(a).len());
        assert(plain_text(trimmed(b)).len() == trimmed(b).len());
    }
}

proof fn lemma_block_solids(
    strictness: Strictness,
    block: Seq<Seq<char>>,
    pattern: Seq<Seq<char>>,
)
    requires
        block.len() == pattern.len(),
        forall|j: int|
            0 <= j < pattern.len() ==> shape(strictness, #[trigger] block[j]) == shape(
                strictness,
                pattern[j],
            ),
    ensures
        solids(block).len() == solids(pattern).len(),
        forall|k: int|
            0 <= k < solids(pattern).len() ==> alike(
                #[trigger] solids(block)[k],
                solids(pattern)[k],
            ),
    decreases block.len(),
{
    if block.len() == 0 {
        reveal(Seq::filter);
    } else {
        let a = block.drop_last();
        let b = pattern.drop_last();
        assert forall|j: int| 0 <= j < b.len() implies shape(strictness, #[trigger] a[j]) == shape(
            strictness,
            b[j],
        ) by {
            assert(a[j] == block[j]);
        }
        lemma_block_solids(strictness, a, b);
        assert(block.last() == block[block.len() - 1]);
        lemma_same_shape(strictness, block.last(), pattern.last());
        lemma_solids_push(a, block.last());
        lemma_solids_push(b, pattern.last());
        assert(a.push(block.last()) =~= block);
        assert(b.push(pattern.last()) =~= pattern);
    }
}

proof fn lemma_block_follows(
    strictness: Strictness,
    lines: Seq<Seq<char>>,
    pattern: Seq<Seq<char>>,
    i: int,
)
    requires
        matches_block(strictness, lines, pattern, i),
    ensures
        follows(lines, pattern, i),
{
    let n = pattern.len() as int;
    let block = lines.subrange(i, i + n);
    assert(lines.skip(i) =~= block + lines.skip(i + n));
    lemma_solids_add(block, lines.skip(i + n));
    assert forall|j: int| 0 <= j < n implies shape(strictness, #[trigger] block[j]) == shape(
        strictness,
        pattern[j],
    ) by {
        assert(block[j] == lines[i + j]);
    }
    lemma_block_solids(strictness, block, pattern);
    let there = solids(lines.skip(i));
    let wanted = solids(pattern);
    assert forall|k: int| 0 <= k < wanted.len() implies alike(#[trigger] there[k], wanted[k]) by {
        assert(there[k] == solids(block)[k]);
    }
}

/// The pattern is found at line `i`: it stands there as a block of lines under one of
/// the comparisons; or its solid lines follow closely from some line `m` on, and what
/// stands from `i` up to `m` is blank or of the pattern.
pub open spec fn is_found_at(lines: Seq<Seq<char>>, pattern: Seq<Seq<char>>, i: int) -> bool {
    ||| exists|strictness: Strictness| #[trigger] stands_at(strictness, lines, pattern, i)
    ||| exists|m: int|
        {
            &&& 0 <= i <= m < lines.len()
            &&& #[trigger] follows_closely(lines, pattern, m)
            &&& forall|j: int|
                i <= j < m ==> is_blank_text(#[trigger] lines[j]) || is_of_pattern(lines[j], pattern)
            &&& i < m ==> is_of_pattern(lines[i], pattern) && trimmed(lines[i]) == trimmed(
                solids(pattern)[0],
            )
        }
}

proof fn lemma_seek_from_finds(lines: Seq<Seq<char>>, pattern: Seq<Seq<char>>, start: int)
    requires
        0 <= start,
        solids(pattern).len() > 0,
    ensures
        seek_from(lines, pattern, start) matches Some(i) ==> is_found_at(lines, pattern, i),
        seek_from(lines, pattern, start) is None ==> {
            &&& forall|strictness: Strictness, m: int|
                start <= m ==> !#[trigger] stands_at(strictness, lines, pattern, m)
            &&& forall|m: int|
                start <= m < lines.len() ==> !#[trigger] follows_closely(lines, pattern, m)
        },
{
    lemma_first_place(Strictness::Exact, lines, pattern, start);
    lemma_first_place(Strictness::TrimEnd, lines, pattern, start);
    lemma_first_place(Strictness::Trim, lines, pattern, start);
    lemma_first_place(Strictness::Punctuation, lines, pattern, start);
    lemma_first_place(Strictness::Tokens, lines, pattern, start);
    let solid = solid_lines(pattern);
    lemma_solid_lines(pattern);
    let base = columns(solid[0], TAB_WIDTH as nat) as int;
    lemma_first_solid_match_exact(lines, solid, base, start);
    assert forall|m: int| 0 <= m < lines.len() implies #[trigger] follows_closely(
        lines,
        pattern,
        m,
    ) == solid_match(lines, m, solid, base) by {
        lemma_solid_match(lines, m, solid, base);
    }
    if blank_tolerant_match(lines, pattern, start) is Some {
        let m = first_solid_match(lines, solid, base, start)->0;
        let s = solid_start(lines, start, m, m, solid);
        lemma_solid_start_leads(lines, start, m, m, solid);
        lemma_solid_start(lines, start, m, m, solid);
        assert(follows_closely(lines, pattern, m));
        assert forall|j: int| s <= j < m implies is_blank_text(#[trigger] lines[j]) || is_of_pattern(
            lines[j],
            pattern,
        ) by {
            lemma_leads_to(lines, s, m, solid, 0, j);
            if is_of_pattern(lines[j], solid) {
                lemma_of_solids(lines[j], pattern);
            }
        }
        if s < m {
            assert(is_of_pattern(lines[s], solid)) by {
                assert(trimmed(lines[s]) == trimmed(solid[0]));
            }
            lemma_of_solids(lines[s], pattern);
        }
        assert(is_found_at(lines, pattern, s));
    }
}

proof fn lemma_of_solids(line: Seq<char>, pattern: Seq<Seq<char>>)
    requires
        is_of_pattern(line, solids(pattern)),
    ensures
        is_of_pattern(line, pattern),
{
    let solid = solids(pattern);
    let k = choose|k: int| 0 <= k < solid.len() && trimmed(line) == trimmed(#[trigger] solid[k]);
    lemma_solids_are_of_list(pattern, k);
    let j = choose|j: int| 0 <= j < pattern.len() && solid[k] == #[trigger] pattern[j];
    assert(trimmed(line) == trimmed(pattern[j]));
}

/// Whatever is found is the pattern: all of its lines stand there, one behind the other,
/// but for the white space and punctuation that the comparisons leave out of account.
pub proof fn law_search_finds_the_pattern(
    lines: Seq<Seq<char>>,
    pattern: Seq<Seq<char>>,
    start: int,
    eof: bool,
)
    requires
        0 <= start,
        solids(pattern).len() > 0,
    ensures
        seek(lines, pattern, start, eof) matches Some(i) ==> start <= i && is_found_at(
            lines,
            pattern,
            i,
        ),
{
    law_match_starts_at_or_after_start(lines, pattern, start, eof);
    lemma_seek_from_finds(lines, pattern, start);
    lemma_seek_from_finds(lines, pattern, end_start(lines, pattern, start));
    if pattern.len() == 0 {
        reveal(Seq::filter);
    }
}

/// Where a pattern is found, the lines of the file that are not blank go on with all
/// lines of the pattern that are not blank: from the place itself, or from a later one
/// before which nothing stands but blank lines and lines of the pattern.
pub proof fn law_all_lines_of_the_pattern_follow(
    lines: Seq<Seq<char>>,
    pattern: Seq<Seq<char>>,
    start: int,
    eof: bool,
)
    requires
        0 <= start,
        solids(pattern).len() > 0,
    ensures
        seek(lines, pattern, start, eof) matches Some(i) ==> exists|m: int|
            i <= m && #[trigger] follows(lines, pattern, m) && forall|j: int|
                i <= j < m ==> is_blank_text(#[trigger] lines[j]) || is_of_pattern(
                    lines[j],
                    pattern,
                ),
{
    law_search_finds_the_pattern(lines, pattern, start, eof);
    if let Some(i) = seek(lines, pattern, start, eof) {
        if exists|strictness: Strictness| #[trigger] stands_at(strictness, lines, pattern, i) {
            let strictness = choose|strictness: Strictness| #[trigger]
                stands_at(strictness, lines, pattern, i);
            lemma_stands_at(strictness, lines, pattern, i);
            lemma_block_follows(strictness, lines, pattern, i);
            assert(follows(lines, pattern, i));
        } else {
            let m = choose|m: int|
                {
                    &&& 0 <= i <= m < lines.len()
                    &&& #[trigger] follows_closely(lines, pattern, m)
                    &&& forall|j: int|
                        i <= j < m ==> is_blank_text(#[trigger] lines[j]) || is_of_pattern(
                            lines[j],
                            pattern,
                        )
                    &&& i < m ==> is_of_pattern(lines[i], pattern) && trimmed(lines[i]) == trimmed(
                        solids(pattern)[0],
                    )
                };
            assert(follows(lines, pattern, m));
        }
    }
}

/// A pattern that stands in the file at or after `start` is found: as a block of lines
/// under one of the comparisons, or with blank lines left out.
pub proof fn law_pattern_that_stands_is_found(
    lines: Seq<Seq<char>>,
    pattern: Seq<Seq<char>>,
    start: int,
    eof: bool,
    strictness: Strictness,
    m: int,
)
    requires
        0 <= start <= m,
        solids(pattern).len() > 0,
        pattern.len() <= lines.len(),
        stands_at(strictness, lines, pattern, m) || (m < lines.len() && follows_closely(
            lines,
            pattern,
            m,
        )),
    ensures
        seek(lines, pattern, start, eof) is Some,
{
    lemma_seek_from_finds(lines, pattern, start);
}

proof fn lemma_solid_text_add(a: Seq<char>, b: Seq<char>)
    ensures
        solid_text(a + b) == solid_text(a) + solid_text(b),
{
    Seq::filter_distributes_over_add(a, b, |c: char| !is_white(c));
}

/// The characters of a text that are not white space.
pub open spec fn solid_text(s: Seq<char>) -> Seq<char> {
    s.filter(|c: char| !is_white(c))
}

proof fn lemma_white_text(s: Seq<char>)
    requires
        forall|k: int| 0 <= k < s.len() ==> is_white(#[trigger] s[k]),
    ensures
        solid_text(s).len() == 0,
    decreases s.len(),
{
    reveal(Seq::filter);
    if s.len() > 0 {
        lemma_white_text(s.drop_last());
    }
}

proof fn lemma_words_solid(s: Seq<char>, i: int)
    requires
        0 <= i <= s.len(),
    ensures
        solid_text(words_from(s, i)) == solid_text(s.skip(i)),
    decreases s.len() - i,
{
    let a = skip_white(s, i);
    lemma_skip_white(s, i);
    let gap = s.subrange(i, a);
    lemma_white_text(gap);
    assert(s.skip(i) =~= gap + s.skip(a));
    lemma_solid_text_add(gap, s.skip(a));
    assert(solid_text(gap) + solid_text(s.skip(a)) =~= solid_text(s.skip(a)));
    if a < s.len() {
        lemma_word_end(s, a);
        let b = word_end(s, a);
        let word = s.subrange(a, b);
        lemma_words_solid(s, b);
        lemma_white_text(seq![' ']);
        lemma_solid_text_add(seq![' '], word);
        lemma_solid_text_add(seq![' '] + word, words_from(s, b));
        assert(s.skip(a) =~= word + s.skip(b));
        lemma_solid_text_add(word, s.skip(b));
        assert(solid_text(seq![' ']) + solid_text(word) =~= solid_text(word));
    } else {
        lemma_white_text(words_from(s, i));
        lemma_white_text(s.skip(a));
        assert(solid_text(words_from(s, i)) =~= solid_text(s.skip(i)));
    }
}

/// Lines that are alike hold the same characters apart from white space, as far as they
/// hold no typographic punctuation.
pub proof fn law_lines_that_are_alike_hold_the_same_text(a: Seq<char>, b: Seq<char>)
    requires
        alike(a, b),
        forall|k: int| 0 <= k < a.len() ==> crate::text::is_ascii_char(#[trigger] a[k]),
        forall|k: int| 0 <= k < b.len() ==> crate::text::is_ascii_char(#[trigger] b[k]),
    ensures
        solid_text(a) == solid_text(b),
{
    if words_of(a) == words_of(b) {
        lemma_words_of_solid(a);
        lemma_words_of_solid(b);
    } else {
        lemma_plain_ascii(trimmed(a), a);
        lemma_plain_ascii(trimmed(b), b);
        lemma_trimmed_solid(a);
        lemma_trimmed_solid(b);
    }
}

proof fn lemma_words_of_solid(s: Seq<char>)
    ensures
        solid_text(words_of(s)) == solid_text(s),
{
    lemma_words_solid(s, 0);
    assert(s.skip(0) =~= s);
    let words = words_from(s, 0);
    if words.len() > 0 {
        lemma_skip_white(s, 0);
        let a = skip_white(s, 0);
        let b = word_end(s, a);
        assert(words[0] == ' ') by {
            assert(words == seq![' '] + s.subrange(a, b) + words_from(s, b));
        }
        assert(words =~= seq![' '] + words.skip(1));
        lemma_white_text(seq![' ']);
        lemma_solid_text_add(seq![' '], words.skip(1));
        assert(solid_text(seq![' ']) + solid_text(words.skip(1)) =~= solid_text(words.skip(1)));
    }
}

proof fn lemma_trimmed_solid(s: Seq<char>)
    ensures
        solid_text(trimmed(s)) == solid_text(s),
        trimmed(s).len() <= s.len(),
{
    lemma_trimmed_start(s);
    let t = trimmed_start(s);
    let n = s.len() - t.len();
    lemma_white_text(s.take(n));
    assert(s =~= s.take(n) + t);
    lemma_solid_text_add(s.take(n), t);
    lemma_trimmed_end(t);
    let e = trimmed_end(t);
    lemma_white_text(t.skip(e.len() as int));
    assert(t =~= e + t.skip(e.len() as int));
    lemma_solid_text_add(e, t.skip(e.len() as int));
    assert(solid_text(s) =~= solid_text(e));
}

proof fn lemma_plain_ascii(t: Seq<char>, s: Seq<char>)
    requires
        t == trimmed(s),
        forall|k: int| 0 <= k < s.len() ==> crate::text::is_ascii_char(#[trigger] s[k]),
    ensures
        plain_text(t) == t,
{
    lemma_trimmed_start(s);
    lemma_trimmed_end(trimmed_start(s));
    let n = s.len() - trimmed_start(s).len();
    assert forall|k: int| 0 <= k < t.len() implies plain_char(#[trigger] t[k]) == t[k] by {
        assert(t[k] == s[n + k]);
    }
    assert(plain_text(t) =~= t);
}

/// With `eof` the search goes as without it, but from the last lines that the pattern
/// fits on first, unless these come before `start`; only where nothing is found there
/// does it go on from `start`.
pub proof fn law_end_of_file_comes_before_start(
    lines: Seq<Seq<char>>,
    pattern: Seq<Seq<char>>,
    start: int,
)
    requires
        pattern.len() <= lines.len(),
        pattern.len() > 0,
    ensures
        ({
            let last = lines.len() - pattern.len();
            let from = if start > last {
                start
            } else {
                last
            };
            let there = seek(lines, pattern, from, false);
            seek(lines, pattern, start, true) == if there is Some {
                there
            } else {
                seek(lines, pattern, start, false)
            }
        }),
{
}

/// Where the pattern stands nowhere as a block of lines, the first place decides from
/// which its solid lines follow closely.
pub proof fn law_first_close_place_is_found(
    lines: Seq<Seq<char>>,
    pattern: Seq<Seq<char>>,
    start: int,
    m: int,
)
    requires
        0 <= start <= m < lines.len(),
        pattern.len() <= lines.len(),
        solids(pattern).len() > 0,
        follows_closely(lines, pattern, m),
        forall|k: int| start <= k < m ==> !#[trigger] follows_closely(lines, pattern, k),
        forall|strictness: Strictness, k: int|
            start <= k ==> !#[trigger] stands_at(strictness, lines, pattern, k),
    ensures
        seek(lines, pattern, start, false) matches Some(i) && start <= i <= m && (i == m || trimmed(
            lines[i],
        ) == trimmed(solids(pattern)[0])),
        !is_blank_text(lines[m]) ==> seek(lines, pattern, start, false) == Some(m),
{
    lemma_first_place(Strictness::Exact, lines, pattern, start);
    lemma_first_place(Strictness::TrimEnd, lines, pattern, start);
    lemma_first_place(Strictness::Trim, lines, pattern, start);
    lemma_first_place(Strictness::Punctuation, lines, pattern, start);
    lemma_first_place(Strictness::Tokens, lines, pattern, start);
    let solid = solid_lines(pattern);
    lemma_solid_lines(pattern);
    let base = columns(solid[0], TAB_WIDTH as nat) as int;
    lemma_first_solid_match_exact(lines, solid, base, start);
    assert forall|n: int| 0 <= n < lines.len() implies #[trigger] follows_closely(
        lines,
        pattern,
        n,
    ) == solid_match(lines, n, solid, base) by {
        lemma_solid_match(lines, n, solid, base);
    }
    let found = first_solid_match(lines, solid, base, start);
    assert(found == Some(m)) by {
        assert(solid_match(lines, m, solid, base));
        if let Some(n) = found {
            if n < m {
                assert(follows_closely(lines, pattern, n));
            }
        }
    }
    lemma_solid_start_leads(lines, start, m, m, solid);
    lemma_solid_start(lines, start, m, m, solid);
    if pattern.len() == 0 {
        reveal(Seq::filter);
    }
    if !is_blank_text(lines[m]) {
        lemma_solids_from(lines, m);
        assert(solids(lines.skip(m))[0] == lines[m]);
        assert(trimmed(lines[m]) == trimmed(solid[0]));
        assert(leads_to(lines, m + 1, m, solid, 1));
        assert(leads_to(lines, m, m, solid, 0));
    }
}

} // verus!
