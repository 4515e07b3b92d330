//! File marker lines whose path runs into the patch lines after it, and lines
//! that lack the space of a context line.
use vstd::prelude::*;

use crate::diff_line::{
    ascii_or_other, diff_line, lemma_diff_line, narrow, split_squashed_diff_line, squashed_pieces,
    trim_to_diff_prefix,
};
use crate::lines::{line_seq, split_lines, texts};
use crate::markers::{
    code_char, contains_marker, find_marker_boundary, first_marker, hard_boundary, has_marker,
    is_code_char, is_hard_boundary, is_marker_at, is_prefix_char, least_of, lemma_marker_from,
    prefix_char, starts_with_marker, ADD_FILE_MARKER, BEGIN_PATCH_MARKER, DELETE_FILE_MARKER,
    END_PATCH_MARKER, EOF_MARKER, MOVE_TO_MARKER, UPDATE_FILE_MARKER,
};
use crate::text::{
    append_text, chars_of, contains, contains_text, has_char, has_prefix, is_ascii_letter,
    is_ascii_white, is_ascii_whitespace, is_blank, is_blank_text, is_letter, is_white,
    is_whitespace, last_char_index, lemma_last_before, lemma_skip_ascii_white, lemma_trimmed_end,
    matches_at, occurs_at, rfind_char, skip_ascii_white, skip_ascii_whitespace, span, starts_with,
    text_is, trim, trim_end, trim_start, trimmed, trimmed_end, trimmed_start,
};

verus! {

// ---------------------------------------------------------------------------
// A context line that runs on after a statement
// ---------------------------------------------------------------------------
/// After position `i` of a line, which ends a statement, a further line starts:
/// it is set off by two or more spaces or is an attribute.
pub open spec fn context_break(content: Seq<char>, i: int) -> bool {
    let j = skip_ascii_white(content, i + 1);
    let c = content[j];
    &&& 0 <= i < content.len() && (content[i] == ';' || content[i] == '?')
    &&& j < content.len()
    &&& j - (i + 1) >= 2 || occurs_at(content, "#["@, j) || occurs_at(content, "#!["@, j)
    &&& is_letter(c) || c == '_' || c == '}' || c == ')' || c == '#'
}

/// The first such position at or after `i`.
pub open spec fn context_break_from(content: Seq<char>, i: int) -> Option<int>
    decreases content.len() - i,
{
    if i < 0 || i >= content.len() {
        None
    } else if context_break(content, i) {
        Some(i)
    } else {
        context_break_from(content, i + 1)
    }
}

/// A diff line and the context line that follows it on the same line.
pub open spec fn context_parts(line: Seq<char>) -> Option<(Seq<char>, Seq<char>)> {
    match diff_line(line) {
        None => None,
        Some(d) => {
            let content = d.subrange(1, d.len() as int);
            if contains_marker(content) {
                None
            } else {
                match context_break_from(content, 0) {
                    None => None,
                    Some(i) => Some(
                        (
                            seq![d[0]] + content.subrange(0, i + 1),
                            seq![' '] + trimmed_end(
                                content.subrange(i + 1, content.len() as int),
                            ),
                        ),
                    ),
                }
            }
        },
    }
}

/// Where a further line starts, it starts inside the line.
pub proof fn lemma_context_break_from(content: Seq<char>, i: int)
    requires
        0 <= i,
    ensures
        context_break_from(content, i) matches Some(k) ==> i <= k < content.len() && context_break(
            content,
            k,
        ),
    decreases content.len() - i,
{
    if i < content.len() && !context_break(content, i) {
        lemma_context_break_from(content, i + 1);
    }
}

/// The two parts hold one character more than the line at most, and each is
/// shorter than the line.
pub proof fn lemma_context_parts(line: Seq<char>)
    ensures
        context_parts(line) matches Some((first, rest)) ==> {
            &&& first.len() + rest.len() <= line.len() + 1
            &&& 2 <= first.len() < line.len()
            &&& 2 <= rest.len() < line.len()
            &&& rest[0] == ' '
        },
{
    lemma_diff_line(line);
    if let Some(d) = diff_line(line) {
        let content = d.subrange(1, d.len() as int);
        if context_parts(line).is_some() {
            lemma_context_break_from(content, 0);
            let i = context_break_from(content, 0).unwrap();
            let tail = content.subrange(i + 1, content.len() as int);
            lemma_trimmed_end(tail);
            lemma_skip_ascii_white(content, i + 1);
            let j = skip_ascii_white(content, i + 1);
            assert(tail[j - (i + 1)] == content[j]);
        }
    }
}

fn is_context_break(content: &[char], i: usize) -> (r: bool)
    requires
        i < content@.len(),
    ensures
        r == context_break(content@, i as int),
{
    if content[i] != ';' && content[i] != '?' {
        return false;
    }
    let j: usize = skip_ascii_whitespace(content, i + 1);
    if j >= content.len() {
        return false;
    }
    let tight: bool = matches_at(content, "#[", j) || matches_at(content, "#![", j);
    if j - (i + 1) < 2 && !tight {
        return false;
    }
    let c: char = content[j];
    is_ascii_letter(c) || c == '_' || c == '}' || c == ')' || c == '#'
}

/// Splits a diff line whose statement is followed by a line without a prefix.
pub fn split_missing_context_prefix_line(line: &[char]) -> (r: Option<(Vec<char>, Vec<char>)>)
    ensures
        match r {
            Some((first, rest)) => context_parts(line@) == Some((first@, rest@)),
            None => context_parts(line@) is None,
        },
{
    let d: &[char] = match trim_to_diff_prefix(line) {
        Some(d) => d,
        None => {
            return None;
        },
    };
    proof {
        lemma_diff_line(line@);
    }
    let content: &[char] = span(d, 1, d.len());
    if has_marker(content) {
        return None;
    }
    let mut i: usize = 0;
    while i < content.len()
        invariant
            i <= content@.len(),
            d@.len() > 0,
            diff_line(line@) == Some(d@),
            content@ == d@.subrange(1, d@.len() as int),
            !contains_marker(content@),
            context_break_from(content@, 0) == context_break_from(content@, i as int),
        decreases content@.len() - i,
    {
        if is_context_break(content, i) {
            let mut first: Vec<char> = Vec::new();
            first.push(d[0]);
            append_text(&mut first, span(content, 0, i + 1));
            let mut rest: Vec<char> = Vec::new();
            rest.push(' ');
            append_text(&mut rest, trim_end(span(content, i + 1, content.len())));
            assert(first@ =~= seq![d@[0]] + content@.subrange(0, i + 1));
            assert(rest@ =~= seq![' '] + trimmed_end(
                content@.subrange(i + 1, content@.len() as int),
            ));
            return Some((first, rest));
        }
        i += 1;
    }
    None
}

// ---------------------------------------------------------------------------
// Paths in a file marker line
// ---------------------------------------------------------------------------
pub open spec fn path_separator(c: char) -> bool {
    c == '/' || c == '\\'
}

/// Where the file name starts in `s.take(n)`: after the last path separator.
pub open spec fn name_start(s: Seq<char>, n: int) -> int
    decreases n,
{
    if n <= 0 {
        0
    } else if path_separator(s[n - 1]) {
        n
    } else {
        name_start(s, n - 1)
    }
}

pub open spec fn file_name_start(s: Seq<char>) -> int {
    name_start(s, s.len() as int)
}

/// The file name at the end of a path.
pub open spec fn file_name_part(s: Seq<char>) -> Seq<char> {
    s.subrange(file_name_start(s), s.len() as int)
}

/// The text holds a dot or a path separator.
pub open spec fn looks_like_path(s: Seq<char>) -> bool {
    s.contains('.') || s.contains('/') || s.contains('\\')
}

pub proof fn lemma_name_start(s: Seq<char>, n: int)
    requires
        0 <= n <= s.len(),
    ensures
        0 <= name_start(s, n) <= n,
        forall|k: int| name_start(s, n) <= k < n ==> !path_separator(#[trigger] s[k]),
    decreases n,
{
    if n > 0 && !path_separator(s[n - 1]) {
        lemma_name_start(s, n - 1);
    }
}

/// The position of the last path separator.
pub fn last_path_separator_index(path: &[char]) -> (r: Option<usize>)
    ensures
        match r {
            Some(i) => file_name_start(path@) == i + 1 && i < path@.len(),
            None => file_name_start(path@) == 0,
        },
{
    let mut n: usize = path.len();
    while n > 0
        invariant
            n <= path@.len(),
            file_name_start(path@) == name_start(path@, n as int),
        decreases n,
    {
        if path[n - 1] == '/' || path[n - 1] == '\\' {
            return Some(n - 1);
        }
        n -= 1;
    }
    None
}

fn find_name_start(path: &[char]) -> (r: usize)
    ensures
        r == file_name_start(path@),
        r <= path@.len(),
{
    let total: usize = path.len();
    assert(total == path@.len());
    match last_path_separator_index(path) {
        Some(i) => i + 1,
        None => 0,
    }
}

/// The file name at the end of a path.
pub fn filename_from_path_prefix(prefix: &[char]) -> (r: &[char])
    ensures
        r@ == file_name_part(prefix@),
{
    span(prefix, find_name_start(prefix), prefix.len())
}

fn is_path_like(s: &[char]) -> (r: bool)
    ensures
        r == looks_like_path(s@),
{
    has_char(s, '.') || has_char(s, '/') || has_char(s, '\\')
}

/// The first position from `i` on that holds a diff prefix or a space.
pub open spec fn segment_end(s: Seq<char>, i: int) -> int
    decreases s.len() - i,
{
    if 0 <= i < s.len() && !prefix_char(s[i]) && s[i] != ' ' {
        segment_end(s, i + 1)
    } else {
        i
    }
}

/// What follows position `i` up to the next prefix or space.
pub open spec fn segment_after(tail: Seq<char>, i: int) -> Seq<char> {
    if i + 1 >= tail.len() {
        Seq::empty()
    } else {
        tail.subrange(i + 1, segment_end(tail, i + 1))
    }
}

/// What follows position `idx` up to the next prefix or space.
pub fn first_diff_segment_after_prefix(tail: &[char], idx: usize) -> (r: &[char])
    ensures
        r@ == segment_after(tail@, idx as int),
{
    let total: usize = tail.len();
    if idx >= total || idx + 1 >= total {
        assert(tail@.subrange(0, 0) =~= Seq::<char>::empty());
        return span(tail, 0, 0);
    }
    let mut e: usize = idx + 1;
    while e < tail.len() && !is_prefix_char(tail[e]) && tail[e] != ' '
        invariant
            idx + 1 <= e <= tail@.len(),
            segment_end(tail@, idx + 1) == segment_end(tail@, e as int),
        decreases tail@.len() - e,
    {
        e += 1;
    }
    span(tail, idx + 1, e)
}

// ---------------------------------------------------------------------------
// Where the path ends
// ---------------------------------------------------------------------------
/// One of `prefixes` stands at `j` before code, after a boundary or a path.
pub open spec fn file_split_candidate(tail: Seq<char>, prefixes: Seq<char>, j: int) -> bool {
    &&& 0 <= j && j + 1 < tail.len()
    &&& prefixes.contains(tail[j])
    &&& code_char(ascii_or_other(tail[j + 1]))
    &&& j == 0 || hard_boundary(ascii_or_other(tail[j - 1])) || looks_like_path(
        trimmed_end(tail.subrange(0, j)),
    )
}

pub open spec fn contains_white(s: Seq<char>) -> bool {
    exists|i: int| 0 <= i < s.len() && is_white(#[trigger] s[i])
}

/// A text like `name.ext`, without directories or white space.
pub open spec fn looks_like_file_name(s: Seq<char>) -> bool {
    s.contains('.') && !s.contains('/') && !s.contains('\\') && !contains_white(s)
}

/// How well position `i` divides a path from the patch lines after it.
pub open spec fn split_score(tail: Seq<char>, i: int) -> Option<int> {
    let after = tail.subrange(i, tail.len() as int);
    let squashed = squashed_pieces(after).is_some();
    let strong = squashed || first_marker(after).is_some();
    let name = file_name_part(tail.subrange(0, i));
    let has_ext = name.contains('.');
    let next_is_file = looks_like_file_name(trimmed(segment_after(tail, i)));
    if i <= 0 || i >= tail.len() || name.len() == 0 || (tail[i] != '+' && !strong) || (tail[i]
        == '+' && next_is_file && !has_ext && !strong) {
        None
    } else {
        let a: int = if squashed {
            3
        } else {
            0
        };
        let b: int = if has_ext {
            2
        } else {
            0
        };
        let c: int = if next_is_file && !has_ext {
            4
        } else {
            0
        };
        let d: int = if contains_white(name) {
            2
        } else {
            0
        };
        let e: int = if name.last() == '.' {
            1
        } else {
            0
        };
        Some(a + b - c - d - e)
    }
}

/// A usable split at `j` with the given score.
pub open spec fn usable_split(
    tail: Seq<char>,
    prefixes: Seq<char>,
    min_score: int,
    j: int,
) -> Option<int> {
    if file_split_candidate(tail, prefixes, j) && j >= file_name_start(tail) && split_score(
        tail,
        j,
    ).is_some() && split_score(tail, j).unwrap() >= min_score {
        split_score(tail, j)
    } else {
        None
    }
}

/// The best usable split before `n`, and its score: the last one of those with
/// the highest score.
pub open spec fn best_split_before(
    tail: Seq<char>,
    prefixes: Seq<char>,
    min_score: int,
    n: int,
) -> Option<(int, int)>
    decreases n,
{
    if n <= 0 {
        None
    } else {
        let best = best_split_before(tail, prefixes, min_score, n - 1);
        match usable_split(tail, prefixes, min_score, n - 1) {
            None => best,
            Some(score) => if best.is_none() || score >= best.unwrap().1 {
                Some((n - 1, score))
            } else {
                best
            },
        }
    }
}

pub open spec fn best_split(tail: Seq<char>, prefixes: Seq<char>, min_score: int) -> Option<int> {
    match best_split_before(tail, prefixes, min_score, tail.len() as int) {
        Some((i, _)) => Some(i),
        None => None,
    }
}

/// The last dash of the file name of `path`, if it stands after the last dot.
pub open spec fn dash_after_extension(path: Seq<char>) -> Option<int> {
    let name = file_name_part(path);
    match (last_char_index(name, '-'), last_char_index(name, '.')) {
        (Some(dash), Some(dot)) => if dash > dot {
            Some(file_name_start(path) + dash)
        } else {
            None
        },
        _ => None,
    }
}

/// Where a diff prefix ends the path of a file marker line.
pub open spec fn diff_prefix_split(tail: Seq<char>) -> Option<int> {
    match best_split(tail, seq!['+'], i32::MIN as int) {
        Some(plus) => match dash_after_extension(tail.subrange(0, plus)) {
            Some(dash) => Some(dash),
            None => Some(plus),
        },
        None => match dash_after_extension(tail) {
            Some(dash) => Some(dash),
            None => best_split(tail, seq!['-', ' '], 0),
        },
    }
}

/// White space and a diff prefix at `i` end a path.
pub open spec fn white_prefix_at(tail: Seq<char>, i: int) -> bool {
    let k = skip_ascii_white(tail, i + 1);
    let next = ascii_or_other(tail[k]);
    &&& 1 <= i < tail.len() && prefix_char(tail[i]) && is_ascii_white(tail[i - 1])
    &&& k < tail.len() && (code_char(next) || next == '-')
    &&& looks_like_path(trimmed_end(tail.subrange(0, i)))
}

pub open spec fn white_prefix_from(tail: Seq<char>, i: int) -> Option<int>
    decreases tail.len() - i,
{
    if i < 1 || i >= tail.len() {
        None
    } else if white_prefix_at(tail, i) {
        Some(i)
    } else {
        white_prefix_from(tail, i + 1)
    }
}

/// Where the path of a file marker line ends and patch lines start.
pub open spec fn marker_tail_split(tail: Seq<char>) -> Option<int> {
    match white_prefix_from(tail, 1) {
        Some(i) => Some(i),
        None => least_of(first_marker(tail), diff_prefix_split(tail)),
    }
}

proof fn lemma_best_split(tail: Seq<char>, prefixes: Seq<char>, min_score: int, n: int)
    ensures
        best_split_before(tail, prefixes, min_score, n) matches Some((i, _)) ==> 0 <= i < n && i
            < tail.len(),
    decreases n,
{
    if n > 0 {
        lemma_best_split(tail, prefixes, min_score, n - 1);
    }
}

proof fn lemma_white_prefix_from(tail: Seq<char>, i: int)
    requires
        1 <= i,
    ensures
        white_prefix_from(tail, i) matches Some(k) ==> i <= k < tail.len(),
    decreases tail.len() - i,
{
    if i < tail.len() && !white_prefix_at(tail, i) {
        lemma_white_prefix_from(tail, i + 1);
    }
}

proof fn lemma_dash_after_extension(path: Seq<char>)
    ensures
        dash_after_extension(path) matches Some(i) ==> 0 <= i < path.len(),
{
    lemma_name_start(path, path.len() as int);
    let name = file_name_part(path);
    lemma_last_before(name, '-', name.len() as int);
}

/// The path ends inside the line.
pub proof fn lemma_marker_tail_split(tail: Seq<char>)
    ensures
        marker_tail_split(tail) matches Some(i) ==> 0 <= i < tail.len(),
{
    lemma_white_prefix_from(tail, 1);
    lemma_marker_from(tail, 0);
    lemma_best_split(tail, seq!['+'], i32::MIN as int, tail.len() as int);
    lemma_best_split(tail, seq!['-', ' '], 0, tail.len() as int);
    lemma_dash_after_extension(tail);
    match best_split(tail, seq!['+'], i32::MIN as int) {
        Some(plus) => {
            lemma_dash_after_extension(tail.subrange(0, plus));
        },
        None => {},
    }
}

fn is_file_split_candidate(tail: &[char], prefixes: &[char], j: usize) -> (r: bool)
    requires
        j < tail@.len(),
    ensures
        r == file_split_candidate(tail@, prefixes@, j as int),
{
    if !has_char(prefixes, tail[j]) || j + 1 >= tail.len() {
        return false;
    }
    if !is_code_char(narrow(tail[j + 1])) {
        return false;
    }
    j == 0 || is_hard_boundary(narrow(tail[j - 1])) || is_path_like(trim_end(span(tail, 0, j)))
}

/// The positions where the path of a file marker line may end.
pub fn find_file_marker_candidates(tail: &[char], prefixes: &[char]) -> (r: Vec<usize>)
    ensures
        forall|k: int|
            0 <= k < r@.len() ==> #[trigger] r@[k] < tail@.len() && file_split_candidate(
                tail@,
                prefixes@,
                r@[k] as int,
            ),
        forall|k: int, l: int| 0 <= k < l < r@.len() ==> r@[k] < r@[l],
        forall|j: int|
            file_split_candidate(tail@, prefixes@, j) ==> exists|k: int|
                0 <= k < r@.len() && #[trigger] r@[k] == j,
{
    let mut out: Vec<usize> = Vec::new();
    let mut j: usize = 0;
    while j < tail.len()
        invariant
            j <= tail@.len(),
            forall|k: int|
                0 <= k < out@.len() ==> #[trigger] out@[k] < j && file_split_candidate(
                    tail@,
                    prefixes@,
                    out@[k] as int,
                ),
            forall|k: int, l: int| 0 <= k < l < out@.len() ==> out@[k] < out@[l],
            forall|i: int|
                i < j && file_split_candidate(tail@, prefixes@, i) ==> exists|k: int|
                    0 <= k < out@.len() && #[trigger] out@[k] == i,
        decreases tail@.len() - j,
    {
        let ghost before = out@;
        if is_file_split_candidate(tail, prefixes, j) {
            out.push(j);
            assert(out@[before.len() as int] == j);
        }
        assert forall|i: int|
            i < j + 1 && file_split_candidate(tail@, prefixes@, i) implies exists|k: int|
            0 <= k < out@.len() && #[trigger] out@[k] == i by {
            if i < j {
                let k = choose|k: int| 0 <= k < before.len() && #[trigger] before[k] == i;
                assert(out@[k] == i);
            }
        }
        j += 1;
    }
    out
}

fn any_white(s: &[char]) -> (r: bool)
    ensures
        r == contains_white(s@),
{
    let mut i: usize = 0;
    while i < s.len()
        invariant
            i <= s@.len(),
            forall|k: int| 0 <= k < i ==> !is_white(#[trigger] s@[k]),
        decreases s@.len() - i,
    {
        if is_whitespace(s[i]) {
            return true;
        }
        i += 1;
    }
    false
}

/// How well position `idx` divides a path from the patch lines after it.
pub fn score_file_marker_split_candidate(tail: &[char], idx: usize) -> (r: Option<i32>)
    ensures
        match r {
            Some(score) => split_score(tail@, idx as int) == Some(score as int),
            None => split_score(tail@, idx as int) is None,
        },
{
    if idx == 0 || idx >= tail.len() {
        return None;
    }
    let mark: char = tail[idx];
    let after: &[char] = span(tail, idx, tail.len());
    let squashed: bool = split_squashed_diff_line(after).is_some();
    let strong: bool = squashed || find_marker_boundary(after).is_some();
    if mark != '+' && !strong {
        return None;
    }
    let name: &[char] = filename_from_path_prefix(span(tail, 0, idx));
    if name.len() == 0 {
        return None;
    }
    let segment: &[char] = trim(first_diff_segment_after_prefix(tail, idx));
    let next_is_file: bool = has_char(segment, '.') && !has_char(segment, '/') && !has_char(
        segment,
        '\\',
    ) && !any_white(segment);
    let has_ext: bool = has_char(name, '.');
    if mark == '+' && next_is_file && !has_ext && !strong {
        return None;
    }
    let mut score: i32 = 0;
    if squashed {
        score += 3;
    }
    if has_ext {
        score += 2;
    }
    if next_is_file && !has_ext {
        score -= 4;
    }
    if any_white(name) {
        score -= 2;
    }
    if name[name.len() - 1] == '.' {
        score -= 1;
    }
    Some(score)
}

/// The best position among the candidates for `prefixes`, of `min_score` at least.
pub fn find_best_split_for_file_marker(tail: &[char], prefixes: &[char], min_score: i32) -> (r:
    Option<usize>)
    ensures
        match r {
            Some(i) => best_split(tail@, prefixes@, min_score as int) == Some(i as int) && i
                < tail@.len(),
            None => best_split(tail@, prefixes@, min_score as int) is None,
        },
{
    let min_idx: usize = find_name_start(tail);
    let mut best: Option<(usize, i32)> = None;
    let mut j: usize = 0;
    while j < tail.len()
        invariant
            j <= tail@.len(),
            min_idx == file_name_start(tail@),
            match best {
                Some((i, score)) => best_split_before(
                    tail@,
                    prefixes@,
                    min_score as int,
                    j as int,
                ) == Some((i as int, score as int)) && i < tail@.len(),
                None => best_split_before(tail@, prefixes@, min_score as int, j as int) is None,
            },
        decreases tail@.len() - j,
    {
        if is_file_split_candidate(tail, prefixes, j) && j >= min_idx {
            match score_file_marker_split_candidate(tail, j) {
                Some(score) => {
                    if score >= min_score {
                        let is_better: bool = match best {
                            Some((_, best_score)) => score >= best_score,
                            None => true,
                        };
                        if is_better {
                            best = Some((j, score));
                        }
                    }
                },
                None => {},
            }
        }
        j += 1;
    }
    match best {
        Some((i, _)) => Some(i),
        None => None,
    }
}

fn find_dash_after_extension(path: &[char]) -> (r: Option<usize>)
    ensures
        match r {
            Some(i) => dash_after_extension(path@) == Some(i as int) && i < path@.len(),
            None => dash_after_extension(path@) is None,
        },
{
    let start: usize = find_name_start(path);
    let name: &[char] = filename_from_path_prefix(path);
    let total: usize = path.len();
    proof {
        lemma_name_start(path@, path@.len() as int);
        assert(name@.len() + start == total);
    }
    match (rfind_char(name, '-'), rfind_char(name, '.')) {
        (Some(dash), Some(dot)) => if dash > dot {
            Some(start + dash)
        } else {
            None
        },
        _ => None,
    }
}

/// Where a diff prefix ends the path of a file marker line.
pub fn find_diff_prefix_split_for_file_marker(tail: &[char]) -> (r: Option<usize>)
    ensures
        match r {
            Some(i) => diff_prefix_split(tail@) == Some(i as int) && i < tail@.len(),
            None => diff_prefix_split(tail@) is None,
        },
{
    let plus: [char; 1] = ['+'];
    assert(plus@ =~= seq!['+']);
    let dash_or_space: [char; 2] = ['-', ' '];
    assert(dash_or_space@ =~= seq!['-', ' ']);
    match find_best_split_for_file_marker(tail, plus.as_slice(), i32::MIN) {
        Some(i) => match find_dash_after_extension(span(tail, 0, i)) {
            Some(dash) => Some(dash),
            None => Some(i),
        },
        None => match find_dash_after_extension(tail) {
            Some(dash) => Some(dash),
            None => find_best_split_for_file_marker(tail, dash_or_space.as_slice(), 0),
        },
    }
}

fn is_white_prefix_at(tail: &[char], i: usize) -> (r: bool)
    requires
        1 <= i < tail@.len(),
    ensures
        r == white_prefix_at(tail@, i as int),
{
    if !is_prefix_char(tail[i]) || !is_ascii_whitespace(tail[i - 1]) {
        return false;
    }
    let k: usize = skip_ascii_whitespace(tail, i + 1);
    if k >= tail.len() {
        return false;
    }
    let next: char = narrow(tail[k]);
    if !is_code_char(next) && next != '-' {
        return false;
    }
    is_path_like(trim_end(span(tail, 0, i)))
}

/// Where white space and a diff prefix end the path of a file marker line.
pub fn find_whitespace_diff_prefix_split(tail: &[char]) -> (r: Option<usize>)
    ensures
        match r {
            Some(i) => white_prefix_from(tail@, 1) == Some(i as int) && i < tail@.len(),
            None => white_prefix_from(tail@, 1) is None,
        },
{
    let mut i: usize = 1;
    while i < tail.len()
        invariant
            1 <= i,
            white_prefix_from(tail@, 1) == white_prefix_from(tail@, i as int),
        decreases tail@.len() - i,
    {
        if is_white_prefix_at(tail, i) {
            return Some(i);
        }
        i += 1;
    }
    None
}

/// Where the path of a file marker line ends and patch lines start.
pub fn find_marker_tail_split(tail: &[char]) -> (r: Option<usize>)
    ensures
        match r {
            Some(i) => marker_tail_split(tail@) == Some(i as int) && i < tail@.len(),
            None => marker_tail_split(tail@) is None,
        },
{
    match find_whitespace_diff_prefix_split(tail) {
        Some(i) => {
            return Some(i);
        },
        None => {},
    }
    match (find_marker_boundary(tail), find_diff_prefix_split_for_file_marker(tail)) {
        (Some(a), Some(b)) => if b < a {
            Some(b)
        } else {
            Some(a)
        },
        (Some(a), None) => Some(a),
        (None, b) => b,
    }
}

/// What follows a file marker at the start of `t`.
pub open spec fn file_marker_tail(t: Seq<char>) -> Option<Seq<char>> {
    if has_prefix(t, ADD_FILE_MARKER@) {
        Some(t.skip(ADD_FILE_MARKER@.len() as int))
    } else if has_prefix(t, UPDATE_FILE_MARKER@) {
        Some(t.skip(UPDATE_FILE_MARKER@.len() as int))
    } else if has_prefix(t, DELETE_FILE_MARKER@) {
        Some(t.skip(DELETE_FILE_MARKER@.len() as int))
    } else if has_prefix(t, MOVE_TO_MARKER@) {
        Some(t.skip(MOVE_TO_MARKER@.len() as int))
    } else {
        None
    }
}

/// A file marker line whose path runs into patch lines.
pub open spec fn tail_needs_split(line: Seq<char>) -> bool {
    match file_marker_tail(trimmed_start(line)) {
        Some(tail) => !is_blank_text(tail) && marker_tail_split(tail).is_some(),
        None => false,
    }
}

/// What follows `p` at the start of `s`.
pub fn strip_prefix<'a>(s: &'a [char], p: &str) -> (r: Option<&'a [char]>)
    ensures
        match r {
            Some(t) => has_prefix(s@, p@) && t@ == s@.skip(p@.len() as int),
            None => !has_prefix(s@, p@),
        },
{
    if starts_with(s, p) {
        let n: usize = chars_of(p).len();
        assert(s@.subrange(n as int, s@.len() as int) =~= s@.skip(n as int));
        Some(span(s, n, s.len()))
    } else {
        None
    }
}

/// Whether a file marker line runs into patch lines.
pub fn marker_tail_needs_split(line: &[char]) -> (r: bool)
    ensures
        r == tail_needs_split(line@),
{
    let t: &[char] = trim_start(line);
    let tail: &[char] = match strip_prefix(t, ADD_FILE_MARKER) {
        Some(tail) => tail,
        None => match strip_prefix(t, UPDATE_FILE_MARKER) {
            Some(tail) => tail,
            None => match strip_prefix(t, DELETE_FILE_MARKER) {
                Some(tail) => tail,
                None => match strip_prefix(t, MOVE_TO_MARKER) {
                    Some(tail) => tail,
                    None => {
                        return false;
                    },
                },
            },
        },
    };
    !is_blank(tail) && find_marker_tail_split(tail).is_some()
}

/// The end marker stands in a line together with other text, and the line is no
/// added or removed line.
pub open spec fn embedded_end_patch(line: Seq<char>) -> bool {
    let t = trimmed_start(line);
    &&& trimmed(line) != END_PATCH_MARKER@
    &&& !(t.len() > 0 && prefix_char(t[0]))
    &&& contains_text(line, END_PATCH_MARKER@)
}

/// Whether the end marker stands in a line together with other text.
pub fn line_has_embedded_end_patch(line: &[char]) -> (r: bool)
    ensures
        r == embedded_end_patch(line@),
{
    if text_is(trim(line), END_PATCH_MARKER) {
        return false;
    }
    let t: &[char] = trim_start(line);
    if t.len() > 0 && is_prefix_char(t[0]) {
        return false;
    }
    contains(line, END_PATCH_MARKER)
}

// ---------------------------------------------------------------------------
// Markers inside diff lines
// ---------------------------------------------------------------------------
/// The first of the markers of a patch that a text holds.
pub open spec fn content_marker(line: Seq<char>) -> Option<Seq<char>> {
    if contains_text(line, BEGIN_PATCH_MARKER@) {
        Some(BEGIN_PATCH_MARKER@)
    } else if contains_text(line, END_PATCH_MARKER@) {
        Some(END_PATCH_MARKER@)
    } else if contains_text(line, ADD_FILE_MARKER@) {
        Some(ADD_FILE_MARKER@)
    } else if contains_text(line, DELETE_FILE_MARKER@) {
        Some(DELETE_FILE_MARKER@)
    } else if contains_text(line, UPDATE_FILE_MARKER@) {
        Some(UPDATE_FILE_MARKER@)
    } else if contains_text(line, MOVE_TO_MARKER@) {
        Some(MOVE_TO_MARKER@)
    } else if contains_text(line, EOF_MARKER@) {
        Some(EOF_MARKER@)
    } else {
        None
    }
}

/// The marker inside a diff line; a line that starts with a marker is none.
pub open spec fn diff_line_marker(line: Seq<char>) -> Option<Seq<char>> {
    if starts_with_marker(trimmed_start(line)) {
        None
    } else {
        match diff_line(line) {
            Some(d) => content_marker(d.skip(1)),
            None => None,
        }
    }
}

/// The first marker inside a diff line among the lines from `i` on.
pub open spec fn embedded_marker_from(lines: Seq<Seq<char>>, i: int) -> Option<Seq<char>>
    decreases lines.len() - i,
{
    if i < 0 || i >= lines.len() {
        None
    } else if diff_line_marker(lines[i]).is_some() {
        diff_line_marker(lines[i])
    } else {
        embedded_marker_from(lines, i + 1)
    }
}

pub open spec fn opt_str(s: Option<&'static str>) -> Option<Seq<char>> {
    match s {
        Some(t) => Some(t@),
        None => None,
    }
}

/// The first of the markers of a patch that a text holds.
pub fn contains_structural_marker_in_content(line: &[char]) -> (r: Option<&'static str>)
    ensures
        opt_str(r) == content_marker(line@),
{
    if contains(line, BEGIN_PATCH_MARKER) {
        Some(BEGIN_PATCH_MARKER)
    } else if contains(line, END_PATCH_MARKER) {
        Some(END_PATCH_MARKER)
    } else if contains(line, ADD_FILE_MARKER) {
        Some(ADD_FILE_MARKER)
    } else if contains(line, DELETE_FILE_MARKER) {
        Some(DELETE_FILE_MARKER)
    } else if contains(line, UPDATE_FILE_MARKER) {
        Some(UPDATE_FILE_MARKER)
    } else if contains(line, MOVE_TO_MARKER) {
        Some(MOVE_TO_MARKER)
    } else if contains(line, EOF_MARKER) {
        Some(EOF_MARKER)
    } else {
        None
    }
}

fn find_diff_line_marker(line: &[char]) -> (r: Option<&'static str>)
    ensures
        opt_str(r) == diff_line_marker(line@),
{
    if is_marker_at(trim_start(line), 0) {
        return None;
    }
    match trim_to_diff_prefix(line) {
        Some(d) => {
            proof {
                lemma_diff_line(line@);
            }
            let content: &[char] = span(d, 1, d.len());
            assert(content@ =~= d@.skip(1));
            contains_structural_marker_in_content(content)
        },
        None => None,
    }
}

/// The first marker of a patch that stands inside a diff line.
pub fn embedded_marker_in_diff_line(patch: &str) -> (r: Option<&'static str>)
    ensures
        opt_str(r) == embedded_marker_from(line_seq(patch@), 0),
{
    let lines: Vec<Vec<char>> = split_lines(chars_of(patch).as_slice());
    let ghost all = line_seq(patch@);
    let mut i: usize = 0;
    while i < lines.len()
        invariant
            i <= lines@.len(),
            texts(lines@) == all,
            all == line_seq(patch@),
            embedded_marker_from(all, 0) == embedded_marker_from(all, i as int),
        decreases lines@.len() - i,
    {
        assert(lines@[i as int]@ == all[i as int]);
        match find_diff_line_marker(lines[i].as_slice()) {
            Some(marker) => {
                return Some(marker);
            },
            None => {},
        }
        i += 1;
    }
    None
}

/// A path is split from what follows it at the place that scores highest, the last
/// one of several; and it is split wherever there is a place to do so.
pub proof fn law_best_split_scores_highest(
    tail: Seq<char>,
    prefixes: Seq<char>,
    min_score: int,
    n: int,
)
    requires
        0 <= n,
    ensures
        match best_split_before(tail, prefixes, min_score, n) {
            None => forall|j: int|
                0 <= j < n ==> #[trigger] usable_split(tail, prefixes, min_score, j) is None,
            Some((i, score)) => {
                &&& 0 <= i < n
                &&& usable_split(tail, prefixes, min_score, i) == Some(score)
                &&& forall|j: int|
                    0 <= j < n ==> match #[trigger] usable_split(tail, prefixes, min_score, j) {
                        None => true,
                        Some(other) => other < score || (other == score && j <= i),
                    }
            },
        },
    decreases n,
{
    if n > 0 {
        law_best_split_scores_highest(tail, prefixes, min_score, n - 1);
    }
}

} // verus!
