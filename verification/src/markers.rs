//! The markers of the patch format and where they stand in a text.
use vstd::prelude::*;

use crate::text::{
    chars_of, is_white, is_whitespace, lemma_trimmed_end, matches_at, occurs_at, same_text, span,
    trim_end, trimmed_end,
};

verus! {

pub const BEGIN_PATCH_MARKER: &'static str = "*** Begin Patch";

pub const END_PATCH_MARKER: &'static str = "*** End Patch";

pub const ADD_FILE_MARKER: &'static str = "*** Add File: ";

pub const DELETE_FILE_MARKER: &'static str = "*** Delete File: ";

pub const UPDATE_FILE_MARKER: &'static str = "*** Update File: ";

pub const MOVE_TO_MARKER: &'static str = "*** Move to: ";

pub const EOF_MARKER: &'static str = "*** End of File";

pub const CHANGE_CONTEXT_MARKER: &'static str = "@@ ";

pub const EMPTY_CHANGE_CONTEXT_MARKER: &'static str = "@@";

/// The length of the end marker.
pub const END_PATCH_LENGTH: usize = 13;

/// The markers are not empty, and their lengths.
pub proof fn lemma_marker_lengths()
    ensures
        BEGIN_PATCH_MARKER@.len() == 15,
        END_PATCH_MARKER@.len() == END_PATCH_LENGTH,
        ADD_FILE_MARKER@.len() == 14,
        DELETE_FILE_MARKER@.len() == 17,
        UPDATE_FILE_MARKER@.len() == 17,
        MOVE_TO_MARKER@.len() == 13,
        EOF_MARKER@.len() == 15,
        CHANGE_CONTEXT_MARKER@.len() == 3,
        EMPTY_CHANGE_CONTEXT_MARKER@.len() == 2,
{
    reveal_strlit("*** Begin Patch");
    reveal_strlit("*** End Patch");
    reveal_strlit("*** Add File: ");
    reveal_strlit("*** Delete File: ");
    reveal_strlit("*** Update File: ");
    reveal_strlit("*** Move to: ");
    reveal_strlit("*** End of File");
    reveal_strlit("@@ ");
    reveal_strlit("@@");
}

// ---------------------------------------------------------------------------
// Character classes of diff lines
// ---------------------------------------------------------------------------
/// A character of an identifier: an ASCII letter or digit, or `_`.
pub open spec fn word_char(c: char) -> bool {
    crate::text::is_letter(c) || crate::text::is_digit(c) || c == '_'
}

/// A character that opens an added or a removed line.
pub open spec fn prefix_char(c: char) -> bool {
    c == '+' || c == '-'
}

/// Neither white space nor a diff prefix.
pub open spec fn code_char(c: char) -> bool {
    !is_white(c) && !prefix_char(c)
}

/// Neither part of an identifier nor a diff prefix.
pub open spec fn hard_boundary(c: char) -> bool {
    !word_char(c) && !prefix_char(c)
}

/// Whether `c` may stand in an identifier.
pub fn is_word_char(c: char) -> (r: bool)
    ensures
        r == word_char(c),
{
    crate::text::is_ascii_letter(c) || crate::text::is_ascii_digit(c) || c == '_'
}

/// Whether `c` opens an added or a removed line.
pub fn is_prefix_char(c: char) -> (r: bool)
    ensures
        r == prefix_char(c),
{
    c == '+' || c == '-'
}

/// Whether `c` is neither white space nor a diff prefix.
pub fn is_code_char(c: char) -> (r: bool)
    ensures
        r == code_char(c),
{
    !is_whitespace(c) && !is_prefix_char(c)
}

/// Whether `c` is neither part of an identifier nor a diff prefix.
pub fn is_hard_boundary(c: char) -> (r: bool)
    ensures
        r == hard_boundary(c),
{
    is_whitespace(c) || (!is_word_char(c) && !is_prefix_char(c))
}

// ---------------------------------------------------------------------------
// Any marker
// ---------------------------------------------------------------------------
/// Some marker stands in `s` at position `i`.
pub open spec fn marker_at(s: Seq<char>, i: int) -> bool {
    ||| occurs_at(s, BEGIN_PATCH_MARKER@, i)
    ||| occurs_at(s, END_PATCH_MARKER@, i)
    ||| occurs_at(s, ADD_FILE_MARKER@, i)
    ||| occurs_at(s, DELETE_FILE_MARKER@, i)
    ||| occurs_at(s, UPDATE_FILE_MARKER@, i)
    ||| occurs_at(s, MOVE_TO_MARKER@, i)
    ||| occurs_at(s, EOF_MARKER@, i)
    ||| occurs_at(s, CHANGE_CONTEXT_MARKER@, i)
    ||| occurs_at(s, EMPTY_CHANGE_CONTEXT_MARKER@, i)
}

pub open spec fn starts_with_marker(s: Seq<char>) -> bool {
    marker_at(s, 0)
}

/// The first position at or after `i` where a marker stands.
pub open spec fn marker_from(s: Seq<char>, i: int) -> Option<int>
    decreases s.len() - i,
{
    if i < 0 || i >= s.len() {
        None
    } else if marker_at(s, i) {
        Some(i)
    } else {
        marker_from(s, i + 1)
    }
}

/// The first position where a marker stands in `s`.
pub open spec fn first_marker(s: Seq<char>) -> Option<int> {
    marker_from(s, 0)
}

/// Some marker stands in `s`.
pub open spec fn contains_marker(s: Seq<char>) -> bool {
    exists|i: int| #[trigger] marker_at(s, i)
}

pub proof fn lemma_marker_from(s: Seq<char>, i: int)
    requires
        0 <= i,
    ensures
        match marker_from(s, i) {
            Some(k) => i <= k < s.len() && marker_at(s, k) && forall|j: int|
                i <= j < k ==> !#[trigger] marker_at(s, j),
            None => forall|j: int| i <= j ==> !#[trigger] marker_at(s, j),
        },
    decreases s.len() - i,
{
    lemma_marker_lengths();
    if i < s.len() && !marker_at(s, i) {
        lemma_marker_from(s, i + 1);
    }
}

pub proof fn lemma_contains_marker(s: Seq<char>)
    ensures
        contains_marker(s) == first_marker(s).is_some(),
{
    lemma_marker_from(s, 0);
    if contains_marker(s) {
        let i = choose|i: int| #[trigger] marker_at(s, i);
        assert(0 <= i);
    }
}

/// Whether some marker stands in `s` at position `i`.
pub fn is_marker_at(s: &[char], i: usize) -> (r: bool)
    requires
        i <= s@.len(),
    ensures
        r == marker_at(s@, i as int),
{
    matches_at(s, BEGIN_PATCH_MARKER, i) || matches_at(s, END_PATCH_MARKER, i) || matches_at(
        s,
        ADD_FILE_MARKER,
        i,
    ) || matches_at(s, DELETE_FILE_MARKER, i) || matches_at(s, UPDATE_FILE_MARKER, i)
        || matches_at(s, MOVE_TO_MARKER, i) || matches_at(s, EOF_MARKER, i) || matches_at(
        s,
        CHANGE_CONTEXT_MARKER,
        i,
    ) || matches_at(s, EMPTY_CHANGE_CONTEXT_MARKER, i)
}

/// The first position where a marker stands in `tail`.
pub fn find_marker_boundary(tail: &[char]) -> (r: Option<usize>)
    ensures
        match r {
            Some(i) => first_marker(tail@) == Some(i as int) && i < tail@.len(),
            None => first_marker(tail@) is None,
        },
{
    let mut i: usize = 0;
    while i < tail.len()
        invariant
            i <= tail@.len(),
            first_marker(tail@) == marker_from(tail@, i as int),
        decreases tail@.len() - i,
    {
        if is_marker_at(tail, i) {
            return Some(i);
        }
        i += 1;
    }
    None
}

/// Whether some marker stands in `s`.
pub fn has_marker(s: &[char]) -> (r: bool)
    ensures
        r == contains_marker(s@),
{
    proof {
        lemma_contains_marker(s@);
    }
    find_marker_boundary(s).is_some()
}

// ---------------------------------------------------------------------------
// Markers outside string literals
// ---------------------------------------------------------------------------
/// Which quotes are open, and whether the next character is escaped.
pub struct QuoteState {
    pub single: bool,
    pub double: bool,
    pub backtick: bool,
    pub escape: bool,
}

pub open spec fn in_quotes(q: QuoteState) -> bool {
    q.single || q.double || q.backtick
}

/// The state after one more character.
pub open spec fn quote_step(q: QuoteState, c: char) -> QuoteState {
    if q.escape {
        QuoteState { escape: false, ..q }
    } else if c == '\\' && in_quotes(q) {
        QuoteState { escape: true, ..q }
    } else if c == '"' && !q.single && !q.backtick {
        QuoteState { double: !q.double, ..q }
    } else if c == '\'' && !q.double && !q.backtick {
        QuoteState { single: !q.single, ..q }
    } else if c == '`' && !q.single && !q.double {
        QuoteState { backtick: !q.backtick, ..q }
    } else {
        q
    }
}

/// The state after the first `n` characters of `s`.
pub open spec fn quotes_after(s: Seq<char>, n: int) -> QuoteState
    decreases n,
{
    if n <= 0 {
        QuoteState { single: false, double: false, backtick: false, escape: false }
    } else {
        quote_step(quotes_after(s, n - 1), s[n - 1])
    }
}

/// Whether position `idx` of `text`, or its end, lies inside a string literal.
pub fn is_inside_string_literal(text: &[char], idx: usize) -> (r: bool)
    ensures
        r == in_quotes(
            quotes_after(
                text@,
                if idx <= text@.len() {
                    idx as int
                } else {
                    text@.len() as int
                },
            ),
        ),
{
    let mut single: bool = false;
    let mut double: bool = false;
    let mut backtick: bool = false;
    let mut escape: bool = false;
    let mut i: usize = 0;
    while i < idx && i < text.len()
        invariant
            i <= idx,
            i <= text@.len(),
            quotes_after(text@, i as int) == (QuoteState { single, double, backtick, escape }),
        decreases idx - i,
    {
        let c: char = text[i];
        if escape {
            escape = false;
        } else if c == '\\' && (single || double || backtick) {
            escape = true;
        } else if c == '"' && !single && !backtick {
            double = !double;
        } else if c == '\'' && !double && !backtick {
            single = !single;
        } else if c == '`' && !single && !double {
            backtick = !backtick;
        }
        i += 1;
    }
    single || double || backtick
}

/// `marker`, which stands in `tail` at `i`, opens a line of its own there: it is
/// not inside a string literal, code that ends at a boundary stands before it,
/// and white space or nothing follows it.
pub open spec fn structural_at(tail: Seq<char>, marker: Seq<char>, i: int) -> bool {
    let before = tail.subrange(0, i);
    let code = trimmed_end(before);
    let next = i + marker.len();
    &&& !in_quotes(quotes_after(tail, i))
    &&& code.len() > 0
    &&& {
        ||| !word_char(code.last())
        ||| code.len() == before.len() && (marker == CHANGE_CONTEXT_MARKER@ || marker
            == EMPTY_CHANGE_CONTEXT_MARKER@)
    }
    &&& marker.last() == ' ' || next >= tail.len() || is_white(tail[next])
}

/// The first structural one among the occurrences of `marker` from `i` on, read
/// from left to right without overlap.
pub open spec fn structural_from(tail: Seq<char>, marker: Seq<char>, i: int) -> Option<int>
    decreases tail.len() - i,
{
    if i < 0 || i >= tail.len() || marker.len() == 0 {
        None
    } else if !occurs_at(tail, marker, i) {
        structural_from(tail, marker, i + 1)
    } else if structural_at(tail, marker, i) {
        Some(i)
    } else {
        structural_from(tail, marker, i + marker.len())
    }
}

pub open spec fn least_of(a: Option<int>, b: Option<int>) -> Option<int> {
    match (a, b) {
        (Some(x), Some(y)) => if y < x {
            Some(y)
        } else {
            Some(x)
        },
        (None, _) => b,
        (_, None) => a,
    }
}

/// The first position where a marker other than the end marker is structural.
pub open spec fn first_structural_marker(tail: Seq<char>) -> Option<int> {
    let a = structural_from(tail, BEGIN_PATCH_MARKER@, 0);
    let b = least_of(a, structural_from(tail, ADD_FILE_MARKER@, 0));
    let c = least_of(b, structural_from(tail, DELETE_FILE_MARKER@, 0));
    let d = least_of(c, structural_from(tail, UPDATE_FILE_MARKER@, 0));
    let e = least_of(d, structural_from(tail, MOVE_TO_MARKER@, 0));
    let f = least_of(e, structural_from(tail, EOF_MARKER@, 0));
    let g = least_of(f, structural_from(tail, CHANGE_CONTEXT_MARKER@, 0));
    least_of(g, structural_from(tail, EMPTY_CHANGE_CONTEXT_MARKER@, 0))
}

pub proof fn lemma_structural_from(tail: Seq<char>, marker: Seq<char>, i: int)
    requires
        0 <= i,
    ensures
        structural_from(tail, marker, i) matches Some(k) ==> i <= k && k < tail.len() && occurs_at(
            tail,
            marker,
            k,
        ) && marker.len() > 0 && structural_at(tail, marker, k),
    decreases tail.len() - i,
{
    if i < tail.len() && marker.len() > 0 {
        if !occurs_at(tail, marker, i) {
            lemma_structural_from(tail, marker, i + 1);
        } else if !structural_at(tail, marker, i) {
            lemma_structural_from(tail, marker, i + marker.len());
        }
    }
}

/// Position `k` splits `tail` in two parts, and the first is not blank.
pub open spec fn splits(tail: Seq<char>, k: Option<int>) -> bool {
    k matches Some(i) ==> 0 < i < tail.len() && trimmed_end(tail.subrange(0, i)).len() > 0
}

proof fn lemma_structural_splits(tail: Seq<char>, marker: Seq<char>)
    ensures
        splits(tail, structural_from(tail, marker, 0)),
{
    lemma_structural_from(tail, marker, 0);
    if let Some(k) = structural_from(tail, marker, 0) {
        lemma_trimmed_end(tail.subrange(0, k));
    }
}

/// A structural marker splits a text in two parts, and the first is not blank.
pub proof fn lemma_first_structural(tail: Seq<char>)
    ensures
        splits(tail, first_structural_marker(tail)),
{
    lemma_structural_splits(tail, BEGIN_PATCH_MARKER@);
    lemma_structural_splits(tail, ADD_FILE_MARKER@);
    lemma_structural_splits(tail, DELETE_FILE_MARKER@);
    lemma_structural_splits(tail, UPDATE_FILE_MARKER@);
    lemma_structural_splits(tail, MOVE_TO_MARKER@);
    lemma_structural_splits(tail, EOF_MARKER@);
    lemma_structural_splits(tail, CHANGE_CONTEXT_MARKER@);
    lemma_structural_splits(tail, EMPTY_CHANGE_CONTEXT_MARKER@);
}

/// Where a marker stands, there is a `*` or an `@`.
pub proof fn lemma_marker_start(s: Seq<char>, i: int)
    requires
        marker_at(s, i),
    ensures
        0 <= i < s.len(),
        s[i] == '*' || s[i] == '@',
{
    reveal_strlit("*** Begin Patch");
    reveal_strlit("*** End Patch");
    reveal_strlit("*** Add File: ");
    reveal_strlit("*** Delete File: ");
    reveal_strlit("*** Update File: ");
    reveal_strlit("*** Move to: ");
    reveal_strlit("*** End of File");
    reveal_strlit("@@ ");
    reveal_strlit("@@");
    lemma_occurs_start(s, BEGIN_PATCH_MARKER@, i);
    lemma_occurs_start(s, END_PATCH_MARKER@, i);
    lemma_occurs_start(s, ADD_FILE_MARKER@, i);
    lemma_occurs_start(s, DELETE_FILE_MARKER@, i);
    lemma_occurs_start(s, UPDATE_FILE_MARKER@, i);
    lemma_occurs_start(s, MOVE_TO_MARKER@, i);
    lemma_occurs_start(s, EOF_MARKER@, i);
    lemma_occurs_start(s, CHANGE_CONTEXT_MARKER@, i);
    lemma_occurs_start(s, EMPTY_CHANGE_CONTEXT_MARKER@, i);
}

proof fn lemma_occurs_start(s: Seq<char>, p: Seq<char>, i: int)
    requires
        p.len() > 0,
    ensures
        occurs_at(s, p, i) ==> 0 <= i < s.len() && s[i] == p[0],
{
    if occurs_at(s, p, i) {
        assert(s.subrange(i, i + p.len())[0] == s[i]);
    }
}

/// At the first structural marker stands a marker.
pub proof fn lemma_structural_marker_start(tail: Seq<char>)
    ensures
        first_structural_marker(tail) matches Some(i) ==> marker_at(tail, i) && 0 <= i < tail.len()
            && (tail[i] == '*' || tail[i] == '@'),
{
    lemma_structural_is_marker(tail, BEGIN_PATCH_MARKER@);
    lemma_structural_is_marker(tail, ADD_FILE_MARKER@);
    lemma_structural_is_marker(tail, DELETE_FILE_MARKER@);
    lemma_structural_is_marker(tail, UPDATE_FILE_MARKER@);
    lemma_structural_is_marker(tail, MOVE_TO_MARKER@);
    lemma_structural_is_marker(tail, EOF_MARKER@);
    lemma_structural_is_marker(tail, CHANGE_CONTEXT_MARKER@);
    lemma_structural_is_marker(tail, EMPTY_CHANGE_CONTEXT_MARKER@);
    if let Some(i) = first_structural_marker(tail) {
        assert(marker_at(tail, i));
        lemma_marker_start(tail, i);
    }
}

proof fn lemma_structural_is_marker(tail: Seq<char>, marker: Seq<char>)
    ensures
        structural_from(tail, marker, 0) matches Some(i) ==> occurs_at(tail, marker, i),
{
    lemma_structural_from(tail, marker, 0);
}

/// Whether `marker`, which stands in `tail` at `i`, is structural there.
fn is_structural_at(tail: &[char], marker: &[char], i: usize) -> (r: bool)
    requires
        marker@.len() > 0,
        occurs_at(tail@, marker@, i as int),
    ensures
        r == structural_at(tail@, marker@, i as int),
{
    let total: usize = tail.len();
    if is_inside_string_literal(tail, i) {
        return false;
    }
    let before: &[char] = span(tail, 0, i);
    let code: &[char] = trim_end(before);
    if code.len() == 0 {
        return false;
    }
    let last: char = code[code.len() - 1];
    let context: Vec<char> = chars_of(CHANGE_CONTEXT_MARKER);
    let empty_context: Vec<char> = chars_of(EMPTY_CHANGE_CONTEXT_MARKER);
    let is_context: bool = same_text(marker, context.as_slice()) || same_text(
        marker,
        empty_context.as_slice(),
    );
    let boundary: bool = !is_word_char(last) || (code.len() == before.len() && is_context);
    if !boundary {
        return false;
    }
    let next: usize = i + marker.len();
    marker[marker.len() - 1] == ' ' || next >= total || is_whitespace(tail[next])
}

fn find_structural(tail: &[char], marker: &str) -> (r: Option<usize>)
    requires
        marker@.len() > 0,
    ensures
        match r {
            Some(i) => structural_from(tail@, marker@, 0) == Some(i as int),
            None => structural_from(tail@, marker@, 0) is None,
        },
{
    let m: Vec<char> = chars_of(marker);
    let mut i: usize = 0;
    while i < tail.len()
        invariant
            i <= tail@.len(),
            m@ == marker@,
            marker@.len() > 0,
            structural_from(tail@, marker@, 0) == structural_from(tail@, marker@, i as int),
        decreases tail@.len() - i,
    {
        if matches_at(tail, marker, i) {
            if is_structural_at(tail, m.as_slice(), i) {
                return Some(i);
            }
            i += m.len();
        } else {
            i += 1;
        }
    }
    None
}

fn earlier(a: Option<usize>, b: Option<usize>) -> (r: Option<usize>)
    ensures
        ({
            let x: Option<int> = match a {
                Some(i) => Some(i as int),
                None => None,
            };
            let y: Option<int> = match b {
                Some(i) => Some(i as int),
                None => None,
            };
            match r {
                Some(i) => least_of(x, y) == Some(i as int),
                None => least_of(x, y) is None,
            }
        }),
{
    match (a, b) {
        (Some(x), Some(y)) => if y < x {
            Some(y)
        } else {
            Some(x)
        },
        (None, _) => b,
        (_, None) => a,
    }
}

/// The first position in `tail` where a marker (not the end marker) opens a line
/// of its own.
pub fn find_structural_marker_boundary(tail: &[char]) -> (r: Option<usize>)
    ensures
        match r {
            Some(i) => first_structural_marker(tail@) == Some(i as int) && i < tail@.len(),
            None => first_structural_marker(tail@) is None,
        },
{
    proof {
        lemma_marker_lengths();
        lemma_first_structural(tail@);
    }
    let a: Option<usize> = find_structural(tail, BEGIN_PATCH_MARKER);
    let b: Option<usize> = earlier(a, find_structural(tail, ADD_FILE_MARKER));
    let c: Option<usize> = earlier(b, find_structural(tail, DELETE_FILE_MARKER));
    let d: Option<usize> = earlier(c, find_structural(tail, UPDATE_FILE_MARKER));
    let e: Option<usize> = earlier(d, find_structural(tail, MOVE_TO_MARKER));
    let f: Option<usize> = earlier(e, find_structural(tail, EOF_MARKER));
    let g: Option<usize> = earlier(f, find_structural(tail, CHANGE_CONTEXT_MARKER));
    earlier(g, find_structural(tail, EMPTY_CHANGE_CONTEXT_MARKER))
}

} // verus!
