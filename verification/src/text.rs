//! Text as a sequence of characters.
//!
//! Patches, source files and paths are handled as slices of `char`. This module
//! says what trimming, searching, splitting into lines and joining mean on
//! `Seq<char>`, and implements each of them on `&[char]`.
use vstd::prelude::*;

verus! {

/// `String::push` appends one character.
pub assume_specification [String::push](s: &mut String, c: char)
    ensures
        final(s)@ == old(s)@.push(c),
;

// ---------------------------------------------------------------------------
// Characters
// ---------------------------------------------------------------------------
/// The characters with the Unicode property `White_Space`.
pub open spec fn is_white(c: char) -> bool {
    ||| '\u{9}' <= c && c <= '\u{d}'
    ||| c == ' '
    ||| c == '\u{85}'
    ||| c == '\u{a0}'
    ||| c == '\u{1680}'
    ||| '\u{2000}' <= c && c <= '\u{200a}'
    ||| c == '\u{2028}'
    ||| c == '\u{2029}'
    ||| c == '\u{202f}'
    ||| c == '\u{205f}'
    ||| c == '\u{3000}'
}

/// ASCII white space: space, tab, line feed, form feed and carriage return.
pub open spec fn is_ascii_white(c: char) -> bool {
    c == ' ' || c == '\t' || c == '\n' || c == '\u{c}' || c == '\r'
}

pub open spec fn is_digit(c: char) -> bool {
    '0' <= c && c <= '9'
}

pub open spec fn is_letter(c: char) -> bool {
    ('a' <= c && c <= 'z') || ('A' <= c && c <= 'Z')
}

pub open spec fn is_ascii_char(c: char) -> bool {
    c <= '\u{7f}'
}

/// Whether `c` is a Unicode white space character.
pub fn is_whitespace(c: char) -> (r: bool)
    ensures
        r == is_white(c),
{
    ('\u{9}' <= c && c <= '\u{d}') || c == ' ' || c == '\u{85}' || c == '\u{a0}' || c == '\u{1680}'
        || ('\u{2000}' <= c && c <= '\u{200a}') || c == '\u{2028}' || c == '\u{2029}' || c
        == '\u{202f}' || c == '\u{205f}' || c == '\u{3000}'
}

/// Whether `c` is an ASCII white space character.
pub fn is_ascii_whitespace(c: char) -> (r: bool)
    ensures
        r == is_ascii_white(c),
{
    c == ' ' || c == '\t' || c == '\n' || c == '\u{c}' || c == '\r'
}

/// Whether `c` is an ASCII digit.
pub fn is_ascii_digit(c: char) -> (r: bool)
    ensures
        r == is_digit(c),
{
    '0' <= c && c <= '9'
}

/// Whether `c` is an ASCII letter.
pub fn is_ascii_letter(c: char) -> (r: bool)
    ensures
        r == is_letter(c),
{
    ('a' <= c && c <= 'z') || ('A' <= c && c <= 'Z')
}

// ---------------------------------------------------------------------------
// Strings and characters
// ---------------------------------------------------------------------------
/// The characters of a string.
pub fn chars_of(s: &str) -> (r: Vec<char>)
    ensures
        r@ == s@,
{
    let mut v: Vec<char> = Vec::new();
    for c in it: s.chars()
        invariant
            v@ == it.seq().take(it.index() as int),
            it.seq() == s@,
    {
        v.push(c);
    }
    v
}

/// The string with the given characters.
pub fn string_of(s: &[char]) -> (r: String)
    ensures
        r@ == s@,
{
    let mut out: String = String::new();
    let mut i: usize = 0;
    while i < s.len()
        invariant
            i <= s@.len(),
            out@ == s@.take(i as int),
        decreases s@.len() - i,
    {
        out.push(s[i]);
        assert(s@.take(i as int + 1) == s@.take(i as int).push(s@[i as int]));
        i += 1;
    }
    assert(s@.take(s@.len() as int) == s@);
    out
}

/// Appends `s` to `out`.
pub fn append_text(out: &mut Vec<char>, s: &[char])
    ensures
        final(out)@ == old(out)@ + s@,
{
    let mut i: usize = 0;
    while i < s.len()
        invariant
            i <= s@.len(),
            out@ == old(out)@ + s@.take(i as int),
        decreases s@.len() - i,
    {
        out.push(s[i]);
        assert(old(out)@ + s@.take(i as int + 1) == (old(out)@ + s@.take(i as int)).push(
            s@[i as int],
        ));
        i += 1;
    }
    assert(s@.take(s@.len() as int) == s@);
}

/// Appends the characters of a string to `out`.
pub fn append_str(out: &mut Vec<char>, s: &str)
    ensures
        final(out)@ == old(out)@ + s@,
{
    for c in it: s.chars()
        invariant
            out@ == old(out)@ + it.seq().take(it.index() as int),
            it.seq() == s@,
    {
        out.push(c);
        assert(it.seq().take(it.index() as int + 1) == it.seq().take(it.index() as int).push(c));
    }
    assert(s@.take(s@.len() as int) == s@);
}

/// A vector with the characters of `s`.
pub fn copy_text(s: &[char]) -> (r: Vec<char>)
    ensures
        r@ == s@,
{
    let mut out: Vec<char> = Vec::new();
    append_text(&mut out, s);
    assert(Seq::<char>::empty() + s@ == s@);
    out
}

/// The characters of `s` from `from` up to `to`.
pub fn span(s: &[char], from: usize, to: usize) -> (r: &[char])
    requires
        from <= to <= s@.len(),
    ensures
        r@ == s@.subrange(from as int, to as int),
{
    vstd::slice::slice_subrange(s, from, to)
}

/// Whether two texts are the same.
pub fn same_text(a: &[char], b: &[char]) -> (r: bool)
    ensures
        r == (a@ == b@),
{
    if a.len() != b.len() {
        return false;
    }
    let mut i: usize = 0;
    while i < a.len()
        invariant
            i <= a@.len(),
            a@.len() == b@.len(),
            forall|k: int| 0 <= k < i ==> a@[k] == b@[k],
        decreases a@.len() - i,
    {
        if a[i] != b[i] {
            return false;
        }
        i += 1;
    }
    assert(a@ =~= b@);
    true
}

// ---------------------------------------------------------------------------
// Searching
// ---------------------------------------------------------------------------
/// `p` stands in `s` at position `i`.
pub open spec fn occurs_at(s: Seq<char>, p: Seq<char>, i: int) -> bool {
    0 <= i && i + p.len() <= s.len() && s.subrange(i, i + p.len()) == p
}

pub open spec fn has_prefix(s: Seq<char>, p: Seq<char>) -> bool {
    occurs_at(s, p, 0)
}

pub open spec fn has_suffix(s: Seq<char>, p: Seq<char>) -> bool {
    occurs_at(s, p, s.len() - p.len())
}

pub open spec fn contains_text(s: Seq<char>, p: Seq<char>) -> bool {
    exists|i: int| #[trigger] occurs_at(s, p, i)
}

/// The first position at or after `i` where `p` stands in `s`.
pub open spec fn find_from(s: Seq<char>, p: Seq<char>, i: int) -> Option<int>
    decreases s.len() + 1 - i,
{
    if i < 0 || i > s.len() {
        None
    } else if occurs_at(s, p, i) {
        Some(i)
    } else {
        find_from(s, p, i + 1)
    }
}

/// The first position where `p` stands in `s`.
pub open spec fn find_text(s: Seq<char>, p: Seq<char>) -> Option<int> {
    find_from(s, p, 0)
}

/// `find_from` gives the least position.
pub proof fn lemma_find_from(s: Seq<char>, p: Seq<char>, i: int)
    requires
        0 <= i,
    ensures
        match find_from(s, p, i) {
            Some(k) => i <= k && occurs_at(s, p, k) && forall|j: int|
                i <= j < k ==> !#[trigger] occurs_at(s, p, j),
            None => forall|j: int| i <= j ==> !#[trigger] occurs_at(s, p, j),
        },
    decreases s.len() + 1 - i,
{
    if i <= s.len() && !occurs_at(s, p, i) {
        lemma_find_from(s, p, i + 1);
    }
}

/// A text is contained in another exactly where it can be found.
pub proof fn lemma_contains_is_found(s: Seq<char>, p: Seq<char>)
    ensures
        contains_text(s, p) == find_text(s, p).is_some(),
{
    lemma_find_from(s, p, 0);
}

/// Whether the string `p` stands in `s` at position `i`.
pub fn matches_at(s: &[char], p: &str, i: usize) -> (r: bool)
    requires
        i <= s@.len(),
    ensures
        r == occurs_at(s@, p@, i as int),
{
    let mut k: usize = i;
    for c in it: p.chars()
        invariant
            it.seq() == p@,
            k == i + it.index(),
            i <= k <= s@.len(),
            forall|j: int| i <= j < k ==> s@[j] == p@[j - i],
    {
        if k >= s.len() || s[k] != c {
            assert(p@[k - i] == c);
            assert(!occurs_at(s@, p@, i as int)) by {
                if occurs_at(s@, p@, i as int) {
                    assert(s@.subrange(i as int, i + p@.len())[k - i] == s@[k as int]);
                }
            }
            return false;
        }
        k += 1;
    }
    assert(s@.subrange(i as int, i + p@.len()) =~= p@);
    true
}

/// Whether `s` starts with the string `p`.
pub fn starts_with(s: &[char], p: &str) -> (r: bool)
    ensures
        r == has_prefix(s@, p@),
{
    matches_at(s, p, 0)
}

/// Whether the characters of `s` are those of the string `p`.
pub fn text_is(s: &[char], p: &str) -> (r: bool)
    ensures
        r == (s@ == p@),
{
    let v: Vec<char> = chars_of(p);
    same_text(s, v.as_slice())
}

/// Whether `s` ends with the string `p`.
pub fn ends_with(s: &[char], p: &str) -> (r: bool)
    ensures
        r == has_suffix(s@, p@),
{
    let v: Vec<char> = chars_of(p);
    if v.len() > s.len() {
        return false;
    }
    let from: usize = s.len() - v.len();
    same_text(span(s, from, s.len()), v.as_slice())
}

/// The first position where the string `p` stands in `s`.
pub fn find(s: &[char], p: &str) -> (r: Option<usize>)
    ensures
        match r {
            Some(i) => find_text(s@, p@) == Some(i as int),
            None => find_text(s@, p@) is None,
        },
{
    let mut i: usize = 0;
    loop
        invariant
            i <= s@.len(),
            find_text(s@, p@) == find_from(s@, p@, i as int),
        decreases s@.len() - i,
    {
        if matches_at(s, p, i) {
            return Some(i);
        }
        if i == s.len() {
            assert(find_from(s@, p@, i + 1) is None);
            return None;
        }
        i += 1;
    }
}

/// Whether the string `p` stands in `s`.
pub fn contains(s: &[char], p: &str) -> (r: bool)
    ensures
        r == contains_text(s@, p@),
{
    proof {
        lemma_contains_is_found(s@, p@);
    }
    find(s, p).is_some()
}

/// Whether `s` holds the character `c`.
pub fn has_char(s: &[char], c: char) -> (r: bool)
    ensures
        r == s@.contains(c),
{
    let mut i: usize = 0;
    while i < s.len()
        invariant
            i <= s@.len(),
            forall|k: int| 0 <= k < i ==> s@[k] != c,
        decreases s@.len() - i,
    {
        if s[i] == c {
            return true;
        }
        i += 1;
    }
    false
}

/// The last position before `n` where `c` stands in `s`.
pub open spec fn last_before(s: Seq<char>, c: char, n: int) -> Option<int>
    decreases n,
{
    if n <= 0 {
        None
    } else if s[n - 1] == c {
        Some(n - 1)
    } else {
        last_before(s, c, n - 1)
    }
}

/// The last position where `c` stands in `s`.
pub open spec fn last_char_index(s: Seq<char>, c: char) -> Option<int> {
    last_before(s, c, s.len() as int)
}

pub proof fn lemma_last_before(s: Seq<char>, c: char, n: int)
    requires
        0 <= n <= s.len(),
    ensures
        match last_before(s, c, n) {
            Some(k) => 0 <= k < n && s[k] == c && forall|j: int| k < j < n ==> s[j] != c,
            None => forall|j: int| 0 <= j < n ==> s[j] != c,
        },
    decreases n,
{
    if n > 0 && s[n - 1] != c {
        lemma_last_before(s, c, n - 1);
    }
}

/// The last position of `c` in `s`.
pub fn rfind_char(s: &[char], c: char) -> (r: Option<usize>)
    ensures
        match r {
            Some(i) => last_char_index(s@, c) == Some(i as int) && i < s@.len(),
            None => last_char_index(s@, c) is None,
        },
{
    let mut n: usize = s.len();
    while n > 0
        invariant
            n <= s@.len(),
            last_char_index(s@, c) == last_before(s@, c, n as int),
        decreases n,
    {
        if s[n - 1] == c {
            return Some(n - 1);
        }
        n -= 1;
    }
    None
}

// ---------------------------------------------------------------------------
// Trimming
// ---------------------------------------------------------------------------
/// The first position at or after `i` that holds no white space (or the end).
pub open spec fn skip_white(s: Seq<char>, i: int) -> int
    decreases s.len() - i,
{
    if 0 <= i < s.len() && is_white(s[i]) {
        skip_white(s, i + 1)
    } else {
        i
    }
}

/// The first position at or after `i` that holds no ASCII white space (or the end).
pub open spec fn skip_ascii_white(s: Seq<char>, i: int) -> int
    decreases s.len() - i,
{
    if 0 <= i < s.len() && is_ascii_white(s[i]) {
        skip_ascii_white(s, i + 1)
    } else {
        i
    }
}

/// The length of `s.take(n)` without the white space at its end.
pub open spec fn drop_white(s: Seq<char>, n: int) -> int
    decreases n,
{
    if 0 < n <= s.len() && is_white(s[n - 1]) {
        drop_white(s, n - 1)
    } else {
        n
    }
}

pub open spec fn trimmed_start(s: Seq<char>) -> Seq<char> {
    s.subrange(skip_white(s, 0), s.len() as int)
}

pub open spec fn trimmed_end(s: Seq<char>) -> Seq<char> {
    s.subrange(0, drop_white(s, s.len() as int))
}

pub open spec fn trimmed(s: Seq<char>) -> Seq<char> {
    trimmed_end(trimmed_start(s))
}

/// A text of white space only.
pub open spec fn is_blank_text(s: Seq<char>) -> bool {
    trimmed(s).len() == 0
}

pub proof fn lemma_skip_white(s: Seq<char>, i: int)
    requires
        0 <= i <= s.len(),
    ensures
        i <= skip_white(s, i) <= s.len(),
        forall|k: int| i <= k < skip_white(s, i) ==> is_white(s[k]),
        skip_white(s, i) < s.len() ==> !is_white(s[skip_white(s, i)]),
    decreases s.len() - i,
{
    if i < s.len() && is_white(s[i]) {
        lemma_skip_white(s, i + 1);
    }
}

pub proof fn lemma_skip_ascii_white(s: Seq<char>, i: int)
    requires
        0 <= i <= s.len(),
    ensures
        i <= skip_ascii_white(s, i) <= s.len(),
        forall|k: int| i <= k < skip_ascii_white(s, i) ==> is_ascii_white(s[k]),
        skip_ascii_white(s, i) < s.len() ==> !is_ascii_white(s[skip_ascii_white(s, i)]),
    decreases s.len() - i,
{
    if i < s.len() && is_ascii_white(s[i]) {
        lemma_skip_ascii_white(s, i + 1);
    }
}

pub proof fn lemma_drop_white(s: Seq<char>, n: int)
    requires
        0 <= n <= s.len(),
    ensures
        0 <= drop_white(s, n) <= n,
        forall|k: int| drop_white(s, n) <= k < n ==> is_white(s[k]),
        drop_white(s, n) > 0 ==> !is_white(s[drop_white(s, n) - 1]),
    decreases n,
{
    if n > 0 && is_white(s[n - 1]) {
        lemma_drop_white(s, n - 1);
    }
}

/// What trimming leaves: nothing but white space is dropped, and no white space
/// is left at the trimmed side.
pub proof fn lemma_trimmed_start(s: Seq<char>)
    ensures
        trimmed_start(s).len() <= s.len(),
        0 <= skip_white(s, 0) <= s.len(),
        trimmed_start(s).len() > 0 ==> !is_white(trimmed_start(s)[0]),
        trimmed_start(s) == s.skip(skip_white(s, 0)),
        forall|k: int| 0 <= k < s.len() - trimmed_start(s).len() ==> is_white(s[k]),
{
    lemma_skip_white(s, 0);
    assert(trimmed_start(s) =~= s.skip(skip_white(s, 0)));
}

pub proof fn lemma_trimmed_end(s: Seq<char>)
    ensures
        trimmed_end(s).len() <= s.len(),
        trimmed_end(s).len() > 0 ==> !is_white(trimmed_end(s).last()) && trimmed_end(s)[0] == s[0],
        trimmed_end(s) == s.take(trimmed_end(s).len() as int),
        s.len() > 0 && !is_white(s[0]) ==> trimmed_end(s).len() > 0,
        s.len() > 0 && !is_white(s.last()) ==> trimmed_end(s) == s,
        forall|k: int| trimmed_end(s).len() <= k < s.len() ==> is_white(s[k]),
{
    lemma_drop_white(s, s.len() as int);
    assert(trimmed_end(s) =~= s.take(trimmed_end(s).len() as int));
    if s.len() > 0 && !is_white(s.last()) {
        assert(trimmed_end(s) =~= s);
    }
}

/// A text is blank exactly where trimming its start leaves nothing.
pub proof fn lemma_blank(s: Seq<char>)
    ensures
        is_blank_text(s) == (trimmed_start(s).len() == 0),
        is_blank_text(s) == (forall|k: int| 0 <= k < s.len() ==> is_white(s[k])),
{
    lemma_trimmed_start(s);
    lemma_trimmed_end(trimmed_start(s));
    lemma_skip_white(s, 0);
    if trimmed_start(s).len() > 0 {
        assert(!is_white(s[skip_white(s, 0)]));
    }
}

/// `s` without the white space at its start.
pub fn trim_start(s: &[char]) -> (r: &[char])
    ensures
        r@ == trimmed_start(s@),
{
    let mut i: usize = 0;
    while i < s.len() && is_whitespace(s[i])
        invariant
            i <= s@.len(),
            skip_white(s@, 0) == skip_white(s@, i as int),
        decreases s@.len() - i,
    {
        i += 1;
    }
    span(s, i, s.len())
}

/// `s` without the white space at its end.
pub fn trim_end(s: &[char]) -> (r: &[char])
    ensures
        r@ == trimmed_end(s@),
{
    let mut n: usize = s.len();
    while n > 0 && is_whitespace(s[n - 1])
        invariant
            n <= s@.len(),
            drop_white(s@, s@.len() as int) == drop_white(s@, n as int),
        decreases n,
    {
        n -= 1;
    }
    span(s, 0, n)
}

/// `s` without the white space at its ends.
pub fn trim(s: &[char]) -> (r: &[char])
    ensures
        r@ == trimmed(s@),
{
    trim_end(trim_start(s))
}

/// Whether `s` holds nothing but white space.
pub fn is_blank(s: &[char]) -> (r: bool)
    ensures
        r == is_blank_text(s@),
{
    trim(s).len() == 0
}

/// The first position at or after `i` that holds no ASCII white space.
pub fn skip_ascii_whitespace(s: &[char], i: usize) -> (r: usize)
    requires
        i <= s@.len(),
    ensures
        r == skip_ascii_white(s@, i as int),
        i <= r <= s@.len(),
{
    let mut k: usize = i;
    while k < s.len() && is_ascii_whitespace(s[k])
        invariant
            i <= k <= s@.len(),
            skip_ascii_white(s@, i as int) == skip_ascii_white(s@, k as int),
        decreases s@.len() - k,
    {
        k += 1;
    }
    k
}

// ---------------------------------------------------------------------------
// Numbers and replacement
// ---------------------------------------------------------------------------
/// The digit for a number below ten.
pub open spec fn digit(d: int) -> char {
    if d == 0 {
        '0'
    } else if d == 1 {
        '1'
    } else if d == 2 {
        '2'
    } else if d == 3 {
        '3'
    } else if d == 4 {
        '4'
    } else if d == 5 {
        '5'
    } else if d == 6 {
        '6'
    } else if d == 7 {
        '7'
    } else if d == 8 {
        '8'
    } else {
        '9'
    }
}

/// A number in decimal notation.
pub open spec fn decimal(n: nat) -> Seq<char>
    decreases n,
{
    if n < 10 {
        seq![digit(n as int)]
    } else {
        decimal(n / 10).push(digit((n % 10) as int))
    }
}

fn digit_char(d: u128) -> (r: char)
    requires
        d < 10,
    ensures
        r == digit(d as int),
{
    match d {
        0 => '0',
        1 => '1',
        2 => '2',
        3 => '3',
        4 => '4',
        5 => '5',
        6 => '6',
        7 => '7',
        8 => '8',
        _ => '9',
    }
}

/// A number in decimal notation.
pub fn decimal_text(n: u128) -> (r: Vec<char>)
    ensures
        r@ == decimal(n as nat),
    decreases n,
{
    if n < 10 {
        let mut out: Vec<char> = Vec::new();
        out.push(digit_char(n));
        assert(out@ =~= seq![digit(n as int)]);
        out
    } else {
        let mut out: Vec<char> = decimal_text(n / 10);
        out.push(digit_char(n % 10));
        out
    }
}

/// `s` from position `i` on, with every occurrence of `p` replaced by `c`.
pub open spec fn replaced_from(s: Seq<char>, p: Seq<char>, c: char, i: int) -> Seq<char>
    decreases s.len() - i,
{
    if i < 0 || i >= s.len() {
        Seq::empty()
    } else if p.len() > 0 && occurs_at(s, p, i) {
        seq![c] + replaced_from(s, p, c, i + p.len())
    } else {
        seq![s[i]] + replaced_from(s, p, c, i + 1)
    }
}

/// `s` with every occurrence of `p` replaced by `c`, from left to right.
pub open spec fn replaced(s: Seq<char>, p: Seq<char>, c: char) -> Seq<char> {
    replaced_from(s, p, c, 0)
}

/// Replaces every occurrence of a text by a character.
pub fn replace(s: &[char], p: &str, c: char) -> (r: Vec<char>)
    requires
        p@.len() > 0,
    ensures
        r@ == replaced(s@, p@, c),
{
    let n: usize = chars_of(p).len();
    let total: usize = s.len();
    let mut out: Vec<char> = Vec::new();
    let mut i: usize = 0;
    assert(out@ + replaced_from(s@, p@, c, 0) =~= replaced(s@, p@, c));
    while i < total
        invariant
            n == p@.len(),
            n > 0,
            i <= total,
            total == s@.len(),
            out@ + replaced_from(s@, p@, c, i as int) == replaced(s@, p@, c),
        decreases total - i,
    {
        let ghost before = out@;
        if matches_at(s, p, i) {
            out.push(c);
            assert(out@ + replaced_from(s@, p@, c, i + n) =~= before + replaced_from(
                s@,
                p@,
                c,
                i as int,
            ));
            i += n;
        } else {
            out.push(s[i]);
            assert(out@ + replaced_from(s@, p@, c, i + 1) =~= before + replaced_from(
                s@,
                p@,
                c,
                i as int,
            ));
            i += 1;
        }
    }
    assert(out@ =~= replaced(s@, p@, c));
    out
}

/// Three texts, one behind the other.
pub fn concat3(a: &str, b: &[char], c: &str) -> (r: String)
    ensures
        r@ == a@ + b@ + c@,
{
    let mut out: Vec<char> = chars_of(a);
    append_text(&mut out, b);
    append_str(&mut out, c);
    string_of(out.as_slice())
}

} // verus!
