//! Lines: splitting a text into lines, joining lines, and lists of texts.
use vstd::prelude::*;

use crate::text::{append_text, chars_of, copy_text, span, string_of};

verus! {

// ---------------------------------------------------------------------------
// Lists of texts
// ---------------------------------------------------------------------------
/// The texts that a list of character vectors holds.
pub open spec fn texts(v: Seq<Vec<char>>) -> Seq<Seq<char>> {
    Seq::new(v.len(), |i: int| v[i]@)
}

/// The texts that a list of strings holds.
pub open spec fn strings(v: Seq<String>) -> Seq<Seq<char>> {
    Seq::new(v.len(), |i: int| v[i]@)
}

/// The strings of a list as character vectors.
pub fn texts_of(v: &[String]) -> (r: Vec<Vec<char>>)
    ensures
        texts(r@) == strings(v@),
{
    let mut out: Vec<Vec<char>> = Vec::new();
    let mut i: usize = 0;
    while i < v.len()
        invariant
            i <= v@.len(),
            texts(out@) == strings(v@.take(i as int)),
        decreases v@.len() - i,
    {
        let ghost before = out@;
        out.push(chars_of(v[i].as_str()));
        assert(texts(out@) =~= texts(before).push(v@[i as int]@));
        assert(strings(v@.take(i + 1)) =~= strings(v@.take(i as int)).push(v@[i as int]@));
        i += 1;
    }
    assert(v@.take(v@.len() as int) =~= v@);
    out
}

/// The character vectors of a list as strings.
pub fn strings_of(v: &[Vec<char>]) -> (r: Vec<String>)
    ensures
        strings(r@) == texts(v@),
{
    let mut out: Vec<String> = Vec::new();
    let mut i: usize = 0;
    while i < v.len()
        invariant
            i <= v@.len(),
            strings(out@) == texts(v@.take(i as int)),
        decreases v@.len() - i,
    {
        let ghost before = out@;
        out.push(string_of(v[i].as_slice()));
        assert(strings(out@) =~= strings(before).push(v@[i as int]@));
        assert(texts(v@.take(i + 1)) =~= texts(v@.take(i as int)).push(v@[i as int]@));
        i += 1;
    }
    assert(v@.take(v@.len() as int) =~= v@);
    out
}

/// A list with the same texts.
pub fn copy_texts(v: &[Vec<char>]) -> (r: Vec<Vec<char>>)
    ensures
        texts(r@) == texts(v@),
{
    let mut out: Vec<Vec<char>> = Vec::new();
    let mut i: usize = 0;
    while i < v.len()
        invariant
            i <= v@.len(),
            texts(out@) == texts(v@.take(i as int)),
        decreases v@.len() - i,
    {
        let ghost before = out@;
        out.push(copy_text(v[i].as_slice()));
        assert(texts(out@) =~= texts(before).push(v@[i as int]@));
        assert(texts(v@.take(i + 1)) =~= texts(v@.take(i as int)).push(v@[i as int]@));
        i += 1;
    }
    assert(v@.take(v@.len() as int) =~= v@);
    out
}

pub proof fn lemma_texts_push(v: Seq<Vec<char>>, t: Vec<char>)
    ensures
        texts(v.push(t)) == texts(v).push(t@),
{
    assert(texts(v.push(t)) =~= texts(v).push(t@));
}

// ---------------------------------------------------------------------------
// Splitting
// ---------------------------------------------------------------------------
/// The first position at or after `i` that holds a line feed (or the end).
pub open spec fn line_end(s: Seq<char>, i: int) -> int
    decreases s.len() - i,
{
    if 0 <= i < s.len() && s[i] != '\n' {
        line_end(s, i + 1)
    } else {
        i
    }
}

/// A line without the carriage return that may stand before its line feed.
pub open spec fn without_cr(s: Seq<char>) -> Seq<char> {
    if s.len() > 0 && s.last() == '\r' {
        s.drop_last()
    } else {
        s
    }
}

/// The lines of `s` from position `i` on. A line ends at a line feed or at the
/// end of the text; a final line feed opens no further line.
pub open spec fn lines_from(s: Seq<char>, i: int) -> Seq<Seq<char>>
    decreases s.len() - i,
{
    if i < 0 || i >= s.len() {
        Seq::empty()
    } else {
        let e = line_end(s, i);
        proof {
            lemma_line_end(s, i);
        }
        if e >= s.len() {
            seq![s.subrange(i, s.len() as int)]
        } else {
            seq![without_cr(s.subrange(i, e))] + lines_from(s, e + 1)
        }
    }
}

/// The lines of a text.
pub open spec fn line_seq(s: Seq<char>) -> Seq<Seq<char>> {
    lines_from(s, 0)
}

/// The pieces of `s` between line feeds, from position `i` on. There is always
/// one piece more than there are line feeds.
pub open spec fn pieces_from(s: Seq<char>, i: int) -> Seq<Seq<char>>
    decreases s.len() - i,
{
    if i < 0 || i > s.len() {
        Seq::empty()
    } else {
        let e = line_end(s, i);
        proof {
            lemma_line_end(s, i);
        }
        if e >= s.len() {
            seq![s.subrange(i, s.len() as int)]
        } else {
            seq![s.subrange(i, e)] + pieces_from(s, e + 1)
        }
    }
}

/// The pieces of a text between its line feeds.
pub open spec fn piece_seq(s: Seq<char>) -> Seq<Seq<char>> {
    pieces_from(s, 0)
}

pub proof fn lemma_line_end(s: Seq<char>, i: int)
    requires
        0 <= i <= s.len(),
    ensures
        i <= line_end(s, i) <= s.len(),
        line_end(s, i) < s.len() ==> s[line_end(s, i)] == '\n',
        forall|k: int| i <= k < line_end(s, i) ==> s[k] != '\n',
    decreases s.len() - i,
{
    if i < s.len() && s[i] != '\n' {
        lemma_line_end(s, i + 1);
    }
}

/// No line holds a line feed.
pub proof fn lemma_lines_hold_no_feed(s: Seq<char>, i: int, k: int)
    requires
        0 <= i,
        0 <= k < lines_from(s, i).len(),
    ensures
        !lines_from(s, i)[k].contains('\n'),
    decreases s.len() - i,
{
    let e = line_end(s, i);
    lemma_line_end(s, i);
    if k == 0 {
    } else {
        assert(lines_from(s, i)[k] == lines_from(s, e + 1)[k - 1]);
        lemma_lines_hold_no_feed(s, e + 1, k - 1);
    }
}

/// Where the line that starts at `i` ends.
pub fn find_line_end(s: &[char], i: usize) -> (r: usize)
    requires
        i <= s@.len(),
    ensures
        r == line_end(s@, i as int),
        i <= r <= s@.len(),
{
    let mut k: usize = i;
    while k < s.len() && s[k] != '\n'
        invariant
            i <= k <= s@.len(),
            line_end(s@, i as int) == line_end(s@, k as int),
        decreases s@.len() - k,
    {
        k += 1;
    }
    k
}

/// The lines of a text, without their line ends.
pub fn split_lines(s: &[char]) -> (r: Vec<Vec<char>>)
    ensures
        texts(r@) == line_seq(s@),
{
    let mut out: Vec<Vec<char>> = Vec::new();
    let mut i: usize = 0;
    assert(texts(out@) + lines_from(s@, 0) =~= line_seq(s@));
    while i < s.len()
        invariant
            i <= s@.len(),
            texts(out@) + lines_from(s@, i as int) == line_seq(s@),
        decreases s@.len() - i,
    {
        let e: usize = find_line_end(s, i);
        let ghost before = out@;
        if e >= s.len() {
            let line: Vec<char> = copy_text(span(s, i, e));
            out.push(line);
            assert(texts(out@) =~= texts(before) + lines_from(s@, i as int));
            return out;
        }
        let stop: usize = if e > i && s[e - 1] == '\r' {
            e - 1
        } else {
            e
        };
        let line: Vec<char> = copy_text(span(s, i, stop));
        proof {
            if stop < e {
                assert(without_cr(s@.subrange(i as int, e as int)) =~= s@.subrange(
                    i as int,
                    stop as int,
                ));
            }
        }
        out.push(line);
        assert(texts(out@) + lines_from(s@, e + 1) =~= texts(before) + lines_from(s@, i as int));
        i = e + 1;
    }
    assert(texts(out@) =~= line_seq(s@));
    out
}

/// The pieces of a text between its line feeds.
pub fn split_pieces(s: &[char]) -> (r: Vec<Vec<char>>)
    ensures
        texts(r@) == piece_seq(s@),
        r@.len() > 0,
{
    let mut out: Vec<Vec<char>> = Vec::new();
    let mut i: usize = 0;
    assert(texts(out@) + pieces_from(s@, 0) =~= piece_seq(s@));
    loop
        invariant
            i <= s@.len(),
            texts(out@) + pieces_from(s@, i as int) == piece_seq(s@),
        decreases s@.len() - i,
    {
        let e: usize = find_line_end(s, i);
        let ghost before = out@;
        let piece: Vec<char> = copy_text(span(s, i, e));
        out.push(piece);
        if e >= s.len() {
            assert(texts(out@) =~= texts(before) + pieces_from(s@, i as int));
            return out;
        }
        assert(texts(out@) + pieces_from(s@, e + 1) =~= texts(before) + pieces_from(
            s@,
            i as int,
        ));
        i = e + 1;
    }
}

// ---------------------------------------------------------------------------
// Joining
// ---------------------------------------------------------------------------
/// The texts of a list, with a line feed between each two of them.
pub open spec fn joined(list: Seq<Seq<char>>) -> Seq<char>
    decreases list.len(),
{
    if list.len() == 0 {
        Seq::empty()
    } else if list.len() == 1 {
        list[0]
    } else {
        joined(list.drop_last()).push('\n') + list.last()
    }
}

/// The lines with a line feed between each two.
pub fn join_lines(list: &[Vec<char>]) -> (r: Vec<char>)
    ensures
        r@ == joined(texts(list@)),
{
    let mut out: Vec<char> = Vec::new();
    let mut i: usize = 0;
    while i < list.len()
        invariant
            i <= list@.len(),
            out@ == joined(texts(list@.take(i as int))),
        decreases list@.len() - i,
    {
        let ghost upto = texts(list@.take(i + 1));
        assert(upto.drop_last() =~= texts(list@.take(i as int)));
        if i > 0 {
            out.push('\n');
        }
        append_text(&mut out, list[i].as_slice());
        assert(out@ =~= joined(upto));
        i += 1;
    }
    assert(list@.take(list@.len() as int) =~= list@);
    out
}

/// The pieces of a text, joined again, are the text.
pub proof fn law_joining_pieces_restores_text(s: Seq<char>)
    ensures
        joined(piece_seq(s)) == s,
{
    lemma_join_pieces(s, 0);
    assert(s.subrange(0, s.len() as int) =~= s);
}

proof fn lemma_join_pieces(s: Seq<char>, i: int)
    requires
        0 <= i <= s.len(),
    ensures
        joined(pieces_from(s, i)) == s.subrange(i, s.len() as int),
        pieces_from(s, i).len() > 0,
    decreases s.len() - i,
{
    let e = line_end(s, i);
    lemma_line_end(s, i);
    if e < s.len() {
        lemma_join_pieces(s, e + 1);
        lemma_join_front(s.subrange(i, e), pieces_from(s, e + 1));
        assert(s.subrange(i, s.len() as int) =~= s.subrange(i, e).push('\n') + s.subrange(
            e + 1,
            s.len() as int,
        ));
    }
}

pub proof fn lemma_join_front(first: Seq<char>, rest: Seq<Seq<char>>)
    requires
        rest.len() > 0,
    ensures
        joined(seq![first] + rest) == first.push('\n') + joined(rest),
    decreases rest.len(),
{
    let all = seq![first] + rest;
    assert(all.last() == rest.last());
    if rest.len() == 1 {
        assert(all.drop_last() =~= seq![first]);
        assert(joined(all.drop_last()) == first);
        assert(joined(all) =~= first.push('\n') + rest[0]);
    } else {
        assert(all.drop_last() =~= seq![first] + rest.drop_last());
        lemma_join_front(first, rest.drop_last());
        assert(joined(all) =~= first.push('\n') + joined(rest));
    }
}

/// The lines, each with a line feed behind it.
pub open spec fn ended(list: Seq<Seq<char>>) -> Seq<char>
    decreases list.len(),
{
    if list.len() == 0 {
        Seq::empty()
    } else {
        ended(list.drop_last()) + list.last() + seq!['\n']
    }
}

pub proof fn lemma_ended_push(list: Seq<Seq<char>>, line: Seq<char>)
    ensures
        ended(list.push(line)) == ended(list) + line + seq!['\n'],
{
    assert(list.push(line).drop_last() =~= list);
}

pub proof fn lemma_ended_one(line: Seq<char>)
    ensures
        ended(seq![line]) == line + seq!['\n'],
{
    let none = Seq::<Seq<char>>::empty();
    assert(none.push(line) =~= seq![line]);
    lemma_ended_push(none, line);
    assert(ended(none) + line =~= line);
}

/// Appends a line and a line feed.
pub fn push_line(out: &mut Vec<char>, line: &[char])
    ensures
        final(out)@ == old(out)@ + ended(seq![line@]),
{
    append_text(out, line);
    out.push('\n');
    proof {
        lemma_ended_one(line@);
    }
    assert(out@ =~= old(out)@ + (line@ + seq!['\n']));
}

/// Appends lines, each with a line feed.
pub fn push_lines(out: &mut Vec<char>, list: &[Vec<char>])
    ensures
        final(out)@ == old(out)@ + ended(texts(list@)),
{
    let mut i: usize = 0;
    assert(texts(list@).take(0) =~= Seq::<Seq<char>>::empty());
    while i < list.len()
        invariant
            i <= list@.len(),
            out@ == old(out)@ + ended(texts(list@).take(i as int)),
        decreases list@.len() - i,
    {
        push_line(out, list[i].as_slice());
        proof {
            let t = texts(list@);
            lemma_ended_push(t.take(i as int), t[i as int]);
            lemma_ended_one(t[i as int]);
            assert(t.take(i as int).push(t[i as int]) =~= t.take(i + 1));
            assert(out@ =~= old(out)@ + ended(t.take(i + 1)));
        }
        i += 1;
    }
    assert(texts(list@).take(list@.len() as int) =~= texts(list@));
}

} // verus!
