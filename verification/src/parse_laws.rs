//! What holds of parsing as a whole.
use vstd::prelude::*;

use crate::lines::{
    joined, lemma_join_front, lemma_line_end, lemma_lines_hold_no_feed, line_end, line_seq,
    lines_from,
};
use crate::markers::BEGIN_PATCH_MARKER;
use crate::parser::{
    before_feeds, is_heredoc, lemma_boundaries, normalized, parse_in_mode, parse_text,
    trimmed_lines, ParseErrorModel, ParseMode, PatchModel,
};
use crate::repair::needs_repair;
use crate::text::{
    has_suffix, is_white, lemma_trimmed_end, lemma_trimmed_start, skip_white, trimmed,
    trimmed_start,
};

verus! {

/// In lenient mode the lines of a here document, trimmed, are the lines of the patch.
pub proof fn law_heredoc_is_stripped(open: Seq<char>, inner: Seq<Seq<char>>, close: Seq<char>)
    requires
        open == "<<EOF"@ || open == "<<'EOF'"@ || open == "<<\"EOF\""@,
        has_suffix(close, "EOF"@),
        inner.len() >= 2,
    ensures
        ({
            let lines = seq![open] + inner + seq![close];
            parse_in_mode(lines, ParseMode::Lenient) == parse_in_mode(
                trimmed_lines(inner),
                ParseMode::Strict,
            )
        }),
{
    let lines = seq![open] + inner + seq![close];
    reveal_strlit("<<EOF");
    reveal_strlit("<<'EOF'");
    reveal_strlit("<<\"EOF\"");
    reveal_strlit("*** Begin Patch");
    lemma_trimmed_start(open);
    lemma_trimmed_end(trimmed_start(open));
    assert(trimmed(open).len() <= open.len() < BEGIN_PATCH_MARKER@.len());
    assert(lines.subrange(1, lines.len() - 1) =~= inner);
    assert(is_heredoc(lines));
}

/// A patch that is valid as it stands and needs no repair is the same patch in
/// both modes.
pub proof fn law_valid_patch_is_left_alone(patch: Seq<char>)
    requires
        parse_text(patch, ParseMode::Strict) is Ok,
        !needs_repair(normalized(patch)),
    ensures
        parse_text(patch, ParseMode::Lenient) == parse_text(patch, ParseMode::Strict),
{
}

// ---------------------------------------------------------------------------
// The text of a parsed patch
// ---------------------------------------------------------------------------
proof fn lemma_line_end_shift(a: Seq<char>, b: Seq<char>, i: int)
    requires
        0 <= i <= b.len(),
    ensures
        line_end(a + b, a.len() + i) == a.len() + line_end(b, i),
    decreases b.len() - i,
{
    if i < b.len() {
        assert((a + b)[a.len() + i] == b[i]);
        if b[i] != '\n' {
            lemma_line_end_shift(a, b, i + 1);
        }
    }
}

/// The lines behind a text are those of what follows it.
pub proof fn lemma_lines_shift(a: Seq<char>, b: Seq<char>, i: int)
    requires
        0 <= i <= b.len(),
    ensures
        lines_from(a + b, a.len() + i) == lines_from(b, i),
    decreases b.len() - i,
{
    if i < b.len() {
        let e = line_end(b, i);
        lemma_line_end(b, i);
        lemma_line_end_shift(a, b, i);
        let s = a + b;
        if e >= b.len() {
            assert(s.subrange(a.len() + i, s.len() as int) =~= b.subrange(i, b.len() as int));
        } else {
            assert(s.subrange(a.len() + i, a.len() + e) =~= b.subrange(i, e));
            lemma_lines_shift(a, b, e + 1);
        }
    }
}

/// Lines that can be told apart again once they are joined: none holds a line
/// feed or ends with a carriage return, and the last one is not empty.
pub open spec fn separable(lines: Seq<Seq<char>>) -> bool {
    &&& lines.len() > 0 && lines.last().len() > 0
    &&& forall|i: int|
        0 <= i < lines.len() ==> !(#[trigger] lines[i]).contains('\n') && (lines[i].len() > 0
            ==> lines[i].last() != '\r')
}

/// Joining lines and splitting them again gives the lines.
pub proof fn law_joined_lines_split_again(lines: Seq<Seq<char>>)
    requires
        separable(lines),
    ensures
        line_seq(joined(lines)) == lines,
    decreases lines.len(),
{
    let first = lines[0];
    assert(!first.contains('\n'));
    let text = joined(lines);
    lemma_line_end(text, 0);
    let e = line_end(text, 0);
    if lines.len() == 1 {
        if e < text.len() {
            assert(first.contains(text[e]));
        }
        assert(text.subrange(0, text.len() as int) =~= first);
        assert(line_seq(text) =~= lines);
    } else {
        let rest = lines.skip(1);
        assert(lines =~= seq![first] + rest);
        lemma_join_front(first, rest);
        assert(rest.last() == lines.last());
        assert forall|i: int| 0 <= i < rest.len() implies !(#[trigger] rest[i]).contains('\n') && (
        rest[i].len() > 0 ==> rest[i].last() != '\r') by {
            assert(rest[i] == lines[i + 1]);
        }
        law_joined_lines_split_again(rest);
        let head = first.push('\n');
        assert(text == head + joined(rest));
        assert(text[first.len() as int] == '\n');
        if e < first.len() {
            assert(first[e] == text[e]);
            assert(first.contains('\n'));
        }
        assert(e == first.len());
        assert(text.subrange(0, e) =~= first);
        lemma_lines_shift(head, joined(rest), 0);
        assert(line_seq(text) =~= lines);
    }
}

proof fn lemma_last_line(s: Seq<char>, i: int)
    requires
        0 <= i < s.len(),
        s.last() != '\n',
    ensures
        lines_from(s, i).len() > 0,
        lines_from(s, i).last().len() > 0,
        lines_from(s, i).last().last() == s.last(),
    decreases s.len() - i,
{
    let e = line_end(s, i);
    lemma_line_end(s, i);
    if e < s.len() {
        lemma_last_line(s, e + 1);
        assert(lines_from(s, i).last() == lines_from(s, e + 1).last());
    }
}

proof fn lemma_first_line(s: Seq<char>)
    requires
        s.len() > 0,
        !is_white(s[0]),
    ensures
        line_seq(s).len() > 0,
        line_seq(s)[0].len() > 0,
        line_seq(s)[0][0] == s[0],
{
    lemma_line_end(s, 0);
    let e = line_end(s, 0);
    assert(s[0] != '\n' && s[0] != '\r');
    if e < s.len() {
        assert(e > 0);
        assert(s.subrange(0, e)[0] == s[0]);
    }
}

pub proof fn lemma_joined_ends(lines: Seq<Seq<char>>)
    requires
        lines.len() > 0,
        lines[0].len() > 0,
        lines.last().len() > 0,
    ensures
        joined(lines).len() > 0,
        joined(lines)[0] == lines[0][0],
        joined(lines).last() == lines.last().last(),
        lines.len() > 1 ==> joined(lines).contains('\n'),
{
    if lines.len() > 1 {
        let rest = lines.skip(1);
        assert(lines =~= seq![lines[0]] + rest);
        lemma_join_front(lines[0], rest);
        let text = joined(lines);
        assert(text == lines[0].push('\n') + joined(rest));
        assert(text[lines[0].len() as int] == '\n');
        assert(text == joined(lines.drop_last()).push('\n') + lines.last());
        assert(text.last() == lines.last().last());
    }
}

/// A text without white space at its ends is its own trimmed text.
pub proof fn lemma_tight_text(s: Seq<char>)
    requires
        s.len() > 0,
        !is_white(s[0]),
        !is_white(s.last()),
    ensures
        trimmed(s) == s,
{
    assert(skip_white(s, 0) == 0);
    assert(trimmed_start(s) =~= s);
    lemma_trimmed_end(s);
}

/// The text that a parsed patch carries is a patch with the same hunks. (A line
/// that ends with a carriage return after its line end was taken off would lose
/// it.)
pub proof fn law_parsed_patch_parses_again(patch: Seq<char>)
    requires
        parse_text(patch, ParseMode::Strict) is Ok,
        forall|i: int|
            0 <= i < line_seq(trimmed(normalized(patch))).len() ==> {
                let line = #[trigger] line_seq(trimmed(normalized(patch)))[i];
                line.len() > 0 ==> line.last() != '\r'
            },
    ensures
        ({
            let args = parse_text(patch, ParseMode::Strict)->Ok_0;
            parse_text(args.patch, ParseMode::Strict) == Ok::<PatchModel, ParseErrorModel>(args)
        }),
{
    let t = trimmed(normalized(patch));
    let lines = line_seq(t);
    lemma_boundaries(lines);
    lemma_trimmed_start(normalized(patch));
    lemma_trimmed_end(trimmed_start(normalized(patch)));
    if t.len() == 0 {
        assert(lines.len() == 0);
    }
    assert(!is_white(t[0]) && !is_white(t.last()));
    lemma_first_line(t);
    lemma_last_line(t, 0);
    assert(separable(lines)) by {
        assert forall|i: int| 0 <= i < lines.len() implies !(#[trigger] lines[i]).contains('\n')
            && (lines[i].len() > 0 ==> lines[i].last() != '\r') by {
            lemma_lines_hold_no_feed(t, 0, i);
        }
    }
    law_joined_lines_split_again(lines);
    lemma_joined_ends(lines);
    let text = joined(lines);
    lemma_tight_text(text);
    assert(before_feeds(text, text.len() as int) == text.len());
    assert(text.take(text.len() as int) =~= text);
    assert(normalized(text) == text);
}

} // verus!
