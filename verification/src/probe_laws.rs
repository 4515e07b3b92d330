//! What the probes of a text tell.
//!
//! A line is written as pieces of code with strings between them and, at its end, a
//! comment. The delimiters in its code are nested or not, whatever stands in its strings
//! and in its comment.
use vstd::prelude::*;

use crate::bytes::byte_len;
use crate::lines::line_seq;
use crate::robustness::{
    balance, closer, comment_start, conflict_issue, conflict_issues, conflicts_upto,
    delimiter_issues, delimiter_step, diff_mark_issue, diff_mark_issues, diff_marks_upto,
    is_code, line_balance, line_state, opener, partner, probe_issues, unclosed, BalanceModel,
    IssueModel, LineState,
};
use crate::text::{decimal, find_text, is_white, lemma_find_from, occurs_at, trimmed};

verus! {

// ---------------------------------------------------------------------------
// Written lines
// ---------------------------------------------------------------------------
/// Code, and the string behind it.
#[verifier::ext_equal]
pub ghost struct CodeAndString {
    pub code: Seq<char>,
    pub quote: char,
    pub string: Seq<char>,
}

/// A line of a program.
#[verifier::ext_equal]
pub ghost struct WrittenLine {
    pub parts: Seq<CodeAndString>,
    pub code: Seq<char>,
    /// What starts with `#` or `//`, up to the end of the line.
    pub comment: Seq<char>,
}

/// Code that starts neither a string nor a comment.
pub open spec fn is_bare(code: Seq<char>) -> bool {
    forall|i: int|
        0 <= i < code.len() ==> (#[trigger] code[i]) != '"' && code[i] != '\'' && code[i] != '`'
            && code[i] != '#' && code[i] != '/'
}

/// The quote ends the string, and no quote before it does.
pub open spec fn is_string(quote: char, string: Seq<char>) -> bool {
    &&& quote == '"' || quote == '\'' || quote == '`'
    &&& string.len() > 0 ==> string.last() != '\\'
    &&& forall|i: int|
        0 <= i < string.len() && #[trigger] string[i] == quote ==> i > 0 && string[i - 1] == '\\'
}

pub open spec fn is_comment(comment: Seq<char>) -> bool {
    comment.len() > 0 ==> comment[0] == '#' || (comment.len() > 1 && comment[0] == '/'
        && comment[1] == '/')
}

pub open spec fn is_program_line(line: WrittenLine) -> bool {
    &&& forall|k: int|
        0 <= k < line.parts.len() ==> is_bare((#[trigger] line.parts[k]).code) && is_string(
            line.parts[k].quote,
            line.parts[k].string,
        )
    &&& is_bare(line.code)
    &&& is_comment(line.comment)
}

pub open spec fn part_text(part: CodeAndString) -> Seq<char> {
    part.code + seq![part.quote] + part.string + seq![part.quote]
}

pub open spec fn parts_text(parts: Seq<CodeAndString>) -> Seq<char>
    decreases parts.len(),
{
    if parts.len() == 0 {
        Seq::empty()
    } else {
        parts_text(parts.drop_last()) + part_text(parts.last())
    }
}

pub open spec fn parts_code(parts: Seq<CodeAndString>) -> Seq<char>
    decreases parts.len(),
{
    if parts.len() == 0 {
        Seq::empty()
    } else {
        parts_code(parts.drop_last()) + parts.last().code
    }
}

/// The text of a line.
pub open spec fn program_text(line: WrittenLine) -> Seq<char> {
    parts_text(line.parts) + line.code + line.comment
}

pub open spec fn is_delimiter(c: char) -> bool {
    c == '{' || c == '}' || c == '[' || c == ']' || c == '(' || c == ')'
}

/// The delimiters in the code of a line, each with the number of the line.
pub open spec fn line_delimiters(line: WrittenLine, number: int) -> Seq<(char, int)> {
    (parts_code(line.parts) + line.code).filter(|c: char| is_delimiter(c)).map_values(
        |c: char| (c, number),
    )
}

/// The delimiters in the code of the first `n` lines, each with the number of its line.
pub open spec fn delimiters_upto(lines: Seq<WrittenLine>, n: int) -> Seq<(char, int)>
    decreases n,
{
    if n <= 0 {
        Seq::empty()
    } else {
        delimiters_upto(lines, n - 1) + line_delimiters(lines[n - 1], n - 1)
    }
}

pub open spec fn delimiters_of(lines: Seq<WrittenLine>) -> Seq<(char, int)> {
    delimiters_upto(lines, lines.len() as int)
}

/// The text consists of the lines.
pub open spec fn is_program(content: Seq<char>, lines: Seq<WrittenLine>) -> bool {
    &&& line_seq(content).len() == lines.len()
    &&& forall|k: int|
        0 <= k < lines.len() ==> is_program_line(#[trigger] lines[k]) && line_seq(content)[k]
            == program_text(lines[k])
}

// ---------------------------------------------------------------------------
// Nested delimiters
// ---------------------------------------------------------------------------
/// Delimiters that are nested: nothing, or a pair with what is inside it and what follows
/// it.
pub ghost enum Nest {
    Nothing,
    Braces(Box<Nest>, Box<Nest>),
    Brackets(Box<Nest>, Box<Nest>),
    Parens(Box<Nest>, Box<Nest>),
}

pub open spec fn nest_text(nest: Nest) -> Seq<char>
    decreases nest,
{
    match nest {
        Nest::Nothing => Seq::empty(),
        Nest::Braces(inside, rest) => seq!['{'] + nest_text(*inside) + seq!['}'] + nest_text(*rest),
        Nest::Brackets(inside, rest) => seq!['['] + nest_text(*inside) + seq![']'] + nest_text(
            *rest,
        ),
        Nest::Parens(inside, rest) => seq!['('] + nest_text(*inside) + seq![')'] + nest_text(
            *rest,
        ),
    }
}

/// The delimiters without their lines.
pub open spec fn signs(events: Seq<(char, int)>) -> Seq<char> {
    events.map_values(|e: (char, int)| e.0)
}

// ---------------------------------------------------------------------------
// What counts in a line
// ---------------------------------------------------------------------------
spec fn in_code(state: LineState) -> bool {
    !state.in_comment && !state.in_string
}

/// The characters of a line before `n` that are code.
spec fn code_upto(line: Seq<char>, n: int) -> Seq<char>
    decreases n,
{
    if n <= 0 {
        Seq::empty()
    } else if is_code(line, n - 1) {
        code_upto(line, n - 1).push(line[n - 1])
    } else {
        code_upto(line, n - 1)
    }
}

proof fn lemma_bare_run(line: Seq<char>, a: int, n: int)
    requires
        0 <= a,
        0 <= n,
        a + n <= line.len(),
        in_code(line_state(line, a)),
        is_bare(line.subrange(a, a + n)),
    ensures
        in_code(line_state(line, a + n)),
        code_upto(line, a + n) == code_upto(line, a) + line.subrange(a, a + n),
    decreases n,
{
    if n > 0 {
        let t = line.subrange(a, a + n);
        assert(t.drop_last() =~= line.subrange(a, a + n - 1));
        assert(is_bare(t.drop_last())) by {
            assert forall|i: int| 0 <= i < t.drop_last().len() implies (
            #[trigger] t.drop_last()[i]) != '"' && t.drop_last()[i] != '\'' && t.drop_last()[i]
                != '`' && t.drop_last()[i] != '#' && t.drop_last()[i] != '/' by {
                assert(t.drop_last()[i] == t[i]);
            }
        }
        lemma_bare_run(line, a, n - 1);
        assert(t[n - 1] == line[a + n - 1]);
        assert(code_upto(line, a + n) =~= code_upto(line, a) + t);
    } else {
        assert(line.subrange(a, a) =~= Seq::empty());
        assert(code_upto(line, a) =~= code_upto(line, a) + line.subrange(a, a));
    }
}

proof fn lemma_in_string(line: Seq<char>, a: int, quote: char, string: Seq<char>, n: int)
    requires
        0 <= a,
        0 <= n <= string.len(),
        a + 1 + string.len() < line.len(),
        in_code(line_state(line, a)),
        line[a] == quote,
        is_string(quote, string),
        line.subrange(a + 1, a + 1 + string.len()) == string,
    ensures
        ({
            let state = line_state(line, a + 1 + n);
            state.in_string && state.quote == quote && !state.in_comment
        }),
        code_upto(line, a + 1 + n) == code_upto(line, a),
    decreases n,
{
    if n > 0 {
        lemma_in_string(line, a, quote, string, n - 1);
        assert(line[a + n] == string[n - 1]);
        if string[n - 1] == quote {
            assert(string[n - 2] == line[a + n - 1]);
        }
    }
}

proof fn lemma_string_is_skipped(line: Seq<char>, a: int, quote: char, string: Seq<char>)
    requires
        0 <= a,
        a + 1 + string.len() < line.len(),
        in_code(line_state(line, a)),
        line[a] == quote,
        line[a + 1 + string.len()] == quote,
        is_string(quote, string),
        line.subrange(a + 1, a + 1 + string.len()) == string,
    ensures
        in_code(line_state(line, a + 2 + string.len())),
        code_upto(line, a + 2 + string.len()) == code_upto(line, a),
{
    let n = string.len() as int;
    lemma_in_string(line, a, quote, string, n);
    if n > 0 {
        assert(line[a + n] == string[n - 1]);
    } else {
        assert(line[a] == quote);
    }
}

proof fn lemma_parts_are_read(line: Seq<char>, parts: Seq<CodeAndString>)
    requires
        parts_text(parts).len() <= line.len(),
        line.take(parts_text(parts).len() as int) == parts_text(parts),
        forall|k: int|
            0 <= k < parts.len() ==> is_bare((#[trigger] parts[k]).code) && is_string(
                parts[k].quote,
                parts[k].string,
            ),
    ensures
        in_code(line_state(line, parts_text(parts).len() as int)),
        code_upto(line, parts_text(parts).len() as int) == parts_code(parts),
    decreases parts.len(),
{
    if parts.len() > 0 {
        let front = parts.drop_last();
        let part = parts.last();
        let all = parts_text(parts);
        let a = parts_text(front).len() as int;
        let n = part.code.len() as int;
        assert(parts[parts.len() - 1] == part);
        assert forall|k: int| 0 <= k < front.len() implies is_bare((#[trigger] front[k]).code)
            && is_string(front[k].quote, front[k].string) by {
            assert(front[k] == parts[k]);
        }
        assert(forall|i: int| 0 <= i < all.len() ==> line[i] == #[trigger] all[i]) by {
            assert forall|i: int| 0 <= i < all.len() implies line[i] == #[trigger] all[i] by {
                assert(line.take(all.len() as int)[i] == line[i]);
            }
        }
        assert(line.take(a) =~= parts_text(front));
        lemma_parts_are_read(line, front);
        assert forall|i: int| 0 <= i < n implies line[a + i] == #[trigger] part.code[i] by {
            assert(all[a + i] == part_text(part)[i]);
        }
        assert forall|i: int| 0 <= i < part.string.len() implies line[a + n + 1 + i]
            == #[trigger] part.string[i] by {
            assert(all[a + n + 1 + i] == part_text(part)[n + 1 + i]);
        }
        assert(all[a + n] == part_text(part)[n]);
        assert(all.last() == part_text(part).last());
        assert(line.subrange(a, a + n) =~= part.code);
        lemma_bare_run(line, a, n);
        assert(line.subrange(a + n + 1, a + n + 1 + part.string.len()) =~= part.string);
        lemma_string_is_skipped(line, a + n, part.quote, part.string);
        assert(a + n + 2 + part.string.len() == all.len());
    }
}

proof fn lemma_comment_is_skipped(line: Seq<char>, a: int, n: int)
    requires
        0 <= a < line.len(),
        a < n <= line.len(),
        in_code(line_state(line, a)),
        comment_start(line, a),
    ensures
        line_state(line, n).in_comment,
        code_upto(line, n) == code_upto(line, a),
    decreases n - a,
{
    if n > a + 1 {
        lemma_comment_is_skipped(line, a, n - 1);
    }
}

proof fn lemma_code_of_line(line: WrittenLine)
    requires
        is_program_line(line),
    ensures
        code_upto(program_text(line), program_text(line).len() as int) == parts_code(line.parts)
            + line.code,
{
    let text = program_text(line);
    let a = parts_text(line.parts).len() as int;
    let b = a + line.code.len();
    assert(text.take(a) =~= parts_text(line.parts));
    lemma_parts_are_read(text, line.parts);
    assert(text.subrange(a, b) =~= line.code);
    lemma_bare_run(text, a, line.code.len() as int);
    if line.comment.len() > 0 {
        assert(text[b] == line.comment[0]);
        if line.comment.len() > 1 {
            assert(text[b + 1] == line.comment[1]);
        }
        lemma_comment_is_skipped(text, b, text.len() as int);
    }
}

/// The balance behind a list of delimiters.
spec fn run(
    state: BalanceModel,
    events: Seq<(char, int)>,
    lines: Seq<Seq<char>>,
) -> BalanceModel
    decreases events.len(),
{
    if events.len() == 0 {
        state
    } else {
        let (c, number) = events.last();
        delimiter_step(run(state, events.drop_last(), lines), c, number, lines[number])
    }
}

proof fn lemma_run_add(
    state: BalanceModel,
    a: Seq<(char, int)>,
    b: Seq<(char, int)>,
    lines: Seq<Seq<char>>,
)
    ensures
        run(state, a + b, lines) == run(run(state, a, lines), b, lines),
    decreases b.len(),
{
    if b.len() == 0 {
        assert(a + b =~= a);
    } else {
        lemma_run_add(state, a, b.drop_last(), lines);
        assert((a + b).drop_last() =~= a + b.drop_last());
        assert((a + b).last() == b.last());
    }
}

spec fn with_line(code: Seq<char>, number: int) -> Seq<(char, int)> {
    code.filter(|c: char| is_delimiter(c)).map_values(|c: char| (c, number))
}

proof fn lemma_line_run(state: BalanceModel, lines: Seq<Seq<char>>, number: int, n: int)
    requires
        0 <= number < lines.len(),
        0 <= n <= lines[number].len(),
    ensures
        line_balance(state, lines[number], number, n) == run(
            state,
            with_line(code_upto(lines[number], n), number),
            lines,
        ),
    decreases n,
{
    reveal(Seq::filter);
    let line = lines[number];
    let wanted = |c: char| is_delimiter(c);
    if n <= 0 {
        assert(with_line(code_upto(line, n), number) =~= Seq::empty());
    } else {
        lemma_line_run(state, lines, number, n - 1);
        let before = code_upto(line, n - 1);
        if is_code(line, n - 1) {
            let c = line[n - 1];
            let after = before.push(c);
            assert(after.drop_last() =~= before);
            if is_delimiter(c) {
                assert(after.filter(wanted) == before.filter(wanted).push(c));
                let events = with_line(after, number);
                assert(events =~= with_line(before, number).push((c, number)));
                assert(events.drop_last() =~= with_line(before, number));
            } else {
                assert(after.filter(wanted) == before.filter(wanted));
            }
        }
    }
}

proof fn lemma_balance_run(content: Seq<char>, lines: Seq<WrittenLine>, n: int)
    requires
        is_program(content, lines),
        0 <= n <= lines.len(),
    ensures
        balance(line_seq(content), n) == run(
            BalanceModel { stack: Seq::empty(), issues: Seq::empty() },
            delimiters_upto(lines, n),
            line_seq(content),
        ),
    decreases n,
{
    let all = line_seq(content);
    let start = BalanceModel { stack: Seq::empty(), issues: Seq::empty() };
    if n > 0 {
        lemma_balance_run(content, lines, n - 1);
        let line = lines[n - 1];
        lemma_code_of_line(line);
        assert(all[n - 1] == program_text(line));
        lemma_line_run(balance(all, n - 1), all, n - 1, all[n - 1].len() as int);
        assert(line_delimiters(line, n - 1) == with_line(
            parts_code(line.parts) + line.code,
            n - 1,
        ));
        lemma_run_add(
            start,
            delimiters_upto(lines, n - 1),
            line_delimiters(line, n - 1),
            all,
        );
    }
}

// ---------------------------------------------------------------------------
// Nested delimiters leave no trace
// ---------------------------------------------------------------------------
proof fn lemma_nest_run(
    state: BalanceModel,
    events: Seq<(char, int)>,
    nest: Nest,
    lines: Seq<Seq<char>>,
)
    requires
        signs(events) == nest_text(nest),
    ensures
        run(state, events, lines) == state,
    decreases nest,
{
    assert(signs(events).len() == events.len());
    if nest != Nest::Nothing {
        let (open, close, inside, rest) = match nest {
            Nest::Braces(inside, rest) => ('{', '}', *inside, *rest),
            Nest::Brackets(inside, rest) => ('[', ']', *inside, *rest),
            Nest::Parens(inside, rest) => ('(', ')', *inside, *rest),
            Nest::Nothing => (' ', ' ', nest, nest),
        };
        assert(signs(events) == seq![open] + nest_text(inside) + seq![close] + nest_text(rest));
        let n = nest_text(inside).len() as int;
        let all = signs(events);
        let a = events.take(1);
        let b = events.subrange(1, n + 1);
        let c = events.subrange(n + 1, n + 2);
        let d = events.skip(n + 2);
        assert(events =~= a + b + c + d);
        lemma_run_add(state, a + b + c, d, lines);
        lemma_run_add(state, a + b, c, lines);
        lemma_run_add(state, a, b, lines);
        assert(events[0].0 == all[0]);
        assert(events[n + 1].0 == all[n + 1]);
        assert(a.drop_last() =~= Seq::empty());
        assert(c.drop_last() =~= Seq::empty());
        let opened = run(state, a, lines);
        assert(opened == delimiter_step(state, open, events[0].1, lines[events[0].1])) by {
            assert(run(state, a.drop_last(), lines) == state);
        }
        assert(signs(b) =~= nest_text(inside)) by {
            assert forall|i: int| 0 <= i < n implies signs(b)[i] == nest_text(inside)[i] by {
                assert(all[i + 1] == events[i + 1].0);
            }
        }
        lemma_nest_run(opened, b, inside, lines);
        let closed = run(opened, c, lines);
        assert(closed == delimiter_step(opened, close, events[n + 1].1, lines[events[n + 1].1])) by {
            assert(run(opened, c.drop_last(), lines) == opened);
        }
        assert(opened.stack.drop_last() =~= state.stack);
        assert(closed == state);
        assert(signs(d) =~= nest_text(rest)) by {
            assert forall|i: int| 0 <= i < signs(d).len() implies signs(d)[i] == nest_text(rest)[i] by {
                assert(all[i + n + 2] == events[i + n + 2].0);
            }
        }
        lemma_nest_run(closed, d, rest, lines);
    }
}

spec fn nothing() -> BalanceModel {
    BalanceModel { stack: Seq::empty(), issues: Seq::empty() }
}

proof fn lemma_issues_of(content: Seq<char>, lines: Seq<WrittenLine>)
    requires
        is_program(content, lines),
    ensures
        ({
            let all = line_seq(content);
            let end = run(nothing(), delimiters_of(lines), all);
            delimiter_issues(content) == end.issues + unclosed(end.stack, all)
        }),
{
    lemma_balance_run(content, lines, lines.len() as int);
}

/// A text whose delimiters are nested has no issue with them, whatever stands in its
/// strings and comments.
pub proof fn law_nested_delimiters_pass(content: Seq<char>, lines: Seq<WrittenLine>, nest: Nest)
    requires
        is_program(content, lines),
        signs(delimiters_of(lines)) == nest_text(nest),
    ensures
        delimiter_issues(content).len() == 0,
{
    lemma_issues_of(content, lines);
    lemma_nest_run(nothing(), delimiters_of(lines), nest, line_seq(content));
}

/// The delimiter that the text wants for `open`.
pub open spec fn is_pair(open: char, close: char) -> bool {
    (open == '{' && close == '}') || (open == '[' && close == ']') || (open == '(' && close == ')')
}

/// A delimiter that is left open is told of, in the line where it stands.
pub proof fn law_open_delimiter_is_told(
    content: Seq<char>,
    lines: Seq<WrittenLine>,
    before: Nest,
    open: char,
    after: Nest,
    close: char,
)
    requires
        is_program(content, lines),
        is_pair(open, close),
        signs(delimiters_of(lines)) == nest_text(before) + seq![open] + nest_text(after),
    ensures
        ({
            let line = delimiters_of(lines)[nest_text(before).len() as int].1;
            delimiter_issues(content) == seq![
                IssueModel {
                    line,
                    description: "Unclosed delimiter '"@ + seq![open] + "' - missing '"@ + seq![
                        close,
                    ] + "'"@,
                    evidence: line_seq(content)[line],
                },
            ]
        }),
{
    let events = delimiters_of(lines);
    let all = line_seq(content);
    let n = nest_text(before).len() as int;
    lemma_issues_of(content, lines);
    let state = lemma_step_between(events, before, open, after, all);
    assert(state.stack =~= seq![events[n]]);
    let end = run(nothing(), events, all);
    assert(delimiter_issues(content) =~= unclosed(end.stack, all));
    assert(events[n].0 == signs(events)[n]);
}

/// A delimiter that closes nothing is told of, in the line where it stands.
pub proof fn law_needless_delimiter_is_told(
    content: Seq<char>,
    lines: Seq<WrittenLine>,
    before: Nest,
    close: char,
    after: Nest,
)
    requires
        is_program(content, lines),
        close == '}' || close == ']' || close == ')',
        signs(delimiters_of(lines)) == nest_text(before) + seq![close] + nest_text(after),
    ensures
        ({
            let line = delimiters_of(lines)[nest_text(before).len() as int].1;
            delimiter_issues(content) == seq![
                IssueModel {
                    line,
                    description: "Unexpected closing delimiter '"@ + seq![close]
                        + "' with no matching opener"@,
                    evidence: line_seq(content)[line],
                },
            ]
        }),
{
    let events = delimiters_of(lines);
    let all = line_seq(content);
    lemma_issues_of(content, lines);
    let state = lemma_step_between(events, before, close, after, all);
    assert(unclosed(state.stack, all) =~= Seq::empty());
    assert(delimiter_issues(content) =~= state.issues);
    assert(Seq::<IssueModel>::empty().push(state.issues[0]) =~= seq![state.issues[0]]);
}

/// A delimiter that is closed by one of another kind is told of, in the line of the closing
/// one, with the line of the opening one as it is counted from one on.
pub proof fn law_wrong_delimiter_is_told(
    content: Seq<char>,
    lines: Seq<WrittenLine>,
    before: Nest,
    open: char,
    inside: Nest,
    close: char,
    after: Nest,
    wanted: char,
)
    requires
        is_program(content, lines),
        open == '{' || open == '[' || open == '(',
        is_pair(wanted, close),
        open != wanted,
        signs(delimiters_of(lines)) == nest_text(before) + seq![open] + nest_text(inside) + seq![
            close,
        ] + nest_text(after),
    ensures
        ({
            let first = nest_text(before).len() as int;
            let second = first + 1 + nest_text(inside).len();
            let open_line = delimiters_of(lines)[first].1;
            let line = delimiters_of(lines)[second].1;
            delimiter_issues(content) == seq![
                IssueModel {
                    line,
                    description: "Mismatched delimiter: expected '"@ + seq![wanted]
                        + "' to close '"@ + seq![open] + "' at line "@ + decimal(
                        (open_line + 1) as nat,
                    ) + ", found '"@ + seq![close] + "'"@,
                    evidence: line_seq(content)[line],
                },
            ]
        }),
{
    let events = delimiters_of(lines);
    let all = line_seq(content);
    let n = nest_text(before).len() as int;
    let m = n + 1 + nest_text(inside).len();
    lemma_issues_of(content, lines);
    assert(signs(events).len() == events.len());
    let front = events.take(m);
    let last = events.subrange(m, m + 1);
    let back = events.skip(m + 1);
    assert(events =~= front + last + back);
    lemma_run_add(nothing(), front + last, back, all);
    lemma_run_add(nothing(), front, last, all);
    assert(signs(front) =~= nest_text(before) + seq![open] + nest_text(inside)) by {
        assert forall|i: int| 0 <= i < m implies signs(front)[i] == (nest_text(before) + seq![open]
            + nest_text(inside))[i] by {
            assert(signs(events)[i] == events[i].0);
        }
    }
    let state = lemma_step_between(front, before, open, inside, all);
    assert(front[n] == events[n]);
    assert(state.stack =~= seq![events[n]]);
    assert(signs(events)[m] == events[m].0);
    assert(last.drop_last() =~= Seq::empty());
    let end = delimiter_step(state, close, events[m].1, all[events[m].1]);
    assert(run(state, last, all) == end) by {
        assert(run(state, last.drop_last(), all) == state);
    }
    assert(signs(back) =~= nest_text(after)) by {
        assert forall|i: int| 0 <= i < signs(back).len() implies signs(back)[i] == nest_text(
            after,
        )[i] by {
            assert(signs(events)[i + m + 1] == events[i + m + 1].0);
        }
    }
    lemma_nest_run(end, back, after, all);
    assert(end.stack =~= Seq::empty());
    assert(unclosed(end.stack, all) =~= Seq::empty());
    assert(end.issues =~= seq![end.issues[0]]);
    assert(delimiter_issues(content) =~= end.issues);
}

/// Nested delimiters around a single one: what that one does is all that happens.
proof fn lemma_step_between(
    events: Seq<(char, int)>,
    before: Nest,
    c: char,
    after: Nest,
    lines: Seq<Seq<char>>,
) -> (state: BalanceModel)
    requires
        signs(events) == nest_text(before) + seq![c] + nest_text(after),
    ensures
        ({
            let event = events[nest_text(before).len() as int];
            &&& state == delimiter_step(nothing(), c, event.1, lines[event.1])
            &&& state == run(nothing(), events, lines)
            &&& event.0 == c
        }),
{
    let n = nest_text(before).len() as int;
    let all = signs(events);
    assert(all.len() == events.len());
    let a = events.take(n);
    let b = events.subrange(n, n + 1);
    let d = events.skip(n + 1);
    assert(events =~= a + b + d);
    lemma_run_add(nothing(), a + b, d, lines);
    lemma_run_add(nothing(), a, b, lines);
    assert(signs(a) =~= nest_text(before)) by {
        assert forall|i: int| 0 <= i < n implies signs(a)[i] == nest_text(before)[i] by {
            assert(all[i] == events[i].0);
        }
    }
    lemma_nest_run(nothing(), a, before, lines);
    assert(all[n] == events[n].0);
    assert(b.drop_last() =~= Seq::empty());
    let state = delimiter_step(nothing(), c, events[n].1, lines[events[n].1]);
    assert(run(nothing(), b, lines) == state) by {
        assert(run(nothing(), b.drop_last(), lines) == nothing());
    }
    assert(signs(d) =~= nest_text(after)) by {
        assert forall|i: int| 0 <= i < signs(d).len() implies signs(d)[i] == nest_text(after)[i] by {
            assert(all[i + n + 1] == events[i + n + 1].0);
        }
    }
    lemma_nest_run(state, d, after, lines);
    state
}

// ---------------------------------------------------------------------------
// A text without issues is nested
// ---------------------------------------------------------------------------
spec fn appended(a: Nest, b: Nest) -> Nest
    decreases a,
{
    match a {
        Nest::Nothing => b,
        Nest::Braces(inside, rest) => Nest::Braces(inside, Box::new(appended(*rest, b))),
        Nest::Brackets(inside, rest) => Nest::Brackets(inside, Box::new(appended(*rest, b))),
        Nest::Parens(inside, rest) => Nest::Parens(inside, Box::new(appended(*rest, b))),
    }
}

proof fn lemma_appended(a: Nest, b: Nest)
    ensures
        nest_text(appended(a, b)) == nest_text(a) + nest_text(b),
    decreases a,
{
    match a {
        Nest::Nothing => {
            assert(nest_text(a) + nest_text(b) =~= nest_text(b));
        },
        Nest::Braces(_, rest) | Nest::Brackets(_, rest) | Nest::Parens(_, rest) => {
            lemma_appended(*rest, b);
            assert(nest_text(appended(a, b)) =~= nest_text(a) + nest_text(b));
        },
    }
}

/// Nested delimiters with an open one between each two of them.
spec fn unfolded(stack: Seq<(char, int)>, nests: Seq<Nest>) -> Seq<char>
    decreases stack.len(),
{
    if stack.len() == 0 {
        nest_text(nests.last())
    } else {
        unfolded(stack.drop_last(), nests.drop_last()) + seq![stack.last().0] + nest_text(
            nests.last(),
        )
    }
}

proof fn lemma_unfolded_append(stack: Seq<(char, int)>, nests: Seq<Nest>, more: Nest)
    requires
        nests.len() == stack.len() + 1,
    ensures
        unfolded(stack, nests.drop_last().push(appended(nests.last(), more))) == unfolded(
            stack,
            nests,
        ) + nest_text(more),
{
    lemma_appended(nests.last(), more);
    let new = nests.drop_last().push(appended(nests.last(), more));
    assert(new.drop_last() =~= nests.drop_last());
    assert(unfolded(stack, new) =~= unfolded(stack, nests) + nest_text(more));
}

proof fn lemma_nests(events: Seq<(char, int)>, lines: Seq<Seq<char>>) -> (nests: Seq<Nest>)
    requires
        forall|i: int| 0 <= i < events.len() ==> is_delimiter((#[trigger] events[i]).0),
        run(nothing(), events, lines).issues.len() == 0,
    ensures
        nests.len() == run(nothing(), events, lines).stack.len() + 1,
        signs(events) == unfolded(run(nothing(), events, lines).stack, nests),
    decreases events.len(),
{
    if events.len() == 0 {
        let nests = seq![Nest::Nothing];
        assert(signs(events) =~= nest_text(nests.last()));
        nests
    } else {
        let front = events.drop_last();
        let (c, number) = events.last();
        let before = run(nothing(), front, lines);
        let state = run(nothing(), events, lines);
        assert(events[events.len() - 1].0 == c);
        assert forall|i: int| 0 <= i < front.len() implies is_delimiter(
            (#[trigger] front[i]).0,
        ) by {
            assert(front[i] == events[i]);
        }
        let nests = lemma_nests(front, lines);
        assert(signs(events) =~= signs(front).push(c));
        if opener(c) {
            let new = nests.push(Nest::Nothing);
            assert(new.drop_last() =~= nests);
            assert(state.stack.drop_last() =~= before.stack);
            assert(unfolded(state.stack, new) =~= signs(front).push(c));
            new
        } else {
            assert(closer(c));
            assert(before.stack.len() > 0);
            let open = before.stack.last().0;
            assert(open == partner(c));
            let inside = Box::new(nests.last());
            let nothing_more = Box::new(Nest::Nothing);
            let pair = if c == '}' {
                Nest::Braces(inside, nothing_more)
            } else if c == ']' {
                Nest::Brackets(inside, nothing_more)
            } else {
                Nest::Parens(inside, nothing_more)
            };
            reveal_with_fuel(nest_text, 2);
            assert(nest_text(pair) =~= seq![open] + nest_text(nests.last()) + seq![c]);
            let outer = nests.drop_last();
            lemma_unfolded_append(state.stack, outer, pair);
            let new = outer.drop_last().push(appended(outer.last(), pair));
            assert(state.stack == before.stack.drop_last());
            assert(unfolded(state.stack, outer) + nest_text(pair) =~= unfolded(
                before.stack,
                nests,
            ).push(c));
            new
        }
    }
}

proof fn lemma_are_delimiters(lines: Seq<WrittenLine>, n: int)
    requires
        0 <= n <= lines.len(),
    ensures
        forall|i: int|
            0 <= i < delimiters_upto(lines, n).len() ==> is_delimiter(
                (#[trigger] delimiters_upto(lines, n)[i]).0,
            ) && 0 <= delimiters_upto(lines, n)[i].1 < n,
    decreases n,
{
    if n > 0 {
        lemma_are_delimiters(lines, n - 1);
        let front = delimiters_upto(lines, n - 1);
        let code = parts_code(lines[n - 1].parts) + lines[n - 1].code;
        let wanted = |c: char| is_delimiter(c);
        let back = line_delimiters(lines[n - 1], n - 1);
        let all = delimiters_upto(lines, n);
        assert forall|i: int| 0 <= i < all.len() implies is_delimiter((#[trigger] all[i]).0) && 0
            <= all[i].1 < n by {
            if i < front.len() {
                assert(all[i] == front[i]);
            } else {
                let j = i - front.len();
                assert(all[i] == back[j]);
                code.lemma_filter_pred(wanted, j);
                assert(back[j].0 == code.filter(wanted)[j]);
            }
        }
    }
}

/// A text that has no issue with its delimiters has nested ones: here they are.
pub proof fn law_text_without_issue_is_nested(
    content: Seq<char>,
    lines: Seq<WrittenLine>,
) -> (nest: Nest)
    requires
        is_program(content, lines),
        delimiter_issues(content).len() == 0,
    ensures
        signs(delimiters_of(lines)) == nest_text(nest),
{
    let all = line_seq(content);
    let events = delimiters_of(lines);
    lemma_issues_of(content, lines);
    lemma_are_delimiters(lines, lines.len() as int);
    let end = run(nothing(), events, all);
    assert(unclosed(end.stack, all).len() == end.stack.len());
    let nests = lemma_nests(events, all);
    nests.last()
}

// ---------------------------------------------------------------------------
// Lines that should not be there
// ---------------------------------------------------------------------------
/// The issues tell of this line, in these words.
pub open spec fn is_told_of(
    issues: Seq<IssueModel>,
    lines: Seq<Seq<char>>,
    line: int,
    description: Seq<char>,
) -> bool {
    issues.contains(IssueModel { line, description, evidence: lines[line] })
}

/// The line is a conflict marker: it starts with it, and is short.
pub open spec fn is_conflict(line: Seq<char>, marker: Seq<char>) -> bool {
    &&& trimmed(line).len() >= marker.len() && trimmed(line).take(marker.len() as int) == marker
    &&& byte_len(trimmed(line)) <= 50
}

spec fn conflict_account(issues: Seq<IssueModel>, lines: Seq<Seq<char>>, n: int) -> bool {
    &&& forall|k: int|
        0 <= k < n ==> (is_told_of(issues, lines, k, "Git conflict start marker"@)
            <==> is_conflict(#[trigger] lines[k], "<<<<<<<"@))
    &&& forall|k: int|
        0 <= k < n ==> (is_told_of(issues, lines, k, "Git conflict separator marker"@)
            <==> is_conflict(#[trigger] lines[k], "======="@))
    &&& forall|i: int|
        0 <= i < issues.len() ==> 0 <= (#[trigger] issues[i]).line < n && issues[i].evidence
            == lines[issues[i].line]
}

proof fn lemma_conflicts(lines: Seq<Seq<char>>, n: int)
    requires
        0 <= n <= lines.len(),
    ensures
        conflict_account(conflicts_upto(lines, n), lines, n),
    decreases n,
{
    if n > 0 {
        lemma_conflicts(lines, n - 1);
        let line = lines[n - 1];
        let front = conflicts_upto(lines, n - 1);
        let all = conflicts_upto(lines, n);
        let a = conflict_issue(line, n - 1, "<<<<<<<"@, "Git conflict start marker"@);
        let b = conflict_issue(line, n - 1, "======="@, "Git conflict separator marker"@);
        reveal_strlit("<<<<<<<");
        reveal_strlit("=======");
        reveal_strlit("Git conflict start marker");
        reveal_strlit("Git conflict separator marker");
        assert("Git conflict start marker"@.len() != "Git conflict separator marker"@.len());
        assert(all =~= front + a + b);
        lemma_told_in(front, a, b, lines, n, "Git conflict start marker"@);
        lemma_told_in(front, a, b, lines, n, "Git conflict separator marker"@);
        assert(is_conflict(line, "<<<<<<<"@) <==> a.len() == 1);
        assert(is_conflict(line, "======="@) <==> b.len() == 1);
        lemma_told_once(a, lines, n - 1, "Git conflict start marker"@);
        lemma_told_once(b, lines, n - 1, "Git conflict separator marker"@);
        assert forall|i: int| 0 <= i < all.len() implies 0 <= (#[trigger] all[i]).line < n
            && all[i].evidence == lines[all[i].line] by {
            if i < front.len() {
                assert(all[i] == front[i]);
            }
        }
    }
}

proof fn lemma_told_once(
    one: Seq<IssueModel>,
    lines: Seq<Seq<char>>,
    line: int,
    description: Seq<char>,
)
    requires
        one.len() <= 1,
        one.len() == 1 ==> one[0] == (IssueModel { line, description, evidence: lines[line] }),
    ensures
        is_told_of(one, lines, line, description) <==> one.len() == 1,
        forall|other: Seq<char>|
            other != description ==> !#[trigger] is_told_of(one, lines, line, other),
{
    if one.len() == 1 {
        assert(one.contains(one[0]));
    }
}

/// Issues of line `n - 1` behind those of the lines before it.
proof fn lemma_told_in(
    front: Seq<IssueModel>,
    a: Seq<IssueModel>,
    b: Seq<IssueModel>,
    lines: Seq<Seq<char>>,
    n: int,
    description: Seq<char>,
)
    requires
        0 < n <= lines.len(),
        forall|i: int| 0 <= i < front.len() ==> 0 <= (#[trigger] front[i]).line < n - 1,
        forall|i: int| 0 <= i < a.len() ==> (#[trigger] a[i]).line == n - 1,
        forall|i: int| 0 <= i < b.len() ==> (#[trigger] b[i]).line == n - 1,
    ensures
        forall|k: int|
            0 <= k < n - 1 ==> (#[trigger] is_told_of(front + a + b, lines, k, description)
                <==> is_told_of(front, lines, k, description)),
        is_told_of(front + a + b, lines, n - 1, description) <==> is_told_of(
            a,
            lines,
            n - 1,
            description,
        ) || is_told_of(b, lines, n - 1, description),
{
    let all = front + a + b;
    assert forall|x: IssueModel| #[trigger] all.contains(x) <==> front.contains(x) || a.contains(x)
        || b.contains(x) by {
        if all.contains(x) {
            let i = choose|i: int| 0 <= i < all.len() && all[i] == x;
            if i < front.len() {
                assert(front[i] == x);
            } else if i < front.len() + a.len() {
                assert(a[i - front.len()] == x);
            } else {
                assert(b[i - front.len() - a.len()] == x);
            }
        }
        if front.contains(x) {
            let i = choose|i: int| 0 <= i < front.len() && front[i] == x;
            assert(all[i] == x);
        }
        if a.contains(x) {
            let i = choose|i: int| 0 <= i < a.len() && a[i] == x;
            assert(all[front.len() + i] == x);
        }
        if b.contains(x) {
            let i = choose|i: int| 0 <= i < b.len() && b[i] == x;
            assert(all[front.len() + a.len() + i] == x);
        }
    }
}

/// A conflict marker is told of in each line that is one, and nothing else is.
pub proof fn law_conflict_markers_are_told(content: Seq<char>)
    ensures
        ({
            let issues = conflict_issues(content);
            let lines = line_seq(content);
            &&& forall|k: int|
                0 <= k < lines.len() ==> (is_told_of(issues, lines, k, "Git conflict start marker"@)
                    <==> is_conflict(#[trigger] lines[k], "<<<<<<<"@))
            &&& forall|k: int|
                0 <= k < lines.len() ==> (is_told_of(
                    issues,
                    lines,
                    k,
                    "Git conflict separator marker"@,
                ) <==> is_conflict(#[trigger] lines[k], "======="@))
            &&& forall|i: int|
                0 <= i < issues.len() ==> 0 <= (#[trigger] issues[i]).line < lines.len()
                    && issues[i].evidence == lines[issues[i].line]
        }),
{
    lemma_conflicts(line_seq(content), line_seq(content).len() as int);
}

/// The first place of the mark in the line has white space behind it and then more than
/// two bytes of code.
pub open spec fn is_left_mark(line: Seq<char>, mark: Seq<char>) -> bool {
    exists|i: int|
        {
            &&& #[trigger] occurs_at(line, mark, i)
            &&& forall|j: int| 0 <= j < i ==> !#[trigger] occurs_at(line, mark, j)
            &&& i + mark.len() < line.len()
            &&& is_white(line[i + mark.len()])
            &&& byte_len(trimmed(line.skip(i + mark.len()))) > 2
        }
}

proof fn lemma_left_mark(line: Seq<char>, number: int, mark: Seq<char>, description: Seq<char>)
    requires
        mark.len() > 0,
    ensures
        ({
            let found = diff_mark_issue(line, number, mark, description);
            &&& found.len() <= 1
            &&& found.len() == 1 <==> is_left_mark(line, mark)
            &&& found.len() == 1 ==> found[0] == (IssueModel {
                line: number,
                description,
                evidence: line,
            })
        }),
{
    lemma_find_from(line, mark, 0);
    match find_text(line, mark) {
        None => {},
        Some(i) => {
            let after = line.skip(i + mark.len());
            if after.len() > 0 {
                assert(after[0] == line[i + mark.len()]);
            }
            if is_left_mark(line, mark) {
                let k = choose|k: int|
                    {
                        &&& #[trigger] occurs_at(line, mark, k)
                        &&& forall|j: int| 0 <= j < k ==> !#[trigger] occurs_at(line, mark, j)
                        &&& k + mark.len() < line.len()
                        &&& is_white(line[k + mark.len()])
                        &&& byte_len(trimmed(line.skip(k + mark.len()))) > 2
                    };
                assert(k == i);
            }
        },
    }
}

spec fn mark_account(issues: Seq<IssueModel>, lines: Seq<Seq<char>>, n: int) -> bool {
    &&& forall|k: int|
        0 <= k < n ==> (is_told_of(
            issues,
            lines,
            k,
            "Embedded diff marker detected - `+` character appears to be from malformed patch"@,
        ) <==> is_left_mark(#[trigger] lines[k], ";+"@))
    &&& forall|k: int|
        0 <= k < n ==> (is_told_of(
            issues,
            lines,
            k,
            "Embedded diff marker detected - `+` character after closing brace"@,
        ) <==> is_left_mark(#[trigger] lines[k], "}+"@))
    &&& forall|k: int|
        0 <= k < n ==> (is_told_of(
            issues,
            lines,
            k,
            "Embedded diff marker detected - `+` character after opening brace"@,
        ) <==> is_left_mark(#[trigger] lines[k], "{+"@))
    &&& forall|i: int|
        0 <= i < issues.len() ==> 0 <= (#[trigger] issues[i]).line < n && issues[i].evidence
            == lines[issues[i].line]
}

proof fn lemma_mark_texts()
    ensures
        ";+"@.len() == 2 && "}+"@.len() == 2 && "{+"@.len() == 2,
        ({
            let a =
                "Embedded diff marker detected - `+` character appears to be from malformed patch"@;
            let b = "Embedded diff marker detected - `+` character after closing brace"@;
            let c = "Embedded diff marker detected - `+` character after opening brace"@;
            a != b && a != c && b != c
        }),
{
    reveal_strlit(";+");
    reveal_strlit("}+");
    reveal_strlit("{+");
    reveal_strlit(
        "Embedded diff marker detected - `+` character appears to be from malformed patch",
    );
    reveal_strlit("Embedded diff marker detected - `+` character after closing brace");
    reveal_strlit("Embedded diff marker detected - `+` character after opening brace");
    let b = "Embedded diff marker detected - `+` character after closing brace"@;
    let c = "Embedded diff marker detected - `+` character after opening brace"@;
    assert(b[52] != c[52]);
}

proof fn lemma_marks(lines: Seq<Seq<char>>, n: int)
    requires
        0 <= n <= lines.len(),
    ensures
        mark_account(diff_marks_upto(lines, n), lines, n),
    decreases n,
{
    if n > 0 {
        lemma_marks(lines, n - 1);
        let line = lines[n - 1];
        let front = diff_marks_upto(lines, n - 1);
        let all = diff_marks_upto(lines, n);
        let x = "Embedded diff marker detected - `+` character appears to be from malformed patch"@;
        let y = "Embedded diff marker detected - `+` character after closing brace"@;
        let z = "Embedded diff marker detected - `+` character after opening brace"@;
        let a = diff_mark_issue(line, n - 1, ";+"@, x);
        let b = diff_mark_issue(line, n - 1, "}+"@, y);
        let c = diff_mark_issue(line, n - 1, "{+"@, z);
        lemma_mark_texts();
        lemma_left_mark(line, n - 1, ";+"@, x);
        lemma_left_mark(line, n - 1, "}+"@, y);
        lemma_left_mark(line, n - 1, "{+"@, z);
        lemma_told_once(a, lines, n - 1, x);
        lemma_told_once(b, lines, n - 1, y);
        lemma_told_once(c, lines, n - 1, z);
        let bc = b + c;
        let none = Seq::<IssueModel>::empty();
        assert(all =~= front + a + bc);
        assert(bc =~= none + b + c);
        lemma_told_in(front, a, bc, lines, n, x);
        lemma_told_in(front, a, bc, lines, n, y);
        lemma_told_in(front, a, bc, lines, n, z);
        lemma_told_in(none, b, c, lines, n, x);
        lemma_told_in(none, b, c, lines, n, y);
        lemma_told_in(none, b, c, lines, n, z);
        assert forall|i: int| 0 <= i < all.len() implies 0 <= (#[trigger] all[i]).line < n
            && all[i].evidence == lines[all[i].line] by {
            if i < front.len() {
                assert(all[i] == front[i]);
            }
        }
    }
}

/// A diff prefix behind a delimiter is told of in each line that was left with one, and
/// nothing else is.
pub proof fn law_left_marks_are_told(content: Seq<char>)
    ensures
        ({
            let issues = diff_mark_issues(content);
            let lines = line_seq(content);
            &&& forall|k: int|
                0 <= k < lines.len() ==> (is_told_of(
                    issues,
                    lines,
                    k,
                    "Embedded diff marker detected - `+` character appears to be from malformed patch"@,
                ) <==> is_left_mark(#[trigger] lines[k], ";+"@))
            &&& forall|k: int|
                0 <= k < lines.len() ==> (is_told_of(
                    issues,
                    lines,
                    k,
                    "Embedded diff marker detected - `+` character after closing brace"@,
                ) <==> is_left_mark(#[trigger] lines[k], "}+"@))
            &&& forall|k: int|
                0 <= k < lines.len() ==> (is_told_of(
                    issues,
                    lines,
                    k,
                    "Embedded diff marker detected - `+` character after opening brace"@,
                ) <==> is_left_mark(#[trigger] lines[k], "{+"@))
            &&& forall|i: int|
                0 <= i < issues.len() ==> 0 <= (#[trigger] issues[i]).line < lines.len()
                    && issues[i].evidence == lines[issues[i].line]
        }),
{
    lemma_marks(line_seq(content), line_seq(content).len() as int);
}

/// The probe tells what its three checks tell, each issue once.
pub proof fn law_probe_tells_all_issues(content: Seq<char>)
    ensures
        probe_issues(content).to_multiset() == delimiter_issues(content).to_multiset().add(
            conflict_issues(content).to_multiset(),
        ).add(diff_mark_issues(content).to_multiset()),
{
    let a = delimiter_issues(content);
    let b = conflict_issues(content);
    let c = diff_mark_issues(content);
    vstd::seq_lib::lemma_multiset_commutative(a, b);
    vstd::seq_lib::lemma_multiset_commutative(a + b, c);
}

} // verus!
