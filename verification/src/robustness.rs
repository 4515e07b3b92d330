//! Checks of a text that need no grammar: delimiters, conflict markers, and diff
//! prefixes that were left in the code.
use vstd::prelude::*;

use crate::bytes::{byte_len, text_byte_count};
use crate::lines::{line_seq, split_lines, texts};
use crate::text::{
    append_str, append_text, chars_of, decimal, decimal_text, find, find_text, has_prefix, is_white,
    is_whitespace, lemma_find_from, span, starts_with, string_of, trim, trimmed,
};

verus! {

/// Something that is wrong with a text.
#[derive(Debug, PartialEq, Eq)]
pub struct RobustnessIssue {
    /// The line, from zero on.
    pub line: usize,
    pub description: String,
    /// The text of the line.
    pub evidence: String,
}

/// What an issue holds.
#[verifier::ext_equal]
pub ghost struct IssueModel {
    pub line: int,
    pub description: Seq<char>,
    pub evidence: Seq<char>,
}

impl View for RobustnessIssue {
    type V = IssueModel;

    open spec fn view(&self) -> IssueModel {
        IssueModel {
            line: self.line as int,
            description: self.description@,
            evidence: self.evidence@,
        }
    }
}

impl Clone for RobustnessIssue {
    fn clone(&self) -> (r: Self)
        ensures
            r@ == self@,
    {
        RobustnessIssue {
            line: self.line,
            description: self.description.clone(),
            evidence: self.evidence.clone(),
        }
    }
}

pub open spec fn issue_models(v: Seq<RobustnessIssue>) -> Seq<IssueModel> {
    Seq::new(v.len(), |i: int| v[i]@)
}

fn push_issue(issues: &mut Vec<RobustnessIssue>, line: usize, description: String, evidence: &[char])
    ensures
        issue_models(final(issues)@) == issue_models(old(issues)@).push(
            IssueModel { line: line as int, description: description@, evidence: evidence@ },
        ),
{
    let ghost before = issues@;
    issues.push(RobustnessIssue { line, description, evidence: string_of(evidence) });
    assert(issue_models(issues@) =~= issue_models(before).push(issues@.last()@));
}

// ---------------------------------------------------------------------------
// Code, strings and comments in a line
// ---------------------------------------------------------------------------
/// Whether a place in a line is inside a string or a comment.
#[derive(Clone, Copy, Debug, PartialEq, Eq, Structural)]
pub struct LineState {
    pub in_string: bool,
    /// The character that ends the string.
    pub quote: char,
    pub in_comment: bool,
}

pub open spec fn quote_char(c: char) -> bool {
    c == '"' || c == '\'' || c == '`'
}

/// A line comment starts at `col`.
pub open spec fn comment_start(line: Seq<char>, col: int) -> bool {
    line[col] == '#' || (line[col] == '/' && col + 1 < line.len() && line[col + 1] == '/')
}

/// The state behind the character at `col`.
pub open spec fn line_step(state: LineState, line: Seq<char>, col: int) -> LineState {
    let c = line[col];
    if state.in_comment {
        state
    } else if !state.in_string {
        if comment_start(line, col) {
            LineState { in_string: false, quote: state.quote, in_comment: true }
        } else if quote_char(c) {
            LineState { in_string: true, quote: c, in_comment: false }
        } else {
            state
        }
    } else if c == state.quote && !(col > 0 && line[col - 1] == '\\') {
        LineState { in_string: false, quote: state.quote, in_comment: false }
    } else {
        state
    }
}

/// The state at position `n` of a line.
pub open spec fn line_state(line: Seq<char>, n: int) -> LineState
    decreases n,
{
    if n <= 0 {
        LineState { in_string: false, quote: ' ', in_comment: false }
    } else {
        line_step(line_state(line, n - 1), line, n - 1)
    }
}

/// The character at `col` is code.
pub open spec fn is_code(line: Seq<char>, col: int) -> bool {
    let state = line_state(line, col);
    !state.in_comment && !state.in_string && !comment_start(line, col) && !quote_char(line[col])
}

// ---------------------------------------------------------------------------
// Delimiters
// ---------------------------------------------------------------------------
pub open spec fn opener(c: char) -> bool {
    c == '{' || c == '[' || c == '('
}

pub open spec fn closer(c: char) -> bool {
    c == '}' || c == ']' || c == ')'
}

/// The delimiter that belongs to another one.
pub open spec fn partner(c: char) -> char {
    if c == '{' {
        '}'
    } else if c == '[' {
        ']'
    } else if c == '(' {
        ')'
    } else if c == '}' {
        '{'
    } else if c == ']' {
        '['
    } else {
        '('
    }
}

/// The open delimiters, each with its line, and the issues found so far.
#[verifier::ext_equal]
pub ghost struct BalanceModel {
    pub stack: Seq<(char, int)>,
    pub issues: Seq<IssueModel>,
}

pub open spec fn mismatch_text(found: char, open: char, open_line: int) -> Seq<char> {
    "Mismatched delimiter: expected '"@ + seq![partner(found)] + "' to close '"@ + seq![open]
        + "' at line "@ + decimal((open_line + 1) as nat) + ", found '"@ + seq![found] + "'"@
}

pub open spec fn unexpected_text(found: char) -> Seq<char> {
    "Unexpected closing delimiter '"@ + seq![found] + "' with no matching opener"@
}

pub open spec fn unclosed_text(open: char) -> Seq<char> {
    "Unclosed delimiter '"@ + seq![open] + "' - missing '"@ + seq![partner(open)] + "'"@
}

/// The balance behind a delimiter in code.
pub open spec fn delimiter_step(
    state: BalanceModel,
    c: char,
    line_number: int,
    line: Seq<char>,
) -> BalanceModel {
    if opener(c) {
        BalanceModel { stack: state.stack.push((c, line_number)), issues: state.issues }
    } else if !closer(c) {
        state
    } else if state.stack.len() == 0 {
        BalanceModel {
            stack: state.stack,
            issues: state.issues.push(
                IssueModel { line: line_number, description: unexpected_text(c), evidence: line },
            ),
        }
    } else {
        let (open, open_line) = state.stack.last();
        BalanceModel {
            stack: state.stack.drop_last(),
            issues: if open == partner(c) {
                state.issues
            } else {
                state.issues.push(
                    IssueModel {
                        line: line_number,
                        description: mismatch_text(c, open, open_line),
                        evidence: line,
                    },
                )
            },
        }
    }
}

/// The balance behind the first `n` characters of a line.
pub open spec fn line_balance(
    state: BalanceModel,
    line: Seq<char>,
    line_number: int,
    n: int,
) -> BalanceModel
    decreases n,
{
    if n <= 0 {
        state
    } else {
        let before = line_balance(state, line, line_number, n - 1);
        if is_code(line, n - 1) {
            delimiter_step(before, line[n - 1], line_number, line)
        } else {
            before
        }
    }
}

/// The balance behind the first `n` lines.
pub open spec fn balance(lines: Seq<Seq<char>>, n: int) -> BalanceModel
    decreases n,
{
    if n <= 0 {
        BalanceModel { stack: Seq::empty(), issues: Seq::empty() }
    } else {
        line_balance(balance(lines, n - 1), lines[n - 1], n - 1, lines[n - 1].len() as int)
    }
}

/// The issues for the delimiters that are still open.
pub open spec fn unclosed(stack: Seq<(char, int)>, lines: Seq<Seq<char>>) -> Seq<IssueModel> {
    Seq::new(
        stack.len(),
        |i: int|
            IssueModel {
                line: stack[i].1,
                description: unclosed_text(stack[i].0),
                evidence: lines[stack[i].1],
            },
    )
}

/// The delimiters of a text that have no partner or the wrong one.
pub open spec fn delimiter_issues(content: Seq<char>) -> Seq<IssueModel> {
    let lines = line_seq(content);
    let end = balance(lines, lines.len() as int);
    end.issues + unclosed(end.stack, lines)
}

fn is_quote(c: char) -> (r: bool)
    ensures
        r == quote_char(c),
{
    c == '"' || c == '\'' || c == '`'
}

fn is_comment_start(line: &[char], col: usize) -> (r: bool)
    requires
        col < line@.len(),
    ensures
        r == comment_start(line@, col as int),
{
    let n: usize = line.len();
    line[col] == '#' || (line[col] == '/' && col + 1 < n && line[col + 1] == '/')
}

fn next_line_state(state: LineState, line: &[char], col: usize) -> (r: LineState)
    requires
        col < line@.len(),
    ensures
        r == line_step(state, line@, col as int),
{
    let c: char = line[col];
    if state.in_comment {
        state
    } else if !state.in_string {
        if is_comment_start(line, col) {
            LineState { in_string: false, quote: state.quote, in_comment: true }
        } else if is_quote(c) {
            LineState { in_string: true, quote: c, in_comment: false }
        } else {
            state
        }
    } else if c == state.quote && !(col > 0 && line[col - 1] == '\\') {
        LineState { in_string: false, quote: state.quote, in_comment: false }
    } else {
        state
    }
}

fn partner_of(c: char) -> (r: char)
    ensures
        r == partner(c),
{
    match c {
        '{' => '}',
        '[' => ']',
        '(' => ')',
        '}' => '{',
        ']' => '[',
        _ => '(',
    }
}

fn mismatch_message(found: char, open: char, open_line: usize) -> (r: String)
    ensures
        r@ == mismatch_text(found, open, open_line as int),
{
    let mut out: Vec<char> = chars_of("Mismatched delimiter: expected '");
    out.push(partner_of(found));
    append_str(&mut out, "' to close '");
    out.push(open);
    append_str(&mut out, "' at line ");
    append_text(&mut out, decimal_text(open_line as u128 + 1).as_slice());
    append_str(&mut out, ", found '");
    out.push(found);
    append_str(&mut out, "'");
    assert(out@ =~= mismatch_text(found, open, open_line as int));
    string_of(out.as_slice())
}

fn unexpected_message(found: char) -> (r: String)
    ensures
        r@ == unexpected_text(found),
{
    let mut out: Vec<char> = chars_of("Unexpected closing delimiter '");
    out.push(found);
    append_str(&mut out, "' with no matching opener");
    assert(out@ =~= unexpected_text(found));
    string_of(out.as_slice())
}

fn unclosed_message(open: char) -> (r: String)
    ensures
        r@ == unclosed_text(open),
{
    let mut out: Vec<char> = chars_of("Unclosed delimiter '");
    out.push(open);
    append_str(&mut out, "' - missing '");
    out.push(partner_of(open));
    append_str(&mut out, "'");
    assert(out@ =~= unclosed_text(open));
    string_of(out.as_slice())
}

pub open spec fn stack_model(stack: Seq<(char, usize)>) -> Seq<(char, int)> {
    Seq::new(stack.len(), |i: int| (stack[i].0, stack[i].1 as int))
}

fn take_delimiter(
    stack: &mut Vec<(char, usize)>,
    issues: &mut Vec<RobustnessIssue>,
    c: char,
    line_number: usize,
    line: &[char],
)
    ensures
        (BalanceModel { stack: stack_model(final(stack)@), issues: issue_models(final(issues)@) })
            == delimiter_step(
            BalanceModel { stack: stack_model(old(stack)@), issues: issue_models(old(issues)@) },
            c,
            line_number as int,
            line@,
        ),
{
    let ghost before = stack@;
    if c == '{' || c == '[' || c == '(' {
        stack.push((c, line_number));
        assert(stack_model(stack@) =~= stack_model(before).push((c, line_number as int)));
    } else if c == '}' || c == ']' || c == ')' {
        match stack.pop() {
            None => {
                assert(stack_model(stack@) =~= stack_model(before));
                push_issue(issues, line_number, unexpected_message(c), line);
            },
            Some((open, open_line)) => {
                assert(stack_model(stack@) =~= stack_model(before).drop_last());
                assert(stack_model(before).last() == (open, open_line as int));
                if open != partner_of(c) {
                    push_issue(issues, line_number, mismatch_message(c, open, open_line), line);
                }
            },
        }
    }
}

fn scan_line(
    stack: &mut Vec<(char, usize)>,
    issues: &mut Vec<RobustnessIssue>,
    line_number: usize,
    line: &[char],
)
    ensures
        (BalanceModel { stack: stack_model(final(stack)@), issues: issue_models(final(issues)@) })
            == line_balance(
            BalanceModel { stack: stack_model(old(stack)@), issues: issue_models(old(issues)@) },
            line@,
            line_number as int,
            line@.len() as int,
        ),
{
    let ghost start = BalanceModel {
        stack: stack_model(stack@),
        issues: issue_models(issues@),
    };
    let mut state: LineState = LineState { in_string: false, quote: ' ', in_comment: false };
    let mut col: usize = 0;
    while col < line.len()
        invariant
            col <= line@.len(),
            state == line_state(line@, col as int),
            (BalanceModel { stack: stack_model(stack@), issues: issue_models(issues@) })
                == line_balance(start, line@, line_number as int, col as int),
        decreases line@.len() - col,
    {
        let c: char = line[col];
        if !state.in_comment && !state.in_string && !is_comment_start(line, col) && !is_quote(c) {
            take_delimiter(stack, issues, c, line_number, line);
        }
        state = next_line_state(state, line, col);
        col += 1;
    }
}

/// Every open delimiter stands in one of the lines up to `last`.
pub open spec fn stack_within(stack: Seq<(char, int)>, last: int) -> bool {
    forall|i: int| 0 <= i < stack.len() ==> 0 <= (#[trigger] stack[i]).1 && stack[i].1 <= last
}

proof fn lemma_stack_lines(lines: Seq<Seq<char>>, n: int)
    requires
        0 <= n <= lines.len(),
    ensures
        stack_within(balance(lines, n).stack, n - 1),
    decreases n,
{
    if n > 0 {
        lemma_stack_lines(lines, n - 1);
        lemma_line_stack(balance(lines, n - 1), lines[n - 1], n - 1, lines[n - 1].len() as int);
    }
}

proof fn lemma_line_stack(state: BalanceModel, line: Seq<char>, line_number: int, n: int)
    requires
        0 <= line_number,
        stack_within(state.stack, line_number),
    ensures
        stack_within(line_balance(state, line, line_number, n).stack, line_number),
    decreases n,
{
    if n > 0 {
        lemma_line_stack(state, line, line_number, n - 1);
        let before = line_balance(state, line, line_number, n - 1);
        let end = line_balance(state, line, line_number, n);
        assert forall|i: int| 0 <= i < end.stack.len() implies 0 <= (#[trigger] end.stack[i]).1
            && end.stack[i].1 <= line_number by {
            if i < before.stack.len() {
                assert(end.stack[i] == before.stack[i]);
            }
        }
    }
}

/// The delimiters of a text that have no partner or the wrong one. Strings and line
/// comments do not count.
pub fn check_delimiter_balance(content: &str) -> (r: Vec<RobustnessIssue>)
    ensures
        issue_models(r@) == delimiter_issues(content@),
{
    let lines: Vec<Vec<char>> = split_lines(chars_of(content).as_slice());
    let ghost all = line_seq(content@);
    let mut stack: Vec<(char, usize)> = Vec::new();
    let mut issues: Vec<RobustnessIssue> = Vec::new();
    assert(stack_model(stack@) =~= Seq::<(char, int)>::empty());
    assert(issue_models(issues@) =~= Seq::<IssueModel>::empty());
    let mut i: usize = 0;
    while i < lines.len()
        invariant
            i <= lines@.len(),
            texts(lines@) == all,
            (BalanceModel { stack: stack_model(stack@), issues: issue_models(issues@) })
                == balance(all, i as int),
        decreases lines@.len() - i,
    {
        assert(lines@[i as int]@ == all[i as int]);
        scan_line(&mut stack, &mut issues, i, lines[i].as_slice());
        i += 1;
    }
    let ghost end = balance(all, all.len() as int);
    let ghost found = end.issues;
    proof {
        lemma_stack_lines(all, all.len() as int);
    }
    let ghost open = unclosed(end.stack, all);
    let mut k: usize = 0;
    assert(found + open.take(0) =~= found);
    while k < stack.len()
        invariant
            k <= stack@.len(),
            texts(lines@) == all,
            stack_model(stack@) == end.stack,
            stack_within(end.stack, all.len() - 1),
            open == unclosed(end.stack, all),
            issue_models(issues@) == found + open.take(k as int),
        decreases stack@.len() - k,
    {
        let (c, line_number) = stack[k];
        assert(end.stack[k as int] == (c, line_number as int));
        assert(lines@[line_number as int]@ == all[line_number as int]);
        push_issue(
            &mut issues,
            line_number,
            unclosed_message(c),
            lines[line_number].as_slice(),
        );
        assert(open.take(k + 1) =~= open.take(k as int).push(open[k as int]));
        assert(found + open.take(k + 1) =~= (found + open.take(k as int)).push(open[k as int]));
        k += 1;
    }
    assert(open.take(stack@.len() as int) =~= open);
    issues
}

// ---------------------------------------------------------------------------
// Conflict markers
// ---------------------------------------------------------------------------
/// The longest line, in bytes, that is taken for a conflict marker.
pub const CONFLICT_LINE_BYTES: usize = 50;

/// The issue for a conflict marker at the start of a line.
pub open spec fn conflict_issue(
    line: Seq<char>,
    line_number: int,
    marker: Seq<char>,
    description: Seq<char>,
) -> Seq<IssueModel> {
    if has_prefix(trimmed(line), marker) && byte_len(trimmed(line)) <= CONFLICT_LINE_BYTES {
        seq![IssueModel { line: line_number, description, evidence: line }]
    } else {
        Seq::empty()
    }
}

/// The conflict markers in the first `n` lines.
pub open spec fn conflicts_upto(lines: Seq<Seq<char>>, n: int) -> Seq<IssueModel>
    decreases n,
{
    if n <= 0 {
        Seq::empty()
    } else {
        conflicts_upto(lines, n - 1) + conflict_issue(
            lines[n - 1],
            n - 1,
            "<<<<<<<"@,
            "Git conflict start marker"@,
        ) + conflict_issue(
            lines[n - 1],
            n - 1,
            "======="@,
            "Git conflict separator marker"@,
        )
    }
}

/// The lines of a text that mark a conflict.
pub open spec fn conflict_issues(content: Seq<char>) -> Seq<IssueModel> {
    conflicts_upto(line_seq(content), line_seq(content).len() as int)
}

fn push_conflict(
    issues: &mut Vec<RobustnessIssue>,
    line: &[char],
    line_number: usize,
    marker: &str,
    description: &str,
)
    ensures
        issue_models(final(issues)@) == issue_models(old(issues)@) + conflict_issue(
            line@,
            line_number as int,
            marker@,
            description@,
        ),
{
    let t: &[char] = trim(line);
    if starts_with(t, marker) && text_byte_count(t) <= CONFLICT_LINE_BYTES {
        push_issue(issues, line_number, description.to_string(), line);
        assert(issue_models(issues@) =~= issue_models(old(issues)@) + conflict_issue(
            line@,
            line_number as int,
            marker@,
            description@,
        ));
    } else {
        assert(issue_models(issues@) =~= issue_models(old(issues)@) + conflict_issue(
            line@,
            line_number as int,
            marker@,
            description@,
        ));
    }
}

/// The lines of a text that mark a conflict.
pub fn check_conflict_markers(content: &str) -> (r: Vec<RobustnessIssue>)
    ensures
        issue_models(r@) == conflict_issues(content@),
{
    let lines: Vec<Vec<char>> = split_lines(chars_of(content).as_slice());
    let ghost all = line_seq(content@);
    let mut issues: Vec<RobustnessIssue> = Vec::new();
    assert(issue_models(issues@) =~= Seq::<IssueModel>::empty());
    let mut i: usize = 0;
    while i < lines.len()
        invariant
            i <= lines@.len(),
            texts(lines@) == all,
            issue_models(issues@) == conflicts_upto(all, i as int),
        decreases lines@.len() - i,
    {
        let line: &[char] = lines[i].as_slice();
        assert(line@ == all[i as int]);
        push_conflict(&mut issues, line, i, "<<<<<<<", "Git conflict start marker");
        push_conflict(&mut issues, line, i, "=======", "Git conflict separator marker");
        i += 1;
    }
    issues
}

// ---------------------------------------------------------------------------
// Diff prefixes in code
// ---------------------------------------------------------------------------
/// The issue for a plus behind a delimiter that more code follows.
pub open spec fn diff_mark_issue(
    line: Seq<char>,
    line_number: int,
    mark: Seq<char>,
    description: Seq<char>,
) -> Seq<IssueModel> {
    match find_text(line, mark) {
        None => Seq::empty(),
        Some(i) => {
            let after = line.skip(i + mark.len());
            if byte_len(trimmed(after)) > 2 && after.len() > 0 && is_white(after[0]) {
                seq![IssueModel { line: line_number, description, evidence: line }]
            } else {
                Seq::empty()
            }
        },
    }
}

/// The diff prefixes in the first `n` lines.
pub open spec fn diff_marks_upto(lines: Seq<Seq<char>>, n: int) -> Seq<IssueModel>
    decreases n,
{
    if n <= 0 {
        Seq::empty()
    } else {
        let line = lines[n - 1];
        diff_marks_upto(lines, n - 1) + diff_mark_issue(
            line,
            n - 1,
            ";+"@,
            "Embedded diff marker detected - `+` character appears to be from malformed patch"@,
        ) + diff_mark_issue(
            line,
            n - 1,
            "}+"@,
            "Embedded diff marker detected - `+` character after closing brace"@,
        ) + diff_mark_issue(
            line,
            n - 1,
            "{+"@,
            "Embedded diff marker detected - `+` character after opening brace"@,
        )
    }
}

/// The diff prefixes that were left in the code of a text.
pub open spec fn diff_mark_issues(content: Seq<char>) -> Seq<IssueModel> {
    diff_marks_upto(line_seq(content), line_seq(content).len() as int)
}

fn push_diff_mark(
    issues: &mut Vec<RobustnessIssue>,
    line: &[char],
    line_number: usize,
    mark: &str,
    description: &str,
)
    ensures
        issue_models(final(issues)@) == issue_models(old(issues)@) + diff_mark_issue(
            line@,
            line_number as int,
            mark@,
            description@,
        ),
{
    let ghost wanted = diff_mark_issue(line@, line_number as int, mark@, description@);
    match find(line, mark) {
        Some(i) => {
            proof {
                lemma_find_from(line@, mark@, 0);
            }
            let n: usize = chars_of(mark).len();
            let total: usize = line.len();
            assert(i + n <= total);
            let after: &[char] = span(line, i + n, total);
            assert(after@ =~= line@.skip(i + n));
            if text_byte_count(trim(after)) > 2 && after.len() > 0 && is_whitespace(after[0]) {
                push_issue(issues, line_number, description.to_string(), line);
                assert(issue_models(issues@) =~= issue_models(old(issues)@) + wanted);
                return;
            }
        },
        None => {},
    }
    assert(issue_models(issues@) =~= issue_models(old(issues)@) + wanted);
}

/// The diff prefixes that were left in the code of a text.
pub fn check_embedded_diff_markers(content: &str) -> (r: Vec<RobustnessIssue>)
    ensures
        issue_models(r@) == diff_mark_issues(content@),
{
    let lines: Vec<Vec<char>> = split_lines(chars_of(content).as_slice());
    let ghost all = line_seq(content@);
    let mut issues: Vec<RobustnessIssue> = Vec::new();
    assert(issue_models(issues@) =~= Seq::<IssueModel>::empty());
    let mut i: usize = 0;
    while i < lines.len()
        invariant
            i <= lines@.len(),
            texts(lines@) == all,
            issue_models(issues@) == diff_marks_upto(all, i as int),
        decreases lines@.len() - i,
    {
        let line: &[char] = lines[i].as_slice();
        assert(line@ == all[i as int]);
        push_diff_mark(
            &mut issues,
            line,
            i,
            ";+",
            "Embedded diff marker detected - `+` character appears to be from malformed patch",
        );
        push_diff_mark(
            &mut issues,
            line,
            i,
            "}+",
            "Embedded diff marker detected - `+` character after closing brace",
        );
        push_diff_mark(
            &mut issues,
            line,
            i,
            "{+",
            "Embedded diff marker detected - `+` character after opening brace",
        );
        i += 1;
    }
    issues
}

// ---------------------------------------------------------------------------
// All checks
// ---------------------------------------------------------------------------
/// All issues of a text.
pub open spec fn probe_issues(content: Seq<char>) -> Seq<IssueModel> {
    delimiter_issues(content) + conflict_issues(content) + diff_mark_issues(content)
}

fn append_issues(issues: &mut Vec<RobustnessIssue>, more: Vec<RobustnessIssue>)
    ensures
        issue_models(final(issues)@) == issue_models(old(issues)@) + issue_models(more@),
{
    let mut more: Vec<RobustnessIssue> = more;
    let ghost a = issues@;
    let ghost b = more@;
    issues.append(&mut more);
    assert(issue_models(issues@) =~= issue_models(a) + issue_models(b));
}

/// Runs all checks on a text.
pub fn run_robustness_probe(content: &str) -> (r: Vec<RobustnessIssue>)
    ensures
        issue_models(r@) == probe_issues(content@),
{
    let mut issues: Vec<RobustnessIssue> = check_delimiter_balance(content);
    append_issues(&mut issues, check_conflict_markers(content));
    append_issues(&mut issues, check_embedded_diff_markers(content));
    issues
}

} // verus!
