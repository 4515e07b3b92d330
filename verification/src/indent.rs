//! Indentation.
use vstd::prelude::*;

use crate::lines::{lemma_texts_push, strings, strings_of, texts, texts_of};
use crate::text::{
    append_text, chars_of, has_char, is_blank, is_blank_text, is_white, lemma_blank,
    lemma_trimmed_start, skip_white, span, trim_start, trimmed_start,
};

verus! {

/// The columns of a tab.
pub const TAB_WIDTH: usize = 4;

/// The columns of a run of spaces that stand for one level.
pub const INDENT_WIDTH: usize = 4;

/// How a file is indented.
#[derive(Clone, Copy, Debug, PartialEq, Eq, Structural)]
pub enum IndentStyle {
    Tabs,
    /// With so many spaces to a level.
    Spaces(usize),
    /// Mixed or unknown.
    Unknown,
}

// ---------------------------------------------------------------------------
// Columns
// ---------------------------------------------------------------------------
/// The columns that the spaces and tabs at the start of a line take up.
pub open spec fn columns(line: Seq<char>, tab_width: nat) -> nat {
    columns_from(line, tab_width, 0)
}

pub open spec fn columns_from(line: Seq<char>, tab_width: nat, i: int) -> nat
    decreases line.len() - i,
{
    if i < 0 || i >= line.len() {
        0
    } else if line[i] == ' ' {
        1 + columns_from(line, tab_width, i + 1)
    } else if line[i] == '\t' {
        tab_width + columns_from(line, tab_width, i + 1)
    } else {
        0
    }
}

/// The spaces at the start of a line, from position `i` on.
pub open spec fn spaces_from(line: Seq<char>, i: int) -> nat
    decreases line.len() - i,
{
    if 0 <= i < line.len() && line[i] == ' ' {
        1 + spaces_from(line, i + 1)
    } else {
        0
    }
}

/// The columns of a line's indentation.
pub fn line_columns(line: &[char], tab_width: usize) -> (r: u128)
    ensures
        r == columns(line@, tab_width as nat),
{
    let mut total: u128 = 0;
    let mut i: usize = 0;
    let wide: u128 = tab_width as u128;
    let n: usize = line.len();
    while i < n
        invariant
            i <= n,
            n == line@.len(),
            wide == tab_width,
            total <= i * 0x1_0000_0000_0000_0000,
            total + columns_from(line@, tab_width as nat, i as int) == columns(
                line@,
                tab_width as nat,
            ),
        decreases line@.len() - i,
    {
        assert(i * 0x1_0000_0000_0000_0000 + 0x1_0000_0000_0000_0000 <= u128::MAX)
            by (nonlinear_arith)
            requires
                i < 0x1_0000_0000_0000_0000 - 1,
        ;
        let c: char = line[i];
        if c == ' ' {
            total += 1;
        } else if c == '\t' {
            total += wide;
        } else {
            return total;
        }
        i += 1;
    }
    total
}

/// The columns of a line's indentation, with tabs of a given width.
pub fn detect_indentation_columns(line: &str, tab_width: usize) -> (r: usize)
    requires
        columns(line@, tab_width as nat) <= usize::MAX,
    ensures
        r == columns(line@, tab_width as nat),
{
    line_columns(chars_of(line).as_slice(), tab_width) as usize
}

/// The number of spaces at the start of a line.
pub fn detect_indentation(line: &str) -> (r: usize)
    ensures
        r == spaces_from(line@, 0),
{
    let s: Vec<char> = chars_of(line);
    let mut i: usize = 0;
    while i < s.len() && s[i] == ' '
        invariant
            i <= s@.len(),
            s@ == line@,
            i + spaces_from(s@, i as int) == spaces_from(s@, 0),
        decreases s@.len() - i,
    {
        i += 1;
    }
    i
}

// ---------------------------------------------------------------------------
// Style
// ---------------------------------------------------------------------------
/// The white space at the start of a line.
pub open spec fn leading(line: Seq<char>) -> Seq<char> {
    line.take(skip_white(line, 0))
}

/// How many of the first `n` lines are indented with a tab.
pub open spec fn tab_lines(lines: Seq<Seq<char>>, n: int) -> nat
    decreases n,
{
    if n <= 0 {
        0
    } else {
        let one: nat = if leading(lines[n - 1]).contains('\t') {
            1
        } else {
            0
        };
        tab_lines(lines, n - 1) + one
    }
}

/// How many of the first `n` lines are indented without a tab.
pub open spec fn space_lines(lines: Seq<Seq<char>>, n: int) -> nat
    decreases n,
{
    if n <= 0 {
        0
    } else {
        let lead = leading(lines[n - 1]);
        let one: nat = if lead.len() > 0 && !lead.contains('\t') {
            1
        } else {
            0
        };
        space_lines(lines, n - 1) + one
    }
}

/// The style of the lines: more than twice as many lines in it as in the other.
pub open spec fn indent_style(lines: Seq<Seq<char>>) -> IndentStyle {
    let tabs = tab_lines(lines, lines.len() as int);
    let spaces = space_lines(lines, lines.len() as int);
    if tabs > 2 * spaces {
        IndentStyle::Tabs
    } else if spaces > 2 * tabs {
        IndentStyle::Spaces(INDENT_WIDTH)
    } else {
        IndentStyle::Unknown
    }
}

/// The style in which most lines are indented.
pub fn detect_indent_style(source_lines: &[String]) -> (r: IndentStyle)
    ensures
        r == indent_style(strings(source_lines@)),
{
    let lines: Vec<Vec<char>> = texts_of(source_lines);
    let ghost all = texts(lines@);
    let mut tabs: usize = 0;
    let mut spaces: usize = 0;
    let n: usize = lines.len();
    let mut i: usize = 0;
    while i < n
        invariant
            i <= n,
            n == lines@.len(),
            all == texts(lines@),
            tabs == tab_lines(all, i as int),
            spaces == space_lines(all, i as int),
            tabs + spaces <= i,
        decreases n - i,
    {
        let line: &[char] = lines[i].as_slice();
        assert(line@ == all[i as int]);
        let rest: usize = trim_start(line).len();
        proof {
            lemma_trimmed_start(line@);
        }
        let lead: &[char] = span(line, 0, line.len() - rest);
        assert(lead@ =~= leading(line@));
        if has_char(lead, '\t') {
            tabs += 1;
        } else if lead.len() > 0 {
            spaces += 1;
        }
        i += 1;
    }
    if tabs as u128 > 2 * (spaces as u128) {
        IndentStyle::Tabs
    } else if spaces as u128 > 2 * (tabs as u128) {
        IndentStyle::Spaces(INDENT_WIDTH)
    } else {
        IndentStyle::Unknown
    }
}

// ---------------------------------------------------------------------------
// Correction
// ---------------------------------------------------------------------------
/// The least indentation of those of the first `n` lines that are not blank.
pub open spec fn least_columns(lines: Seq<Seq<char>>, n: int) -> Option<nat>
    decreases n,
{
    if n <= 0 {
        None
    } else {
        let least = least_columns(lines, n - 1);
        let own = columns(lines[n - 1], TAB_WIDTH as nat);
        if is_blank_text(lines[n - 1]) {
            least
        } else if least matches Some(k) && k <= own {
            least
        } else {
            Some(own)
        }
    }
}

/// A run of spaces.
pub open spec fn spaces(n: nat) -> Seq<char> {
    Seq::new(n, |i: int| ' ')
}

/// A line with the indentation that it has beyond `least`, behind `target` columns.
/// A blank line is left empty.
pub open spec fn corrected_line(line: Seq<char>, least: nat, target: nat) -> Seq<char> {
    if is_blank_text(line) {
        Seq::empty()
    } else {
        let own = columns(line, TAB_WIDTH as nat);
        let beyond: nat = if own >= least {
            (own - least) as nat
        } else {
            0
        };
        spaces(target + beyond) + trimmed_start(line)
    }
}

/// The least indentation of the lines that are not blank, or nothing.
pub open spec fn base_columns(lines: Seq<Seq<char>>) -> nat {
    match least_columns(lines, lines.len() as int) {
        Some(k) => k,
        None => 0,
    }
}

/// The lines, moved so that the least indented one starts at the target column.
pub open spec fn corrected(lines: Seq<Seq<char>>, target: nat) -> Seq<Seq<char>> {
    Seq::new(lines.len(), |i: int| corrected_line(lines[i], base_columns(lines), target))
}

fn find_base_columns(lines: &[Vec<char>]) -> (r: u128)
    ensures
        r == base_columns(texts(lines@)),
{
    let ghost all = texts(lines@);
    let mut least: Option<u128> = None;
    let mut i: usize = 0;
    while i < lines.len()
        invariant
            i <= lines@.len(),
            all == texts(lines@),
            match least {
                Some(k) => least_columns(all, i as int) == Some(k as nat),
                None => least_columns(all, i as int) is None,
            },
        decreases lines@.len() - i,
    {
        let line: &[char] = lines[i].as_slice();
        assert(line@ == all[i as int]);
        if !is_blank(line) {
            let own: u128 = line_columns(line, TAB_WIDTH);
            let keep: bool = match least {
                Some(k) => k <= own,
                None => false,
            };
            if !keep {
                least = Some(own);
            }
        }
        i += 1;
    }
    match least {
        Some(k) => k,
        None => 0,
    }
}

fn push_spaces(out: &mut Vec<char>, n: u128)
    ensures
        final(out)@ == old(out)@ + spaces(n as nat),
{
    let mut k: u128 = 0;
    while k < n
        invariant
            k <= n,
            out@ == old(out)@ + spaces(k as nat),
        decreases n - k,
    {
        out.push(' ');
        k += 1;
        assert(out@ =~= old(out)@ + spaces(k as nat));
    }
    assert(out@ =~= old(out)@ + spaces(n as nat));
}

fn correct_line(line: &[char], least: u128, target_column: usize) -> (r: Vec<char>)
    ensures
        r@ == corrected_line(line@, least as nat, target_column as nat),
{
    let mut out: Vec<char> = Vec::new();
    if !is_blank(line) {
        let own: u128 = line_columns(line, TAB_WIDTH);
        push_spaces(&mut out, target_column as u128);
        if own >= least {
            push_spaces(&mut out, own - least);
        }
        append_text(&mut out, trim_start(line));
        assert(out@ =~= corrected_line(line@, least as nat, target_column as nat));
    }
    out
}

/// Moves the lines so that the least indented one starts at the target column.
pub fn correct_indentation_impl(new_lines: &[Vec<char>], target_column: usize) -> (r: Vec<Vec<char>>)
    ensures
        texts(r@) == corrected(texts(new_lines@), target_column as nat),
{
    let least: u128 = find_base_columns(new_lines);
    let ghost all = corrected(texts(new_lines@), target_column as nat);
    let mut out: Vec<Vec<char>> = Vec::new();
    let mut i: usize = 0;
    assert(texts(out@) =~= all.take(0));
    while i < new_lines.len()
        invariant
            i <= new_lines@.len(),
            least == base_columns(texts(new_lines@)),
            all == corrected(texts(new_lines@), target_column as nat),
            texts(out@) == all.take(i as int),
        decreases new_lines@.len() - i,
    {
        let line: Vec<char> = correct_line(new_lines[i].as_slice(), least, target_column);
        proof {
            lemma_texts_push(out@, line);
            assert(all.take(i as int).push(line@) =~= all.take(i + 1));
        }
        out.push(line);
        i += 1;
    }
    assert(all.take(new_lines@.len() as int) =~= all);
    out
}

/// Moves the lines so that the least indented one starts at the target column and
/// the others keep their places relative to it. Blank lines become empty, and
/// spaces stand for tabs. The indentation of the source does not count.
pub fn correct_indentation(new_lines: &[String], target_column: usize, _source_indent: usize) -> (r:
    Vec<String>)
    ensures
        strings(r@) == corrected(strings(new_lines@), target_column as nat),
{
    let lines: Vec<Vec<char>> = texts_of(new_lines);
    strings_of(correct_indentation_impl(lines.as_slice(), target_column).as_slice())
}

// ---------------------------------------------------------------------------
// Laws
// ---------------------------------------------------------------------------
proof fn lemma_columns_of_spaces(n: nat, rest: Seq<char>, i: int)
    requires
        0 <= i <= n,
        rest.len() > 0 ==> !is_white(rest[0]),
    ensures
        columns_from(spaces(n) + rest, TAB_WIDTH as nat, i) == n - i,
    decreases n - i,
{
    let line = spaces(n) + rest;
    if i < n {
        assert(line[i] == ' ');
        lemma_columns_of_spaces(n, rest, i + 1);
    } else if rest.len() > 0 {
        assert(line[i] == rest[0]);
    }
}

proof fn lemma_least_columns(lines: Seq<Seq<char>>, n: int)
    requires
        0 <= n <= lines.len(),
    ensures
        match least_columns(lines, n) {
            Some(k) => {
                &&& forall|i: int|
                    0 <= i < n && !is_blank_text(#[trigger] lines[i]) ==> k <= columns(
                        lines[i],
                        TAB_WIDTH as nat,
                    )
                &&& exists|i: int|
                    0 <= i < n && !is_blank_text(#[trigger] lines[i]) && k == columns(
                        lines[i],
                        TAB_WIDTH as nat,
                    )
            },
            None => forall|i: int| 0 <= i < n ==> is_blank_text(#[trigger] lines[i]),
        },
    decreases n,
{
    if n > 0 {
        lemma_least_columns(lines, n - 1);
    }
}

/// Correction keeps the number of lines, leaves blank lines empty, and moves all
/// other lines by the same number of columns: a line that stood `d` columns beyond
/// the least indented one stands `d` columns beyond the target.
pub proof fn law_correction_keeps_relative_indentation(
    lines: Seq<Seq<char>>,
    target: nat,
    i: int,
)
    requires
        0 <= i < lines.len(),
    ensures
        corrected(lines, target).len() == lines.len(),
        is_blank_text(lines[i]) ==> corrected(lines, target)[i].len() == 0,
        !is_blank_text(lines[i]) ==> {
            &&& columns(corrected(lines, target)[i], TAB_WIDTH as nat) == target + columns(
                lines[i],
                TAB_WIDTH as nat,
            ) - base_columns(lines)
            &&& trimmed_start(corrected(lines, target)[i]) == trimmed_start(lines[i])
        },
{
    let line = lines[i];
    lemma_least_columns(lines, lines.len() as int);
    if !is_blank_text(line) {
        lemma_trimmed_start(line);
        lemma_blank(line);
        let own = columns(line, TAB_WIDTH as nat);
        let n = (target + own - base_columns(lines)) as nat;
        lemma_columns_of_spaces(n, trimmed_start(line), 0);
        lemma_trim_spaces(n, trimmed_start(line), 0);
        let out = corrected(lines, target)[i];
        assert(out == spaces(n) + trimmed_start(line));
        assert(trimmed_start(out) =~= trimmed_start(line));
    }
}

proof fn lemma_trim_spaces(n: nat, rest: Seq<char>, i: int)
    requires
        0 <= i <= n,
        rest.len() > 0,
        !is_white(rest[0]),
    ensures
        skip_white(spaces(n) + rest, i) == n,
    decreases n - i,
{
    let line = spaces(n) + rest;
    if i < n {
        assert(line[i] == ' ');
        lemma_trim_spaces(n, rest, i + 1);
    } else {
        assert(line[i] == rest[0]);
    }
}

/// Some line that is not blank starts at the target column, if there is such a
/// line at all.
pub proof fn law_correction_reaches_the_target(lines: Seq<Seq<char>>, target: nat, i: int)
    requires
        0 <= i < lines.len(),
        !is_blank_text(lines[i]),
    ensures
        exists|k: int|
            0 <= k < lines.len() && !is_blank_text(#[trigger] lines[k]) && columns(
                corrected(lines, target)[k],
                TAB_WIDTH as nat,
            ) == target,
{
    lemma_least_columns(lines, lines.len() as int);
    let k = choose|k: int|
        0 <= k < lines.len() && !is_blank_text(#[trigger] lines[k]) && base_columns(lines)
            == columns(lines[k], TAB_WIDTH as nat);
    law_correction_keeps_relative_indentation(lines, target, k);
}

/// The lines `to` are the lines `from`, moved together: each that is not blank holds
/// the same text behind spaces alone, any two of them stand as far apart in columns as
/// before, and the least indented one starts at `target`. Blank lines are empty.
pub open spec fn is_moved(from: Seq<Seq<char>>, to: Seq<Seq<char>>, target: int) -> bool {
    let width = TAB_WIDTH as nat;
    &&& to.len() == from.len()
    &&& forall|k: int| 0 <= k < from.len() && is_blank_text(from[k]) ==> (#[trigger] to[k]).len() == 0
    &&& forall|k: int|
        0 <= k < from.len() && !is_blank_text(from[k]) ==> {
            &&& trimmed_start(#[trigger] to[k]) == trimmed_start(from[k])
            &&& forall|m: int|
                0 <= m < to[k].len() - trimmed_start(from[k]).len() ==> to[k][m] == ' '
            &&& columns(to[k], width) >= target
        }
    &&& forall|j: int, k: int|
        0 <= j < from.len() && 0 <= k < from.len() && !is_blank_text(from[j]) && !is_blank_text(
            from[k],
        ) ==> columns(#[trigger] to[j], width) - columns(from[j], width) == columns(
            #[trigger] to[k],
            width,
        ) - columns(from[k], width)
    &&& (exists|k: int| 0 <= k < from.len() && !is_blank_text(#[trigger] from[k])) ==> exists|
        k: int,
    |
        0 <= k < from.len() && !is_blank_text(from[k]) && columns(#[trigger] to[k], width)
            == target
}

/// Correction moves the lines together until the least indented one starts at the
/// target column, and changes nothing else of them.
pub proof fn law_corrected_lines_are_moved(lines: Seq<Seq<char>>, target: nat)
    ensures
        is_moved(lines, corrected(lines, target), target as int),
{
    let to = corrected(lines, target);
    let width = TAB_WIDTH as nat;
    lemma_least_columns(lines, lines.len() as int);
    assert forall|k: int| 0 <= k < lines.len() implies if is_blank_text(lines[k]) {
        (#[trigger] to[k]).len() == 0
    } else {
        &&& columns(to[k], width) == target + columns(lines[k], width) - base_columns(lines)
        &&& trimmed_start(to[k]) == trimmed_start(lines[k])
        &&& columns(to[k], width) >= target
        &&& forall|m: int| 0 <= m < to[k].len() - trimmed_start(lines[k]).len() ==> to[k][m] == ' '
    } by {
        law_correction_keeps_relative_indentation(lines, target, k);
    }
    if exists|k: int| 0 <= k < lines.len() && !is_blank_text(#[trigger] lines[k]) {
        let i = choose|k: int| 0 <= k < lines.len() && !is_blank_text(#[trigger] lines[k]);
        law_correction_reaches_the_target(lines, target, i);
        let k = choose|k: int|
            0 <= k < lines.len() && !is_blank_text(#[trigger] lines[k]) && columns(to[k], width)
                == target;
        assert(columns(to[k], width) == target);
    }
}

} // verus!
