//! What is said of the changes of a patch, and what they are measured by.
use vstd::prelude::*;

use crate::apply::{missing_file, path_lines, read_file, read_from, read_paths, summary};
use crate::indent::{
    columns, columns_from, indent_style, leading, space_lines, tab_lines, IndentStyle,
};
use crate::lines::{ended, lemma_ended_push};
use crate::parser::HunkModel;
use crate::syntax_guard::{
    diagnostics, diagnostics_upto, DiagnosticModel, ErrorModel, ValidationModel,
};
use crate::text::{is_white, lemma_skip_white, skip_white};
use crate::transaction::{affected_by, failures_of, AffectedModel, ChangeModel};

verus! {

// ---------------------------------------------------------------------------
// The files that were touched
// ---------------------------------------------------------------------------
/// The paths of the changes that a rule picks, in their order.
pub open spec fn paths_of(
    changes: Seq<ChangeModel>,
    picks: spec_fn(ChangeModel) -> bool,
) -> Seq<Seq<char>> {
    changes.filter(picks).map_values(|c: ChangeModel| change_path(c))
}

pub open spec fn change_path(change: ChangeModel) -> Seq<char> {
    match change {
        ChangeModel::Add { path, .. } => path,
        ChangeModel::Update { path, .. } => path,
        ChangeModel::Delete { path, .. } => path,
    }
}

proof fn lemma_pick(changes: Seq<ChangeModel>, picks: spec_fn(ChangeModel) -> bool)
    requires
        changes.len() > 0,
    ensures
        picks(changes.last()) ==> paths_of(changes, picks) == paths_of(
            changes.drop_last(),
            picks,
        ).push(change_path(changes.last())),
        !picks(changes.last()) ==> paths_of(changes, picks) == paths_of(changes.drop_last(), picks),
{
    reveal(Seq::filter);
    let front = changes.drop_last();
    if picks(changes.last()) {
        assert(paths_of(changes, picks) =~= paths_of(front, picks).push(
            change_path(changes.last()),
        ));
    }
}

/// The files that count as added, modified and deleted are those that are added, updated
/// and deleted, in the order of the changes.
pub proof fn law_touched_files_are_those_of_the_changes(changes: Seq<ChangeModel>)
    ensures
        affected_by(changes).added == paths_of(changes, |c: ChangeModel| c is Add),
        affected_by(changes).modified == paths_of(changes, |c: ChangeModel| c is Update),
        affected_by(changes).deleted == paths_of(changes, |c: ChangeModel| c is Delete),
    decreases changes.len(),
{
    let adds = |c: ChangeModel| c is Add;
    let updates = |c: ChangeModel| c is Update;
    let deletes = |c: ChangeModel| c is Delete;
    if changes.len() == 0 {
        reveal(Seq::filter);
        assert(paths_of(changes, adds) =~= Seq::empty());
        assert(paths_of(changes, updates) =~= Seq::empty());
        assert(paths_of(changes, deletes) =~= Seq::empty());
    } else {
        law_touched_files_are_those_of_the_changes(changes.drop_last());
        lemma_pick(changes, adds);
        lemma_pick(changes, updates);
        lemma_pick(changes, deletes);
    }
}

/// A line for each path.
pub open spec fn lines_for(letter: char, paths: Seq<Seq<char>>) -> Seq<Seq<char>> {
    paths.map_values(|p: Seq<char>| seq![letter, ' '] + p)
}

proof fn lemma_path_lines(before: Seq<Seq<char>>, letter: char, mark: Seq<char>, paths: Seq<Seq<char>>)
    requires
        mark == seq![letter, ' '],
    ensures
        ended(before + lines_for(letter, paths)) == ended(before) + path_lines(mark, paths),
    decreases paths.len(),
{
    let lines = lines_for(letter, paths);
    if paths.len() == 0 {
        assert(before + lines =~= before);
        assert(ended(before) =~= ended(before) + path_lines(mark, paths));
    } else {
        let front = paths.drop_last();
        lemma_path_lines(before, letter, mark, front);
        let last = seq![letter, ' '] + paths.last();
        assert(before + lines =~= (before + lines_for(letter, front)).push(last));
        lemma_ended_push(before + lines_for(letter, front), last);
        assert(ended(before + lines) =~= ended(before) + path_lines(mark, paths));
    }
}

/// The summary is a headline and then a line for each file: first the added ones, then the
/// modified ones, then the deleted ones, each behind its letter.
pub proof fn law_summary_has_a_line_for_each_file(affected: AffectedModel)
    ensures
        summary(affected) == ended(
            seq!["Success. Updated the following files:"@] + lines_for('A', affected.added)
                + lines_for('M', affected.modified) + lines_for('D', affected.deleted),
        ),
{
    reveal_strlit("Success. Updated the following files:");
    reveal_strlit("Success. Updated the following files:\n");
    reveal_strlit("A ");
    reveal_strlit("M ");
    reveal_strlit("D ");
    assert("A "@ =~= seq!['A', ' ']);
    assert("M "@ =~= seq!['M', ' ']);
    assert("D "@ =~= seq!['D', ' ']);
    let title = "Success. Updated the following files:"@;
    let head = seq![title];
    assert(head =~= Seq::<Seq<char>>::empty().push(title));
    lemma_ended_push(Seq::empty(), title);
    assert(ended(Seq::<Seq<char>>::empty()) =~= Seq::<char>::empty());
    assert(ended(head) =~= "Success. Updated the following files:\n"@);
    let a = head + lines_for('A', affected.added);
    let b = a + lines_for('M', affected.modified);
    lemma_path_lines(head, 'A', "A "@, affected.added);
    lemma_path_lines(a, 'M', "M "@, affected.modified);
    lemma_path_lines(b, 'D', "D "@, affected.deleted);
}

// ---------------------------------------------------------------------------
// What is refused
// ---------------------------------------------------------------------------
/// The failures are the outcomes that are not valid, in their order.
pub proof fn law_failures_are_the_outcomes_that_are_not_valid(validations: Seq<ValidationModel>)
    ensures
        failures_of(validations) == validations.filter(|v: ValidationModel| !v.is_valid),
    decreases validations.len(),
{
    reveal(Seq::filter);
    if validations.len() > 0 {
        law_failures_are_the_outcomes_that_are_not_valid(validations.drop_last());
    }
}

/// The errors after a change at whose place, by line and column, there was none before it.
pub open spec fn fresh_errors(v: ValidationModel) -> Seq<ErrorModel> {
    v.after_errors.filter(
        |e: ErrorModel|
            forall|i: int|
                0 <= i < v.before_errors.len() ==> (#[trigger] v.before_errors[i]).line != e.line
                    || v.before_errors[i].column != e.column,
    )
}

/// The diagnostic tells of the error: the file, and the line that the error stands in.
pub open spec fn diagnoses(d: DiagnosticModel, v: ValidationModel, e: ErrorModel) -> bool {
    &&& d.path == v.path
    &&& d.language == Some(v.language)
    &&& e.context matches Some(line) ==> d.evidence == line
}

proof fn lemma_diagnostics(v: ValidationModel, n: int)
    requires
        0 <= n <= v.after_errors.len(),
    ensures
        ({
            let part = ValidationModel { after_errors: v.after_errors.take(n), ..v };
            &&& diagnostics_upto(v, n).len() == fresh_errors(part).len()
            &&& forall|i: int|
                0 <= i < diagnostics_upto(v, n).len() ==> diagnoses(
                    #[trigger] diagnostics_upto(v, n)[i],
                    v,
                    fresh_errors(part)[i],
                )
        }),
    decreases n,
{
    reveal(Seq::filter);
    let part = ValidationModel { after_errors: v.after_errors.take(n), ..v };
    if n > 0 {
        lemma_diagnostics(v, n - 1);
        let shorter = ValidationModel { after_errors: v.after_errors.take(n - 1), ..v };
        assert(v.after_errors.take(n).drop_last() =~= v.after_errors.take(n - 1));
        let e = v.after_errors[n - 1];
        assert(v.after_errors.take(n).last() == e);
        let fresh = |e: ErrorModel|
            forall|i: int|
                0 <= i < v.before_errors.len() ==> (#[trigger] v.before_errors[i]).line != e.line
                    || v.before_errors[i].column != e.column;
        assert(fresh_errors(part) =~= v.after_errors.take(n).filter(fresh));
        assert(fresh_errors(shorter) =~= v.after_errors.take(n - 1).filter(fresh));
    } else {
        assert(v.after_errors.take(0) =~= Seq::empty());
        assert(fresh_errors(part) =~= Seq::empty());
    }
}

/// There is a diagnostic for each error at whose place there was none before, in their
/// order, and there are no others.
pub proof fn law_each_fresh_error_is_diagnosed(v: ValidationModel)
    ensures
        diagnostics(v).len() == fresh_errors(v).len(),
        forall|i: int|
            0 <= i < diagnostics(v).len() ==> diagnoses(
                #[trigger] diagnostics(v)[i],
                v,
                fresh_errors(v)[i],
            ),
{
    lemma_diagnostics(v, v.after_errors.len() as int);
    assert(v.after_errors.take(v.after_errors.len() as int) =~= v.after_errors);
}

// ---------------------------------------------------------------------------
// The files that are read
// ---------------------------------------------------------------------------
/// The hunk works on a file that is there.
pub open spec fn needs_file(hunk: HunkModel, path: Seq<char>) -> bool {
    match hunk {
        HunkModel::AddFile { .. } => false,
        HunkModel::DeleteFile { path: own } => own == path,
        HunkModel::UpdateFile { path: own, .. } => own == path,
    }
}

/// A file is read exactly where some hunk deletes or updates it.
pub proof fn law_files_that_hunks_need_are_read(hunks: Seq<HunkModel>, path: Seq<char>)
    ensures
        read_paths(hunks).contains(path) <==> exists|i: int|
            0 <= i < hunks.len() && needs_file(#[trigger] hunks[i], path),
    decreases hunks.len(),
{
    if hunks.len() > 0 {
        let front = hunks.drop_last();
        let before = read_paths(front);
        let all = read_paths(hunks);
        law_files_that_hunks_need_are_read(front, path);
        if before.contains(path) {
            let i = choose|i: int| 0 <= i < front.len() && needs_file(#[trigger] front[i], path);
            assert(needs_file(hunks[i], path));
            let k = choose|k: int| 0 <= k < before.len() && before[k] == path;
            assert(all[k] == path);
        }
        if needs_file(hunks.last(), path) {
            assert(needs_file(hunks[hunks.len() - 1], path));
            assert(all.last() == path);
        }
        if all.contains(path) && !before.contains(path) {
            let k = choose|k: int| 0 <= k < all.len() && all[k] == path;
            if k < before.len() {
                assert(before[k] == path);
            }
            assert(needs_file(hunks.last(), path));
        }
        if exists|i: int| 0 <= i < hunks.len() && needs_file(#[trigger] hunks[i], path) {
            let i = choose|i: int| 0 <= i < hunks.len() && needs_file(#[trigger] hunks[i], path);
            if i < front.len() {
                assert(needs_file(front[i], path));
            }
        }
    }
}

proof fn lemma_read(
    files: Seq<(Seq<char>, Result<Seq<char>, Seq<char>>)>,
    path: Seq<char>,
    i: int,
    k: int,
)
    requires
        0 <= i <= k <= files.len(),
        forall|j: int| i <= j < k ==> (#[trigger] files[j]).0 != path,
        k < files.len() ==> files[k].0 == path,
    ensures
        read_from(files, path, i) == if k < files.len() {
            files[k].1
        } else {
            Err(missing_file())
        },
    decreases k - i,
{
    if i < k {
        lemma_read(files, path, i + 1, k);
    }
}

/// Reading a file gives its first entry, whatever stands around it, and a file without an
/// entry is missing.
pub proof fn law_first_entry_of_a_file_is_read(
    before: Seq<(Seq<char>, Result<Seq<char>, Seq<char>>)>,
    path: Seq<char>,
    contents: Result<Seq<char>, Seq<char>>,
    after: Seq<(Seq<char>, Result<Seq<char>, Seq<char>>)>,
)
    requires
        forall|i: int| 0 <= i < before.len() ==> (#[trigger] before[i]).0 != path,
    ensures
        read_file(before + seq![(path, contents)] + after, path) == contents,
        read_file(before, path) == Err::<Seq<char>, Seq<char>>(
            "No such file or directory (os error 2)"@,
        ),
{
    let files = before + seq![(path, contents)] + after;
    let n = before.len() as int;
    assert forall|j: int| 0 <= j < n implies (#[trigger] files[j]).0 != path by {
        assert(files[j] == before[j]);
    }
    assert(files[n] == (path, contents));
    lemma_read(files, path, 0, n);
    lemma_read(before, path, 0, n);
}

// ---------------------------------------------------------------------------
// Indentation
// ---------------------------------------------------------------------------
/// A line is indented by its spaces and, each as wide as a tab stop, by its tabs.
pub proof fn law_columns_are_spaces_and_tabs(lead: Seq<char>, code: Seq<char>, width: nat)
    requires
        forall|i: int| 0 <= i < lead.len() ==> #[trigger] lead[i] == ' ' || lead[i] == '\t',
        code.len() > 0 ==> code[0] != ' ' && code[0] != '\t',
    ensures
        columns(lead + code, width) == lead.filter(|c: char| c == ' ').len() + width * lead.filter(
            |c: char| c == '\t',
        ).len(),
{
    lemma_columns(lead, code, width, 0);
    assert(lead.skip(0) =~= lead);
}

proof fn lemma_columns(lead: Seq<char>, code: Seq<char>, width: nat, i: int)
    requires
        0 <= i <= lead.len(),
        forall|i: int| 0 <= i < lead.len() ==> #[trigger] lead[i] == ' ' || lead[i] == '\t',
        code.len() > 0 ==> code[0] != ' ' && code[0] != '\t',
    ensures
        columns_from(lead + code, width, i) == lead.skip(i).filter(|c: char| c == ' ').len() + width
            * lead.skip(i).filter(|c: char| c == '\t').len(),
    decreases lead.len() - i,
{
    let line = lead + code;
    let rest = lead.skip(i);
    let blank = |c: char| c == ' ';
    let tab = |c: char| c == '\t';
    if i < lead.len() {
        lemma_columns(lead, code, width, i + 1);
        let more = lead.skip(i + 1);
        let one = seq![lead[i]];
        assert(rest =~= one + more);
        Seq::filter_distributes_over_add(one, more, blank);
        Seq::filter_distributes_over_add(one, more, tab);
        reveal(Seq::filter);
        assert(one.drop_last() =~= Seq::empty());
        assert(one.drop_last().filter(blank) =~= Seq::empty());
        assert(one.drop_last().filter(tab) =~= Seq::empty());
        assert(line[i] == lead[i]);
        let n = more.filter(tab).len();
        if lead[i] == '\t' {
            assert(rest.filter(tab).len() == n + 1);
            assert(rest.filter(blank).len() == more.filter(blank).len());
            assert(width * (n + 1) == width * n + width) by (nonlinear_arith);
        } else {
            assert(rest.filter(tab).len() == n);
            assert(rest.filter(blank).len() == more.filter(blank).len() + 1);
        }
    } else {
        reveal(Seq::filter);
        assert(rest =~= Seq::empty());
        assert(rest.filter(blank).len() == 0 && rest.filter(tab).len() == 0);
        assert(width * 0 == 0) by (nonlinear_arith);
        if code.len() > 0 {
            assert(line[i] == code[0]);
        }
    }
}

/// A tab stands in the white space at the start of the line.
pub open spec fn is_tab_line(line: Seq<char>) -> bool {
    exists|i: int|
        0 <= i < line.len() && #[trigger] line[i] == '\t' && forall|j: int|
            0 <= j < i ==> is_white(#[trigger] line[j])
}

/// The line starts with white space, but with no tab.
pub open spec fn is_space_line(line: Seq<char>) -> bool {
    line.len() > 0 && is_white(line[0]) && !is_tab_line(line)
}

proof fn lemma_style_of_line(line: Seq<char>)
    ensures
        is_tab_line(line) <==> leading(line).contains('\t'),
        is_space_line(line) <==> leading(line).len() > 0 && !leading(line).contains('\t'),
{
    lemma_skip_white(line, 0);
    let n = skip_white(line, 0);
    let lead = leading(line);
    assert(is_white('\t'));
    if is_tab_line(line) {
        let i = choose|i: int|
            0 <= i < line.len() && #[trigger] line[i] == '\t' && forall|j: int|
                0 <= j < i ==> is_white(#[trigger] line[j]);
        assert(i < n) by {
            if n <= i {
                assert(is_white(line[n]));
            }
        }
        assert(lead[i] == '\t');
    }
    if lead.contains('\t') {
        let i = choose|i: int| 0 <= i < lead.len() && lead[i] == '\t';
        assert(line[i] == '\t');
    }
}

proof fn lemma_style_counts(lines: Seq<Seq<char>>, n: int)
    requires
        0 <= n <= lines.len(),
    ensures
        tab_lines(lines, n) == lines.take(n).filter(|l: Seq<char>| is_tab_line(l)).len(),
        space_lines(lines, n) == lines.take(n).filter(|l: Seq<char>| is_space_line(l)).len(),
    decreases n,
{
    reveal(Seq::filter);
    if n > 0 {
        lemma_style_counts(lines, n - 1);
        lemma_style_of_line(lines[n - 1]);
        assert(lines.take(n).drop_last() =~= lines.take(n - 1));
        assert(lines.take(n).last() == lines[n - 1]);
    }
}

/// The style of a text is tabs where more than twice as many of its lines are indented with
/// a tab as without one, spaces where it is the other way round, and else unknown.
pub proof fn law_style_is_that_of_most_lines(lines: Seq<Seq<char>>)
    ensures
        ({
            let tabs = lines.filter(|l: Seq<char>| is_tab_line(l)).len();
            let spaces = lines.filter(|l: Seq<char>| is_space_line(l)).len();
            &&& indent_style(lines) is Tabs <==> tabs > spaces + spaces
            &&& indent_style(lines) is Spaces <==> spaces > tabs + tabs
            &&& indent_style(lines) is Spaces ==> indent_style(lines) == IndentStyle::Spaces(4)
        }),
{
    lemma_style_counts(lines, lines.len() as int);
    assert(lines.take(lines.len() as int) =~= lines);
}

} // verus!
