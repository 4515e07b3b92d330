//! Whether a change makes the syntax of a file worse.
use vstd::prelude::*;

use crate::language::{language_of, SupportedLanguage};
use crate::lines::{line_seq, split_lines, texts};
use crate::parser::{copy_option, option_text};
use crate::robustness::{
    issue_models, probe_issues, run_robustness_probe, IssueModel, RobustnessIssue,
};
use crate::syntax_tree::{
    parse_source, syntax_model, syntax_tree, SyntaxModel, SyntaxNode,
};
use crate::text::{
    append_str, append_text, chars_of, decimal, decimal_text, same_text, string_of, text_is,
};

verus! {

// ---------------------------------------------------------------------------
// Errors
// ---------------------------------------------------------------------------
/// A syntax error.
#[derive(Debug, PartialEq, Eq)]
pub struct SyntaxError {
    /// The line, from zero on.
    pub line: usize,
    /// The column, from zero on.
    pub column: usize,
    pub start_byte: usize,
    pub end_byte: usize,
    /// The kind of the node that is wrong or missing.
    pub node_kind: Option<String>,
    /// The text of the line.
    pub context: Option<String>,
}

/// What a syntax error holds.
#[verifier::ext_equal]
pub ghost struct ErrorModel {
    pub line: int,
    pub column: int,
    pub start_byte: int,
    pub end_byte: int,
    pub node_kind: Option<Seq<char>>,
    pub context: Option<Seq<char>>,
}

impl View for SyntaxError {
    type V = ErrorModel;

    open spec fn view(&self) -> ErrorModel {
        ErrorModel {
            line: self.line as int,
            column: self.column as int,
            start_byte: self.start_byte as int,
            end_byte: self.end_byte as int,
            node_kind: option_text(self.node_kind),
            context: option_text(self.context),
        }
    }
}

pub open spec fn error_models(v: Seq<SyntaxError>) -> Seq<ErrorModel> {
    Seq::new(v.len(), |i: int| v[i]@)
}

impl Clone for SyntaxError {
    fn clone(&self) -> (r: Self)
        ensures
            r@ == self@,
    {
        SyntaxError {
            line: self.line,
            column: self.column,
            start_byte: self.start_byte,
            end_byte: self.end_byte,
            node_kind: copy_option(&self.node_kind),
            context: copy_option(&self.context),
        }
    }
}

fn copy_errors(v: &[SyntaxError]) -> (r: Vec<SyntaxError>)
    ensures
        error_models(r@) == error_models(v@),
{
    let mut out: Vec<SyntaxError> = Vec::new();
    let mut i: usize = 0;
    while i < v.len()
        invariant
            i <= v@.len(),
            error_models(out@) == error_models(v@).take(i as int),
        decreases v@.len() - i,
    {
        let ghost before = out@;
        out.push(v[i].clone());
        assert(error_models(out@) =~= error_models(before).push(v@[i as int]@));
        i += 1;
        assert(error_models(out@) =~= error_models(v@).take(i as int));
    }
    assert(error_models(v@).take(v@.len() as int) =~= error_models(v@));
    out
}

/// The error that a node is, with the line where it starts.
pub open spec fn node_error(node: SyntaxModel, lines: Seq<Seq<char>>) -> Seq<ErrorModel> {
    if node.is_error || node.is_missing {
        seq![
            ErrorModel {
                line: node.row,
                column: node.column,
                start_byte: node.start_byte,
                end_byte: node.end_byte,
                node_kind: Some(node.kind),
                context: if 0 <= node.row < lines.len() {
                    Some(lines[node.row])
                } else {
                    None
                },
            },
        ]
    } else {
        Seq::empty()
    }
}

/// The errors in a tree, that of the root first.
pub open spec fn errors_in(node: SyntaxModel, lines: Seq<Seq<char>>) -> Seq<ErrorModel>
    decreases node, node.children.len() + 1,
{
    node_error(node, lines) + errors_below(node, lines, node.children.len() as int)
}

/// The errors below the first `n` children of a node.
pub open spec fn errors_below(node: SyntaxModel, lines: Seq<Seq<char>>, n: int) -> Seq<ErrorModel>
    decreases node, n,
{
    if n <= 0 || n > node.children.len() {
        Seq::empty()
    } else {
        errors_below(node, lines, n - 1) + errors_in(node.children[n - 1], lines)
    }
}

/// The syntax errors of a text in a language, if the text can be parsed.
pub open spec fn source_errors(source: Seq<char>, language: SupportedLanguage) -> Option<
    Seq<ErrorModel>,
> {
    match syntax_tree(source, language) {
        Some(root) => Some(errors_in(root, line_seq(source))),
        None => None,
    }
}

fn collect_errors(node: &SyntaxNode, lines: &[Vec<char>], errors: &mut Vec<SyntaxError>)
    ensures
        error_models(final(errors)@) == error_models(old(errors)@) + errors_in(
            syntax_model(*node),
            texts(lines@),
        ),
    decreases *node,
{
    let ghost m = syntax_model(*node);
    let ghost all = texts(lines@);
    let ghost start = error_models(errors@);
    if node.is_error || node.is_missing {
        let context: Option<String> = if node.row < lines.len() {
            assert(all[node.row as int] == lines@[node.row as int]@);
            Some(string_of(lines[node.row].as_slice()))
        } else {
            None
        };
        let ghost before = errors@;
        errors.push(
            SyntaxError {
                line: node.row,
                column: node.column,
                start_byte: node.start_byte,
                end_byte: node.end_byte,
                node_kind: Some(node.kind.clone()),
                context,
            },
        );
        assert(error_models(errors@) =~= error_models(before).push(errors@.last()@));
        assert(error_models(errors@) =~= start + node_error(m, all));
    }
    let ghost own = node_error(m, all);
    assert(error_models(errors@) =~= start + own + errors_below(m, all, 0));
    let n: usize = node.children.len();
    let mut i: usize = 0;
    while i < n
        invariant
            m == syntax_model(*node),
            all == texts(lines@),
            i <= n,
            n == node.children@.len(),
            m.children.len() == n,
            error_models(errors@) == start + own + errors_below(m, all, i as int),
        decreases n - i,
    {
        let child: &SyntaxNode = &node.children[i];
        assert(syntax_model(*child) == m.children[i as int]);
        collect_errors(child, lines, errors);
        assert(errors_below(m, all, i + 1) == errors_below(m, all, i as int) + errors_in(
            m.children[i as int],
            all,
        ));
        assert(error_models(errors@) =~= start + own + errors_below(m, all, i + 1));
        i += 1;
    }
    assert(error_models(errors@) =~= start + errors_in(m, all));
}

/// The syntax errors in the tree of a text.
pub fn collect_error_nodes(node: &SyntaxNode, source: &str) -> (r: Vec<SyntaxError>)
    ensures
        error_models(r@) == errors_in(syntax_model(*node), line_seq(source@)),
{
    let lines: Vec<Vec<char>> = split_lines(chars_of(source).as_slice());
    let mut errors: Vec<SyntaxError> = Vec::new();
    collect_errors(node, lines.as_slice(), &mut errors);
    assert(error_models(errors@) =~= errors_in(syntax_model(*node), line_seq(source@)));
    errors
}

/// The syntax errors of a text in a language.
pub fn extract_errors(source: &str, language: SupportedLanguage) -> (r: Option<Vec<SyntaxError>>)
    ensures
        match r {
            Some(errors) => source_errors(source@, language) == Some(error_models(errors@)),
            None => source_errors(source@, language) is None,
        },
{
    match parse_source(source, language) {
        Some(root) => Some(collect_error_nodes(&root, source)),
        None => None,
    }
}

// ---------------------------------------------------------------------------
// What changes
// ---------------------------------------------------------------------------
/// How the number of errors changes.
#[derive(Clone, Copy, Debug, PartialEq, Eq, Structural)]
pub struct ErrorDelta {
    /// Errors that were not there before.
    pub new_errors: usize,
    /// Errors that are no longer there.
    pub fixed_errors: usize,
    /// The new errors less the fixed ones.
    pub net_change: i64,
}

impl ErrorDelta {
    /// Whether there are more new errors than fixed ones.
    pub fn is_degradation(&self) -> (r: bool)
        ensures
            r == (self.net_change > 0),
    {
        self.net_change > 0
    }
}

/// The errors stand at the same place and are of the same kind.
pub open spec fn same_error(a: ErrorModel, b: ErrorModel) -> bool {
    a.line == b.line && a.column == b.column && a.node_kind == b.node_kind
}

pub open spec fn has_error(list: Seq<ErrorModel>, e: ErrorModel) -> bool {
    exists|i: int| 0 <= i < list.len() && same_error(#[trigger] list[i], e)
}

/// The error lies in the patched bytes.
pub open spec fn in_patch(e: ErrorModel, range: Option<(int, int)>) -> bool {
    match range {
        Some((start, end)) => e.start_byte >= start && e.end_byte <= end,
        None => true,
    }
}

/// How many of the first `n` errors of `after` are new: not among those before, and
/// in the patched bytes.
pub open spec fn new_count(
    before: Seq<ErrorModel>,
    after: Seq<ErrorModel>,
    range: Option<(int, int)>,
    n: int,
) -> nat
    decreases n,
{
    if n <= 0 {
        0
    } else {
        let one: nat = if !has_error(before, after[n - 1]) && in_patch(after[n - 1], range) {
            1
        } else {
            0
        };
        new_count(before, after, range, n - 1) + one
    }
}

/// How many of the first `n` errors of `before` are fixed.
pub open spec fn fixed_count(before: Seq<ErrorModel>, after: Seq<ErrorModel>, n: int) -> nat
    decreases n,
{
    if n <= 0 {
        0
    } else {
        let one: nat = if !has_error(after, before[n - 1]) {
            1
        } else {
            0
        };
        fixed_count(before, after, n - 1) + one
    }
}

/// What a change of errors holds.
#[verifier::ext_equal]
pub ghost struct DeltaModel {
    pub new_errors: int,
    pub fixed_errors: int,
    pub net_change: int,
}

impl View for ErrorDelta {
    type V = DeltaModel;

    open spec fn view(&self) -> DeltaModel {
        DeltaModel {
            new_errors: self.new_errors as int,
            fixed_errors: self.fixed_errors as int,
            net_change: self.net_change as int,
        }
    }
}

pub open spec fn delta_of(new_errors: int, fixed_errors: int) -> DeltaModel {
    DeltaModel { new_errors, fixed_errors, net_change: new_errors - fixed_errors }
}

pub open spec fn error_delta(
    before: Seq<ErrorModel>,
    after: Seq<ErrorModel>,
    range: Option<(int, int)>,
) -> DeltaModel {
    delta_of(
        new_count(before, after, range, after.len() as int) as int,
        fixed_count(before, after, before.len() as int) as int,
    )
}

pub open spec fn opt_range(range: Option<(usize, usize)>) -> Option<(int, int)> {
    match range {
        Some((start, end)) => Some((start as int, end as int)),
        None => None,
    }
}

fn same_option(a: &Option<String>, b: &Option<String>) -> (r: bool)
    ensures
        r == (option_text(*a) == option_text(*b)),
{
    match (a, b) {
        (Some(x), Some(y)) => same_text(
            chars_of(x.as_str()).as_slice(),
            chars_of(y.as_str()).as_slice(),
        ),
        (None, None) => true,
        _ => false,
    }
}

fn contains_error(list: &[SyntaxError], e: &SyntaxError) -> (r: bool)
    ensures
        r == has_error(error_models(list@), e@),
{
    let ghost all = error_models(list@);
    let mut i: usize = 0;
    while i < list.len()
        invariant
            i <= list@.len(),
            all == error_models(list@),
            forall|k: int| 0 <= k < i ==> !same_error(#[trigger] all[k], e@),
        decreases list@.len() - i,
    {
        let own: &SyntaxError = &list[i];
        assert(all[i as int] == own@);
        if own.line == e.line && own.column == e.column && same_option(
            &own.node_kind,
            &e.node_kind,
        ) {
            assert(same_error(all[i as int], e@));
            return true;
        }
        i += 1;
    }
    false
}

/// The number of errors in a list of references to them. Each reference takes up as
/// many bytes as a machine word, so that their number fits in an `i64`.
fn count_references(list: &[&SyntaxError]) -> (r: usize)
    ensures
        r == list@.len(),
        r <= i64::MAX,
{
    let bytes: usize = core::mem::size_of_val(list);
    proof {
        broadcast use vstd::layout::layout_of_slices;
        broadcast use vstd::layout::layout_of_primitives;
        broadcast use vstd::layout::layout_of_references_and_pointers;
        broadcast use vstd::layout::layout_of_references_and_pointers_for_sized_types;

        let each: nat = vstd::layout::size_of::<&SyntaxError>();
        assert(each == vstd::layout::size_of::<usize>());
        assert(bytes == list@.len() * each);
        assert(list@.len() * 2 <= list@.len() * each) by (nonlinear_arith)
            requires
                each >= 4,
        ;
    }
    list.len()
}

/// Compares the errors before and after a change. With a byte range, only new
/// errors in it count.
pub fn compute_error_delta(
    before_errors: &[SyntaxError],
    after_errors: &[SyntaxError],
    patch_byte_range: Option<(usize, usize)>,
) -> (r: ErrorDelta)
    ensures
        r@ == error_delta(
            error_models(before_errors@),
            error_models(after_errors@),
            opt_range(patch_byte_range),
        ),
{
    let ghost before = error_models(before_errors@);
    let ghost after = error_models(after_errors@);
    let ghost range = opt_range(patch_byte_range);
    let mut new_errors: Vec<&SyntaxError> = Vec::new();
    let mut i: usize = 0;
    while i < after_errors.len()
        invariant
            i <= after_errors@.len(),
            before == error_models(before_errors@),
            after == error_models(after_errors@),
            range == opt_range(patch_byte_range),
            new_errors@.len() == new_count(before, after, range, i as int),
        decreases after_errors@.len() - i,
    {
        let e: &SyntaxError = &after_errors[i];
        assert(after[i as int] == e@);
        let counts: bool = match patch_byte_range {
            Some((start, end)) => e.start_byte >= start && e.end_byte <= end,
            None => true,
        };
        if counts && !contains_error(before_errors, e) {
            new_errors.push(e);
        }
        i += 1;
    }
    let mut fixed_errors: Vec<&SyntaxError> = Vec::new();
    let mut k: usize = 0;
    while k < before_errors.len()
        invariant
            k <= before_errors@.len(),
            before == error_models(before_errors@),
            after == error_models(after_errors@),
            fixed_errors@.len() == fixed_count(before, after, k as int),
        decreases before_errors@.len() - k,
    {
        let e: &SyntaxError = &before_errors[k];
        assert(before[k as int] == e@);
        if !contains_error(after_errors, e) {
            fixed_errors.push(e);
        }
        k += 1;
    }
    let added: usize = count_references(new_errors.as_slice());
    let removed: usize = count_references(fixed_errors.as_slice());
    ErrorDelta {
        new_errors: added,
        fixed_errors: removed,
        net_change: added as i64 - removed as i64,
    }
}

// ---------------------------------------------------------------------------
// Validation
// ---------------------------------------------------------------------------
/// The outcome of the check of a changed file.
#[derive(Debug)]
pub struct ValidationResult {
    pub path: String,
    pub language: SupportedLanguage,
    pub before_errors: Vec<SyntaxError>,
    pub after_errors: Vec<SyntaxError>,
    pub is_valid: bool,
    pub error_delta: ErrorDelta,
}

/// What the outcome of a check holds.
#[verifier::ext_equal]
pub ghost struct ValidationModel {
    pub path: Seq<char>,
    pub language: SupportedLanguage,
    pub before_errors: Seq<ErrorModel>,
    pub after_errors: Seq<ErrorModel>,
    pub is_valid: bool,
    pub error_delta: DeltaModel,
}

impl View for ValidationResult {
    type V = ValidationModel;

    open spec fn view(&self) -> ValidationModel {
        ValidationModel {
            path: self.path@,
            language: self.language,
            before_errors: error_models(self.before_errors@),
            after_errors: error_models(self.after_errors@),
            is_valid: self.is_valid,
            error_delta: self.error_delta@,
        }
    }
}

impl Clone for ValidationResult {
    fn clone(&self) -> (r: Self)
        ensures
            r@ == self@,
    {
        ValidationResult {
            path: self.path.clone(),
            language: self.language,
            before_errors: copy_errors(self.before_errors.as_slice()),
            after_errors: copy_errors(self.after_errors.as_slice()),
            is_valid: self.is_valid,
            error_delta: self.error_delta,
        }
    }
}

/// An issue that needs no grammar, as an error of the line where it was found.
pub open spec fn issue_error(issue: IssueModel) -> ErrorModel {
    ErrorModel {
        line: issue.line,
        column: 0,
        start_byte: 0,
        end_byte: 0,
        node_kind: Some("ROBUSTNESS"@),
        context: Some(issue.evidence),
    }
}

pub open spec fn issue_errors(issues: Seq<IssueModel>) -> Seq<ErrorModel> {
    Seq::new(issues.len(), |i: int| issue_error(issues[i]))
}

/// The errors of a text: those of its syntax, or, where there is no grammar, those
/// of the checks that need none.
pub open spec fn content_errors(content: Seq<char>, language: SupportedLanguage) -> Seq<
    ErrorModel,
> {
    if language == SupportedLanguage::Unknown {
        issue_errors(probe_issues(content))
    } else {
        match source_errors(content, language) {
            Some(errors) => errors,
            None => Seq::empty(),
        }
    }
}

/// The outcome for given errors: a change is valid unless it adds more errors than
/// it fixes.
pub open spec fn validation(
    path: Seq<char>,
    language: SupportedLanguage,
    before: Seq<ErrorModel>,
    after: Seq<ErrorModel>,
    range: Option<(int, int)>,
) -> ValidationModel {
    let delta = error_delta(before, after, range);
    ValidationModel {
        path,
        language,
        before_errors: before,
        after_errors: after,
        is_valid: !(delta.net_change > 0),
        error_delta: delta,
    }
}

/// The outcome for a changed file.
pub open spec fn file_validation(
    path: Seq<char>,
    before: Seq<char>,
    after: Seq<char>,
    range: Option<(int, int)>,
) -> ValidationModel {
    let language = language_of(path);
    validation(
        path,
        language,
        content_errors(before, language),
        content_errors(after, language),
        range,
    )
}

fn errors_of_issues(issues: &[RobustnessIssue]) -> (r: Vec<SyntaxError>)
    ensures
        error_models(r@) == issue_errors(issue_models(issues@)),
{
    let ghost all = issue_errors(issue_models(issues@));
    let mut out: Vec<SyntaxError> = Vec::new();
    let mut i: usize = 0;
    while i < issues.len()
        invariant
            i <= issues@.len(),
            all == issue_errors(issue_models(issues@)),
            error_models(out@) == all.take(i as int),
        decreases issues@.len() - i,
    {
        let issue: &RobustnessIssue = &issues[i];
        let ghost before = out@;
        out.push(
            SyntaxError {
                line: issue.line,
                column: 0,
                start_byte: 0,
                end_byte: 0,
                node_kind: Some("ROBUSTNESS".to_string()),
                context: Some(issue.evidence.clone()),
            },
        );
        assert(error_models(out@) =~= error_models(before).push(out@.last()@));
        assert(out@.last()@ == all[i as int]);
        i += 1;
        assert(error_models(out@) =~= all.take(i as int));
    }
    assert(all.take(issues@.len() as int) =~= all);
    out
}

fn find_errors(content: &str, language: SupportedLanguage) -> (r: Vec<SyntaxError>)
    ensures
        error_models(r@) == content_errors(content@, language),
{
    if language == SupportedLanguage::Unknown {
        return errors_of_issues(run_robustness_probe(content).as_slice());
    }
    match extract_errors(content, language) {
        Some(errors) => errors,
        None => {
            let none: Vec<SyntaxError> = Vec::new();
            assert(error_models(none@) =~= Seq::<ErrorModel>::empty());
            none
        },
    }
}

/// The outcome for a file with the given errors before and after a change.
pub fn validate_errors(
    path: &str,
    language: SupportedLanguage,
    before_errors: Vec<SyntaxError>,
    after_errors: Vec<SyntaxError>,
    patch_byte_range: Option<(usize, usize)>,
) -> (r: ValidationResult)
    ensures
        r@ == validation(
            path@,
            language,
            error_models(before_errors@),
            error_models(after_errors@),
            opt_range(patch_byte_range),
        ),
{
    let error_delta: ErrorDelta = compute_error_delta(
        before_errors.as_slice(),
        after_errors.as_slice(),
        patch_byte_range,
    );
    let is_valid: bool = !error_delta.is_degradation();
    ValidationResult {
        path: path.to_string(),
        language,
        before_errors,
        after_errors,
        is_valid,
        error_delta,
    }
}

/// Checks a changed file: by its syntax where there is a grammar, else by the
/// checks that need none.
pub fn validate_file_change(
    path: &str,
    before_content: &str,
    after_content: &str,
    patch_byte_range: Option<(usize, usize)>,
) -> (r: ValidationResult)
    ensures
        r@ == file_validation(
            path@,
            before_content@,
            after_content@,
            opt_range(patch_byte_range),
        ),
{
    let language: SupportedLanguage = SupportedLanguage::from_path(path);
    let before_errors: Vec<SyntaxError> = find_errors(before_content, language);
    let after_errors: Vec<SyntaxError> = find_errors(after_content, language);
    validate_errors(path, language, before_errors, after_errors, patch_byte_range)
}

/// Checks a changed file of which the patched bytes are not known.
pub fn validate_file_change_simple(path: &str, before_content: &str, after_content: &str) -> (r:
    Option<ValidationResult>)
    ensures
        r is Some,
        r->0@ == file_validation(path@, before_content@, after_content@, None),
{
    Some(validate_file_change(path, before_content, after_content, None))
}

// ---------------------------------------------------------------------------
// Diagnostics
// ---------------------------------------------------------------------------
/// What is told of a new error.
#[derive(Debug)]
pub struct DiagnosticInfo {
    pub path: String,
    pub language: Option<SupportedLanguage>,
    pub stage: Option<String>,
    pub tag: Option<String>,
    pub context: Option<String>,
    pub issue: String,
    pub evidence: String,
    pub suggestion: String,
    pub next_action: Option<String>,
}

/// What a diagnostic holds.
#[verifier::ext_equal]
pub ghost struct DiagnosticModel {
    pub path: Seq<char>,
    pub language: Option<SupportedLanguage>,
    pub stage: Option<Seq<char>>,
    pub tag: Option<Seq<char>>,
    pub context: Option<Seq<char>>,
    pub issue: Seq<char>,
    pub evidence: Seq<char>,
    pub suggestion: Seq<char>,
    pub next_action: Option<Seq<char>>,
}

impl View for DiagnosticInfo {
    type V = DiagnosticModel;

    open spec fn view(&self) -> DiagnosticModel {
        DiagnosticModel {
            path: self.path@,
            language: self.language,
            stage: option_text(self.stage),
            tag: option_text(self.tag),
            context: option_text(self.context),
            issue: self.issue@,
            evidence: self.evidence@,
            suggestion: self.suggestion@,
            next_action: option_text(self.next_action),
        }
    }
}

impl Clone for DiagnosticInfo {
    fn clone(&self) -> (r: Self)
        ensures
            r@ == self@,
    {
        DiagnosticInfo {
            path: self.path.clone(),
            language: self.language,
            stage: copy_option(&self.stage),
            tag: copy_option(&self.tag),
            context: copy_option(&self.context),
            issue: self.issue.clone(),
            evidence: self.evidence.clone(),
            suggestion: self.suggestion.clone(),
            next_action: copy_option(&self.next_action),
        }
    }
}

pub open spec fn diagnostic_models(v: Seq<DiagnosticInfo>) -> Seq<DiagnosticModel> {
    Seq::new(v.len(), |i: int| v[i]@)
}

/// The name of a language.
pub open spec fn language_name(language: SupportedLanguage) -> Seq<char> {
    match language {
        SupportedLanguage::Rust => "Rust"@,
        SupportedLanguage::Python => "Python"@,
        SupportedLanguage::JavaScript => "JavaScript"@,
        SupportedLanguage::TypeScript => "TypeScript"@,
        SupportedLanguage::TypeScriptTsx => "TypeScriptTsx"@,
        SupportedLanguage::Unknown => "Unknown"@,
    }
}

/// A line with a label, if there is a value for it.
pub open spec fn labelled(label: Seq<char>, value: Option<Seq<char>>) -> Seq<char> {
    match value {
        Some(t) => label + t + seq!['\n'],
        None => Seq::empty(),
    }
}

/// The text of a diagnostic, one line for each of its parts.
pub open spec fn diagnostic_text(d: DiagnosticModel) -> Seq<char> {
    let language = match d.language {
        Some(l) => Some(language_name(l)),
        None => None,
    };
    "Error: Syntax Integrity Check Failed\n"@ + labelled("Path: "@, Some(d.path)) + labelled(
        "Stage: "@,
        d.stage,
    ) + labelled("Tag: "@, d.tag) + labelled("Language: "@, language) + labelled(
        "Context: "@,
        d.context,
    ) + labelled("Issue: "@, Some(d.issue)) + labelled("Evidence: "@, Some(d.evidence)) + labelled(
        "Suggestion: "@,
        Some(d.suggestion),
    ) + labelled("Next action: "@, d.next_action)
}

fn name_of_language(language: SupportedLanguage) -> (r: &'static str)
    ensures
        r@ == language_name(language),
{
    match language {
        SupportedLanguage::Rust => "Rust",
        SupportedLanguage::Python => "Python",
        SupportedLanguage::JavaScript => "JavaScript",
        SupportedLanguage::TypeScript => "TypeScript",
        SupportedLanguage::TypeScriptTsx => "TypeScriptTsx",
        SupportedLanguage::Unknown => "Unknown",
    }
}

fn push_labelled(out: &mut Vec<char>, label: &str, value: &str)
    ensures
        final(out)@ == old(out)@ + labelled(label@, Some(value@)),
{
    append_str(out, label);
    append_str(out, value);
    out.push('\n');
    assert(out@ =~= old(out)@ + labelled(label@, Some(value@)));
}

fn push_optional(out: &mut Vec<char>, label: &str, value: &Option<String>)
    ensures
        final(out)@ == old(out)@ + labelled(label@, option_text(*value)),
{
    match value {
        Some(t) => {
            push_labelled(out, label, t.as_str());
        },
        None => {
            assert(out@ =~= old(out)@ + labelled(label@, option_text(*value)));
        },
    }
}

impl DiagnosticInfo {
    /// The text of the diagnostic.
    pub fn to_text(&self) -> (r: String)
        ensures
            r@ == diagnostic_text(self@),
    {
        let mut out: Vec<char> = chars_of("Error: Syntax Integrity Check Failed\n");
        push_labelled(&mut out, "Path: ", self.path.as_str());
        push_optional(&mut out, "Stage: ", &self.stage);
        push_optional(&mut out, "Tag: ", &self.tag);
        let ghost so_far = out@;
        match self.language {
            Some(language) => {
                push_labelled(&mut out, "Language: ", name_of_language(language));
            },
            None => {
                assert(out@ =~= so_far + labelled("Language: "@, None));
            },
        }
        push_optional(&mut out, "Context: ", &self.context);
        push_labelled(&mut out, "Issue: ", self.issue.as_str());
        push_labelled(&mut out, "Evidence: ", self.evidence.as_str());
        push_labelled(&mut out, "Suggestion: ", self.suggestion.as_str());
        push_optional(&mut out, "Next action: ", &self.next_action);
        string_of(out.as_slice())
    }
}

/// What is said of an error.
pub open spec fn issue_text(e: ErrorModel) -> Seq<char> {
    let line = decimal((e.line + 1) as nat);
    let column = decimal((e.column + 1) as nat);
    match e.node_kind {
        Some(kind) => if kind == "ERROR"@ {
            "Syntax error at Line "@ + line + ", Column "@ + column
        } else {
            "Missing or unexpected '"@ + kind + "' at Line "@ + line + ", Column "@ + column
        },
        None => "Unknown error at Line "@ + line,
    }
}

/// The diagnostic of an error.
pub open spec fn diagnostic(v: ValidationModel, e: ErrorModel) -> DiagnosticModel {
    DiagnosticModel {
        path: v.path,
        language: Some(v.language),
        stage: Some("syntax_guard"@),
        tag: Some("APPLY_PATCH_SYNTAX_GUARD"@),
        context: None,
        issue: issue_text(e),
        evidence: match e.context {
            Some(t) => t,
            None => "<no context available>"@,
        },
        suggestion: "Check the evidence line for a missing delimiter or unexpected token introduced by the patch. If the evidence line begins with a diff prefix, treat this as a split false positive and capture a scenario before retrying."@,
        next_action: Some(
            "Fix the syntax at the evidence line and rerun apply_patch. If this came from builtin apply_patch, stop retrying and rerun with the apply_patch binary after saving a scenario."@,
        ),
    }
}

/// An error stood at the same place before.
pub open spec fn was_there(list: Seq<ErrorModel>, e: ErrorModel) -> bool {
    exists|i: int|
        0 <= i < list.len() && (#[trigger] list[i]).line == e.line && list[i].column == e.column
}

/// The diagnostics for those of the first `n` errors after the change at whose
/// places there was none before.
pub open spec fn diagnostics_upto(v: ValidationModel, n: int) -> Seq<DiagnosticModel>
    decreases n,
{
    if n <= 0 {
        Seq::empty()
    } else if was_there(v.before_errors, v.after_errors[n - 1]) {
        diagnostics_upto(v, n - 1)
    } else {
        diagnostics_upto(v, n - 1).push(diagnostic(v, v.after_errors[n - 1]))
    }
}

/// The diagnostics for the new errors of a change.
pub open spec fn diagnostics(v: ValidationModel) -> Seq<DiagnosticModel> {
    diagnostics_upto(v, v.after_errors.len() as int)
}

fn issue_message(e: &SyntaxError) -> (r: String)
    ensures
        r@ == issue_text(e@),
{
    let line: Vec<char> = decimal_text(e.line as u128 + 1);
    let column: Vec<char> = decimal_text(e.column as u128 + 1);
    let mut out: Vec<char> = Vec::new();
    match &e.node_kind {
        Some(kind) => {
            let k: Vec<char> = chars_of(kind.as_str());
            if text_is(k.as_slice(), "ERROR") {
                append_str(&mut out, "Syntax error at Line ");
            } else {
                append_str(&mut out, "Missing or unexpected '");
                append_text(&mut out, k.as_slice());
                append_str(&mut out, "' at Line ");
            }
            append_text(&mut out, line.as_slice());
            append_str(&mut out, ", Column ");
            append_text(&mut out, column.as_slice());
        },
        None => {
            append_str(&mut out, "Unknown error at Line ");
            append_text(&mut out, line.as_slice());
        },
    }
    assert(out@ =~= issue_text(e@));
    string_of(out.as_slice())
}

fn stood_there(list: &[SyntaxError], e: &SyntaxError) -> (r: bool)
    ensures
        r == was_there(error_models(list@), e@),
{
    let ghost all = error_models(list@);
    let mut i: usize = 0;
    while i < list.len()
        invariant
            i <= list@.len(),
            all == error_models(list@),
            forall|k: int|
                0 <= k < i ==> !((#[trigger] all[k]).line == e@.line && all[k].column == e@.column),
        decreases list@.len() - i,
    {
        assert(all[i as int] == list@[i as int]@);
        if list[i].line == e.line && list[i].column == e.column {
            return true;
        }
        i += 1;
    }
    false
}

/// The diagnostics for the new errors of a change.
pub fn generate_diagnostics(validation: &ValidationResult) -> (r: Vec<DiagnosticInfo>)
    ensures
        diagnostic_models(r@) == diagnostics(validation@),
{
    let ghost v = validation@;
    let mut out: Vec<DiagnosticInfo> = Vec::new();
    assert(diagnostic_models(out@) =~= Seq::<DiagnosticModel>::empty());
    let mut i: usize = 0;
    while i < validation.after_errors.len()
        invariant
            i <= validation.after_errors@.len(),
            v == validation@,
            diagnostic_models(out@) == diagnostics_upto(v, i as int),
        decreases validation.after_errors@.len() - i,
    {
        let e: &SyntaxError = &validation.after_errors[i];
        assert(v.after_errors[i as int] == e@);
        if !stood_there(validation.before_errors.as_slice(), e) {
            let evidence: String = match &e.context {
                Some(t) => t.clone(),
                None => "<no context available>".to_string(),
            };
            let ghost before = out@;
            out.push(
                DiagnosticInfo {
                    path: validation.path.clone(),
                    language: Some(validation.language),
                    stage: Some("syntax_guard".to_string()),
                    tag: Some("APPLY_PATCH_SYNTAX_GUARD".to_string()),
                    context: None,
                    issue: issue_message(e),
                    evidence,
                    suggestion: "Check the evidence line for a missing delimiter or unexpected token introduced by the patch. If the evidence line begins with a diff prefix, treat this as a split false positive and capture a scenario before retrying.".to_string(),
                    next_action: Some(
                        "Fix the syntax at the evidence line and rerun apply_patch. If this came from builtin apply_patch, stop retrying and rerun with the apply_patch binary after saving a scenario.".to_string(),
                    ),
                },
            );
            assert(diagnostic_models(out@) =~= diagnostic_models(before).push(out@.last()@));
            assert(out@.last()@ == diagnostic(v, e@));
        }
        i += 1;
    }
    out
}

// ---------------------------------------------------------------------------
// Laws
// ---------------------------------------------------------------------------
proof fn lemma_has_own(list: Seq<ErrorModel>, i: int)
    requires
        0 <= i < list.len(),
    ensures
        has_error(list, list[i]),
{
    assert(same_error(list[i], list[i]));
}

proof fn lemma_no_new_in_same(list: Seq<ErrorModel>, range: Option<(int, int)>, n: int)
    requires
        0 <= n <= list.len(),
    ensures
        new_count(list, list, range, n) == 0,
        fixed_count(list, list, n) == 0,
    decreases n,
{
    if n > 0 {
        lemma_no_new_in_same(list, range, n - 1);
        lemma_has_own(list, n - 1);
    }
}

/// A change that leaves the errors as they are is valid, with none new and none
/// fixed.
pub proof fn law_same_errors_are_no_degradation(
    path: Seq<char>,
    language: SupportedLanguage,
    errors: Seq<ErrorModel>,
    range: Option<(int, int)>,
)
    ensures
        validation(path, language, errors, errors, range).is_valid,
        error_delta(errors, errors, range) == delta_of(0, 0),
{
    lemma_no_new_in_same(errors, range, errors.len() as int);
}

/// A change is refused exactly where it adds more errors than it fixes.
pub proof fn law_valid_unless_more_new_than_fixed(
    path: Seq<char>,
    language: SupportedLanguage,
    before: Seq<ErrorModel>,
    after: Seq<ErrorModel>,
    range: Option<(int, int)>,
)
    ensures
        validation(path, language, before, after, range).is_valid == (new_count(
            before,
            after,
            range,
            after.len() as int,
        ) <= fixed_count(before, after, before.len() as int)),
{
}

proof fn lemma_no_new_without_errors(
    before: Seq<ErrorModel>,
    range: Option<(int, int)>,
    after: Seq<ErrorModel>,
    n: int,
)
    requires
        forall|i: int| 0 <= i < after.len() ==> !in_patch(#[trigger] after[i], range),
        0 <= n <= after.len(),
    ensures
        new_count(before, after, range, n) == 0,
    decreases n,
{
    if n > 0 {
        lemma_no_new_without_errors(before, range, after, n - 1);
    }
}

/// Errors outside the patched bytes never make a change invalid.
pub proof fn law_errors_outside_the_patch_do_not_count(
    path: Seq<char>,
    language: SupportedLanguage,
    before: Seq<ErrorModel>,
    after: Seq<ErrorModel>,
    range: (int, int),
)
    requires
        forall|i: int| 0 <= i < after.len() ==> !in_patch(#[trigger] after[i], Some(range)),
    ensures
        validation(path, language, before, after, Some(range)).is_valid,
        error_delta(before, after, Some(range)).new_errors == 0,
{
    lemma_no_new_without_errors(before, Some(range), after, after.len() as int);
}

proof fn lemma_new_in_reverse(a: Seq<ErrorModel>, b: Seq<ErrorModel>, n: int)
    ensures
        new_count(b, a, None, n) == fixed_count(a, b, n),
    decreases n,
{
    if n > 0 {
        lemma_new_in_reverse(a, b, n - 1);
    }
}

/// To undo a change exchanges its new and its fixed errors, and turns the sign of the
/// net change, which is the difference of the two.
pub proof fn law_undoing_exchanges_new_and_fixed(a: Seq<ErrorModel>, b: Seq<ErrorModel>)
    ensures
        ({
            let done = error_delta(a, b, None);
            let undone = error_delta(b, a, None);
            &&& undone.new_errors == done.fixed_errors
            &&& undone.fixed_errors == done.new_errors
            &&& undone.net_change == -done.net_change
            &&& undone.net_change == undone.new_errors - undone.fixed_errors
        }),
{
    lemma_new_in_reverse(a, b, a.len() as int);
    lemma_new_in_reverse(b, a, b.len() as int);
}

// ---------------------------------------------------------------------------
// Broken nodes
// ---------------------------------------------------------------------------
/// A node that the grammar marks as wrong, or that it misses.
pub open spec fn is_broken(node: SyntaxModel) -> bool {
    node.is_error || node.is_missing
}

/// The node is the root or lies somewhere below it.
pub open spec fn in_tree(root: SyntaxModel, node: SyntaxModel) -> bool
    decreases root,
{
    root == node || exists|i: int|
        0 <= i < root.children.len() && in_tree(#[trigger] root.children[i], node)
}

/// No node of the tree is broken.
pub open spec fn is_sound(root: SyntaxModel) -> bool {
    forall|node: SyntaxModel| #[trigger] in_tree(root, node) ==> !is_broken(node)
}

/// The error tells of the node: where it starts and ends, its kind, and the line that
/// it starts in.
pub open spec fn tells_of(e: ErrorModel, node: SyntaxModel, source: Seq<char>) -> bool {
    &&& e.line == node.row && e.column == node.column
    &&& e.start_byte == node.start_byte && e.end_byte == node.end_byte
    &&& e.node_kind == Some(node.kind)
    &&& 0 <= node.row < line_seq(source).len() ==> e.context == Some(line_seq(source)[node.row])
}

/// Some error tells of the node.
pub open spec fn is_told(errors: Seq<ErrorModel>, node: SyntaxModel, source: Seq<char>) -> bool {
    exists|k: int| 0 <= k < errors.len() && tells_of(#[trigger] errors[k], node, source)
}

/// The error tells of some broken node of the tree.
pub open spec fn tells_of_tree(e: ErrorModel, root: SyntaxModel, source: Seq<char>) -> bool {
    exists|node: SyntaxModel|
        #[trigger] in_tree(root, node) && is_broken(node) && tells_of(e, node, source)
}

/// The errors are those of the broken nodes of a tree: each of these has an error that
/// tells of it, every error tells of one of them, and there are as many errors as nodes.
pub open spec fn are_errors_of(
    errors: Seq<ErrorModel>,
    root: SyntaxModel,
    source: Seq<char>,
) -> bool {
    &&& forall|node: SyntaxModel|
        #[trigger] in_tree(root, node) && is_broken(node) ==> is_told(errors, node, source)
    &&& forall|k: int|
        0 <= k < errors.len() ==> tells_of_tree(#[trigger] errors[k], root, source)
    &&& errors.len() == broken_nodes(root)
}

proof fn lemma_told_in(a: Seq<ErrorModel>, b: Seq<ErrorModel>, node: SyntaxModel, source: Seq<char>)
    requires
        is_told(a, node, source) || is_told(b, node, source),
    ensures
        is_told(a + b, node, source),
{
    let all = a + b;
    if is_told(a, node, source) {
        let k = choose|k: int| 0 <= k < a.len() && tells_of(#[trigger] a[k], node, source);
        assert(all[k] == a[k]);
    } else {
        let k = choose|k: int| 0 <= k < b.len() && tells_of(#[trigger] b[k], node, source);
        assert(all[a.len() + k] == b[k]);
    }
}

/// Each broken node of a tree has an error that tells of it.
pub proof fn lemma_broken_node_is_told(root: SyntaxModel, node: SyntaxModel, source: Seq<char>)
    requires
        in_tree(root, node),
        is_broken(node),
    ensures
        is_told(errors_in(root, line_seq(source)), node, source),
    decreases root, root.children.len() + 1,
{
    let lines = line_seq(source);
    let own = node_error(root, lines);
    let n = root.children.len() as int;
    if root == node {
        assert(tells_of(own[0], node, source));
    } else {
        let i = choose|i: int|
            0 <= i < root.children.len() && in_tree(#[trigger] root.children[i], node);
        lemma_broken_node_is_told_below(root, i, node, source, n);
    }
    lemma_told_in(own, errors_below(root, lines, n), node, source);
}

proof fn lemma_broken_node_is_told_below(
    root: SyntaxModel,
    i: int,
    node: SyntaxModel,
    source: Seq<char>,
    n: int,
)
    requires
        0 <= i < n <= root.children.len(),
        in_tree(root.children[i], node),
        is_broken(node),
    ensures
        is_told(errors_below(root, line_seq(source), n), node, source),
    decreases root, n,
{
    let lines = line_seq(source);
    if i == n - 1 {
        lemma_broken_node_is_told(root.children[i], node, source);
    } else {
        lemma_broken_node_is_told_below(root, i, node, source, n - 1);
    }
    lemma_told_in(
        errors_below(root, lines, n - 1),
        errors_in(root.children[n - 1], lines),
        node,
        source,
    );
}

proof fn lemma_error_tells_of_tree(root: SyntaxModel, source: Seq<char>, k: int)
    requires
        0 <= k < errors_in(root, line_seq(source)).len(),
    ensures
        tells_of_tree(errors_in(root, line_seq(source))[k], root, source),
    decreases root, root.children.len() + 1,
{
    let lines = line_seq(source);
    let own = node_error(root, lines);
    let e = errors_in(root, lines)[k];
    if k < own.len() {
        assert(e == own[k]);
        assert(in_tree(root, root));
        assert(tells_of(e, root, source));
    } else {
        let n = root.children.len() as int;
        assert(e == errors_below(root, lines, n)[k - own.len()]);
        lemma_error_below_tells_of_tree(root, source, n, k - own.len());
    }
}

proof fn lemma_error_below_tells_of_tree(root: SyntaxModel, source: Seq<char>, n: int, k: int)
    requires
        0 <= n <= root.children.len(),
        0 <= k < errors_below(root, line_seq(source), n).len(),
    ensures
        tells_of_tree(errors_below(root, line_seq(source), n)[k], root, source),
    decreases root, n,
{
    let lines = line_seq(source);
    let before = errors_below(root, lines, n - 1);
    let e = errors_below(root, lines, n)[k];
    if k < before.len() {
        assert(e == before[k]);
        lemma_error_below_tells_of_tree(root, source, n - 1, k);
    } else {
        let child = root.children[n - 1];
        let m = k - before.len();
        assert(e == errors_in(child, lines)[m]);
        lemma_error_tells_of_tree(child, source, m);
        let node = choose|node: SyntaxModel|
            #[trigger] in_tree(child, node) && is_broken(node) && tells_of(e, node, source);
        assert(in_tree(root.children[n - 1], node));
        assert(in_tree(root, node));
    }
}

/// How many nodes of a tree are broken.
pub open spec fn broken_nodes(root: SyntaxModel) -> nat
    decreases root, root.children.len() + 1,
{
    let own: nat = if is_broken(root) {
        1
    } else {
        0
    };
    own + broken_below(root, root.children.len() as int)
}

/// How many nodes below the first `n` children are broken.
pub open spec fn broken_below(root: SyntaxModel, n: int) -> nat
    decreases root, n,
{
    if n <= 0 || n > root.children.len() {
        0
    } else {
        broken_below(root, n - 1) + broken_nodes(root.children[n - 1])
    }
}

proof fn lemma_error_count(root: SyntaxModel, lines: Seq<Seq<char>>)
    ensures
        errors_in(root, lines).len() == broken_nodes(root),
    decreases root, root.children.len() + 1,
{
    lemma_error_count_below(root, lines, root.children.len() as int);
}

proof fn lemma_error_count_below(root: SyntaxModel, lines: Seq<Seq<char>>, n: int)
    requires
        0 <= n <= root.children.len(),
    ensures
        errors_below(root, lines, n).len() == broken_below(root, n),
    decreases root, n,
{
    if n > 0 {
        lemma_error_count_below(root, lines, n - 1);
        lemma_error_count(root.children[n - 1], lines);
    }
}

proof fn lemma_errors_of_tree(root: SyntaxModel, source: Seq<char>)
    ensures
        are_errors_of(errors_in(root, line_seq(source)), root, source),
{
    let errors = errors_in(root, line_seq(source));
    lemma_error_count(root, line_seq(source));
    assert forall|node: SyntaxModel| #[trigger]
        in_tree(root, node) && is_broken(node) implies is_told(errors, node, source) by {
        lemma_broken_node_is_told(root, node, source);
    }
    assert forall|k: int| 0 <= k < errors.len() implies tells_of_tree(
        #[trigger] errors[k],
        root,
        source,
    ) by {
        lemma_error_tells_of_tree(root, source, k);
    }
}

/// Where a text has a tree in the language of its file, the errors that a change of the
/// file is judged by are its broken nodes: each of them has an error that tells of it,
/// and every error tells of one of them.
pub proof fn law_errors_are_the_broken_nodes(
    path: Seq<char>,
    before: Seq<char>,
    after: Seq<char>,
    range: Option<(int, int)>,
    root: SyntaxModel,
)
    ensures
        ({
            let v = file_validation(path, before, after, range);
            &&& syntax_tree(before, language_of(path)) == Some(root) ==> are_errors_of(
                v.before_errors,
                root,
                before,
            )
            &&& syntax_tree(after, language_of(path)) == Some(root) ==> are_errors_of(
                v.after_errors,
                root,
                after,
            )
        }),
{
    if syntax_tree(before, language_of(path)) == Some(root) {
        lemma_content_errors(before, language_of(path), root);
    }
    if syntax_tree(after, language_of(path)) == Some(root) {
        lemma_content_errors(after, language_of(path), root);
    }
}

proof fn lemma_content_errors(content: Seq<char>, language: SupportedLanguage, root: SyntaxModel)
    requires
        syntax_tree(content, language) == Some(root),
    ensures
        are_errors_of(content_errors(content, language), root, content),
{
    assert(language != SupportedLanguage::Unknown);
    assert(content_errors(content, language) == errors_in(root, line_seq(content)));
    lemma_errors_of_tree(root, content);
}

proof fn lemma_some_new(after: Seq<ErrorModel>, range: Option<(int, int)>, k: int, n: int)
    requires
        0 <= k < n <= after.len(),
        in_patch(after[k], range),
    ensures
        new_count(Seq::empty(), after, range, n) > 0,
    decreases n,
{
    if k < n - 1 {
        lemma_some_new(after, range, k, n - 1);
    }
}

/// A change of a file whose tree was sound is refused where a node of its new tree is
/// broken (and lies in the patched bytes, where these are known), whatever its language.
pub proof fn law_breaking_a_sound_file_is_refused(
    path: Seq<char>,
    before: Seq<char>,
    after: Seq<char>,
    range: Option<(int, int)>,
    old_root: SyntaxModel,
    new_root: SyntaxModel,
    node: SyntaxModel,
)
    requires
        syntax_tree(before, language_of(path)) == Some(old_root),
        syntax_tree(after, language_of(path)) == Some(new_root),
        is_sound(old_root),
        in_tree(new_root, node),
        is_broken(node),
        range matches Some((start, end)) ==> start <= node.start_byte && node.end_byte <= end,
    ensures
        !file_validation(path, before, after, range).is_valid,
        file_validation(path, before, after, range).error_delta.new_errors > 0,
{
    let v = file_validation(path, before, after, range);
    law_errors_are_the_broken_nodes(path, before, after, range, old_root);
    law_errors_are_the_broken_nodes(path, before, after, range, new_root);
    assert(v.before_errors.len() == 0) by {
        if v.before_errors.len() > 0 {
            assert(tells_of_tree(v.before_errors[0], old_root, before));
        }
    }
    assert(v.before_errors =~= Seq::empty());
    assert(is_told(v.after_errors, node, after));
    let k = choose|k: int|
        0 <= k < v.after_errors.len() && tells_of(#[trigger] v.after_errors[k], node, after);
    lemma_some_new(v.after_errors, range, k, v.after_errors.len() as int);
}

/// A change whose new tree is sound is never refused.
pub proof fn law_a_sound_file_is_accepted(
    path: Seq<char>,
    before: Seq<char>,
    after: Seq<char>,
    range: Option<(int, int)>,
    root: SyntaxModel,
)
    requires
        syntax_tree(after, language_of(path)) == Some(root),
        is_sound(root),
    ensures
        file_validation(path, before, after, range).is_valid,
{
    let v = file_validation(path, before, after, range);
    law_errors_are_the_broken_nodes(path, before, after, range, root);
    if v.after_errors.len() > 0 {
        assert(tells_of_tree(v.after_errors[0], root, after));
    }
    assert(new_count(v.before_errors, v.after_errors, range, v.after_errors.len() as int) == 0);
}

/// The error stands in the list: one of the same line, column and kind does.
pub open spec fn is_known(list: Seq<ErrorModel>, e: ErrorModel) -> bool {
    exists|i: int|
        0 <= i < list.len() && (#[trigger] list[i]).line == e.line && list[i].column == e.column
            && list[i].node_kind == e.node_kind
}

/// The errors of `after` that are not known from `before` and lie in the patched bytes,
/// where these are known.
pub open spec fn new_ones(
    before: Seq<ErrorModel>,
    after: Seq<ErrorModel>,
    range: Option<(int, int)>,
) -> Seq<ErrorModel> {
    after.filter(
        |e: ErrorModel|
            !is_known(before, e) && (range matches Some((start, end)) ==> start <= e.start_byte
                && e.end_byte <= end),
    )
}

/// The errors of `before` that are not known from `after`.
pub open spec fn fixed_ones(before: Seq<ErrorModel>, after: Seq<ErrorModel>) -> Seq<ErrorModel> {
    before.filter(|e: ErrorModel| !is_known(after, e))
}

proof fn lemma_known(list: Seq<ErrorModel>, e: ErrorModel)
    ensures
        is_known(list, e) == has_error(list, e),
{
    if is_known(list, e) {
        let i = choose|i: int|
            0 <= i < list.len() && (#[trigger] list[i]).line == e.line && list[i].column == e.column
                && list[i].node_kind == e.node_kind;
        assert(same_error(list[i], e));
    }
    if has_error(list, e) {
        let i = choose|i: int| 0 <= i < list.len() && same_error(#[trigger] list[i], e);
        assert(list[i].line == e.line);
    }
}

proof fn lemma_new_ones(
    before: Seq<ErrorModel>,
    after: Seq<ErrorModel>,
    range: Option<(int, int)>,
    n: int,
)
    requires
        0 <= n <= after.len(),
    ensures
        new_count(before, after, range, n) == new_ones(before, after.take(n), range).len(),
    decreases n,
{
    reveal(Seq::filter);
    if n > 0 {
        lemma_new_ones(before, after, range, n - 1);
        lemma_known(before, after[n - 1]);
        assert(after.take(n).drop_last() =~= after.take(n - 1));
        assert(after.take(n).last() == after[n - 1]);
    }
}

proof fn lemma_fixed_ones(before: Seq<ErrorModel>, after: Seq<ErrorModel>, n: int)
    requires
        0 <= n <= before.len(),
    ensures
        fixed_count(before, after, n) == fixed_ones(before.take(n), after).len(),
    decreases n,
{
    reveal(Seq::filter);
    if n > 0 {
        lemma_fixed_ones(before, after, n - 1);
        lemma_known(after, before[n - 1]);
        assert(before.take(n).drop_last() =~= before.take(n - 1));
        assert(before.take(n).last() == before[n - 1]);
    }
}

/// New errors are those whose line, column and kind no error had before, in the patched
/// bytes; fixed errors are those whose line, column and kind no error has afterwards; and
/// a change is valid exactly where the new ones are not more than the fixed ones.
pub proof fn law_errors_are_compared_by_place_and_kind(
    path: Seq<char>,
    language: SupportedLanguage,
    before: Seq<ErrorModel>,
    after: Seq<ErrorModel>,
    range: Option<(int, int)>,
)
    ensures
        ({
            let delta = error_delta(before, after, range);
            let v = validation(path, language, before, after, range);
            &&& delta.new_errors == new_ones(before, after, range).len()
            &&& delta.fixed_errors == fixed_ones(before, after).len()
            &&& delta.net_change == delta.new_errors - delta.fixed_errors
            &&& v.is_valid == (delta.new_errors <= delta.fixed_errors)
            &&& v.error_delta == delta && v.before_errors == before && v.after_errors == after
        }),
{
    lemma_new_ones(before, after, range, after.len() as int);
    lemma_fixed_ones(before, after, before.len() as int);
    assert(after.take(after.len() as int) =~= after);
    assert(before.take(before.len() as int) =~= before);
}

/// A file without a grammar is judged by the checks that need none: for each issue that
/// they find there is an error of its line.
pub proof fn law_files_without_a_grammar_are_probed(
    path: Seq<char>,
    before: Seq<char>,
    after: Seq<char>,
    range: Option<(int, int)>,
)
    requires
        language_of(path) == SupportedLanguage::Unknown,
    ensures
        ({
            let v = file_validation(path, before, after, range);
            let issues = probe_issues(after);
            &&& v.after_errors.len() == issues.len()
            &&& forall|i: int|
                0 <= i < issues.len() ==> (#[trigger] v.after_errors[i]).line == issues[i].line
                    && v.after_errors[i].context == Some(issues[i].evidence)
            &&& v.before_errors.len() == probe_issues(before).len()
        }),
{
}

} // verus!
