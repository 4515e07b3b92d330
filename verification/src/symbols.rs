//! Names in a line of code and in a syntax tree.
use vstd::prelude::*;

use crate::bytes::{byte_count, byte_len, byte_slice, slice_bytes, text_byte_count};
use crate::language::SupportedLanguage;
use crate::syntax_tree::{
    parse_source, range_model, syntax_model, syntax_tree, SyntaxModel, SyntaxNode,
};
use crate::text::{
    chars_of, contains, contains_text, copy_text, has_prefix, is_ascii_char, is_digit, is_letter,
    span, starts_with, string_of, text_is, trim, trimmed,
};

verus! {

// ---------------------------------------------------------------------------
// Lines of a patch
// ---------------------------------------------------------------------------
/// A text without the `@@` at its start.
pub open spec fn without_at_marks(s: Seq<char>) -> Seq<char> {
    if has_prefix(s, "@@"@) {
        trimmed(s.skip(2))
    } else {
        s
    }
}

/// A text without the diff prefix `mark` at its start. A doubled mark and the
/// operator that assigns stay.
pub open spec fn without_mark(s: Seq<char>, mark: char) -> Seq<char> {
    if s.len() > 0 && s[0] == mark && !(s.len() > 1 && (s[1] == mark || s[1] == '=')) {
        trimmed(s.skip(1))
    } else {
        s
    }
}

/// A line of a patch without its markers.
pub open spec fn cleaned(context: Seq<char>) -> Seq<char> {
    without_mark(without_mark(without_at_marks(trimmed(context)), '+'), '-')
}

fn strip_mark(s: &[char], mark: char) -> (r: &[char])
    ensures
        r@ == without_mark(s@, mark),
{
    if s.len() > 0 && s[0] == mark && !(s.len() > 1 && (s[1] == mark || s[1] == '=')) {
        assert(s@.subrange(1, s@.len() as int) =~= s@.skip(1));
        trim(span(s, 1, s.len()))
    } else {
        s
    }
}

/// A line of a patch without its markers.
pub fn clean_patch_context(context: &[char]) -> (r: Vec<char>)
    ensures
        r@ == cleaned(context@),
{
    let mut s: &[char] = trim(context);
    if starts_with(s, "@@") {
        proof {
            reveal_strlit("@@");
            assert(s@.subrange(2, s@.len() as int) =~= s@.skip(2));
        }
        s = trim(span(s, 2, s.len()));
    }
    copy_text(strip_mark(strip_mark(s, '+'), '-'))
}

// ---------------------------------------------------------------------------
// Words
// ---------------------------------------------------------------------------
/// Whether `char::is_alphanumeric` holds of a character.
pub uninterp spec fn alphanumeric(c: char) -> bool;

/// Whether `char::is_alphabetic` holds of a character.
pub uninterp spec fn alphabetic(c: char) -> bool;

/// `char::is_alphanumeric`: a property of the character alone, after the tables of
/// Unicode; among the ASCII characters the letters and digits have it.
pub assume_specification[ char::is_alphanumeric ](c: char) -> (r: bool)
    ensures
        r == alphanumeric(c),
        is_ascii_char(c) ==> r == (is_letter(c) || is_digit(c)),
;

/// `char::is_alphabetic`: a property of the character alone, after the tables of
/// Unicode; among the ASCII characters the letters have it.
pub assume_specification[ char::is_alphabetic ](c: char) -> (r: bool)
    ensures
        r == alphabetic(c),
        is_ascii_char(c) ==> r == is_letter(c),
;

pub open spec fn symbol_char(c: char) -> bool {
    alphanumeric(c) || c == '_'
}

/// Where the run of symbol characters that ends at `n` starts.
pub open spec fn run_start(s: Seq<char>, n: int) -> int
    decreases n,
{
    if n > 0 && symbol_char(s[n - 1]) {
        run_start(s, n - 1)
    } else {
        n
    }
}

/// A run that may be a name: it holds a letter and more than one byte.
pub open spec fn is_symbol(run: Seq<char>) -> bool {
    (exists|i: int| 0 <= i < run.len() && alphabetic(#[trigger] run[i])) && byte_len(run) >= 2
}

/// The last name in `s.take(n)`.
pub open spec fn last_symbol(s: Seq<char>, n: int) -> Option<Seq<char>>
    decreases n,
    via last_symbol_decreases
{
    let start = run_start(s, n);
    if n <= 0 {
        None
    } else if start == n {
        last_symbol(s, n - 1)
    } else if is_symbol(s.subrange(start, n)) {
        Some(s.subrange(start, n))
    } else {
        last_symbol(s, start)
    }
}

#[via_fn]
proof fn last_symbol_decreases(s: Seq<char>, n: int) {
    if n > 0 {
        lemma_run_start(s, n);
    }
}

proof fn lemma_run_start(s: Seq<char>, n: int)
    requires
        0 <= n,
    ensures
        0 <= run_start(s, n) <= n,
    decreases n,
{
    if n > 0 && symbol_char(s[n - 1]) {
        lemma_run_start(s, n - 1);
    }
}

/// The last name in a line of a patch.
pub open spec fn simple_symbol(context: Seq<char>) -> Option<Seq<char>> {
    last_symbol(cleaned(context), cleaned(context).len() as int)
}

fn find_run_start(s: &[char], n: usize) -> (r: usize)
    requires
        n <= s@.len(),
    ensures
        r == run_start(s@, n as int),
        r <= n,
{
    let mut i: usize = n;
    while i > 0 && (s[i - 1].is_alphanumeric() || s[i - 1] == '_')
        invariant
            i <= n <= s@.len(),
            run_start(s@, n as int) == run_start(s@, i as int),
        decreases i,
    {
        i -= 1;
    }
    i
}

fn may_be_symbol(run: &[char]) -> (r: bool)
    ensures
        r == is_symbol(run@),
{
    let mut i: usize = 0;
    while i < run.len()
        invariant
            i <= run@.len(),
            forall|k: int| 0 <= k < i ==> !alphabetic(#[trigger] run@[k]),
        decreases run@.len() - i,
    {
        if run[i].is_alphabetic() {
            return text_byte_count(run) >= 2;
        }
        i += 1;
    }
    false
}

fn find_last_symbol(s: &[char]) -> (r: Option<Vec<char>>)
    ensures
        match r {
            Some(t) => last_symbol(s@, s@.len() as int) == Some(t@),
            None => last_symbol(s@, s@.len() as int) is None,
        },
{
    let mut n: usize = s.len();
    while n > 0
        invariant
            n <= s@.len(),
            last_symbol(s@, s@.len() as int) == last_symbol(s@, n as int),
        decreases n,
    {
        let start: usize = find_run_start(s, n);
        if start == n {
            n -= 1;
        } else {
            let run: &[char] = span(s, start, n);
            if may_be_symbol(run) {
                return Some(copy_text(run));
            }
            n = start;
        }
    }
    None
}

/// The last name in a line of a patch, whatever the language.
pub fn extract_symbol_simple(context: &str) -> (r: Option<String>)
    ensures
        match r {
            Some(t) => simple_symbol(context@) == Some(t@),
            None => simple_symbol(context@) is None,
        },
{
    let text: Vec<char> = clean_patch_context(chars_of(context).as_slice());
    match find_last_symbol(text.as_slice()) {
        Some(t) => Some(string_of(t.as_slice())),
        None => None,
    }
}

// ---------------------------------------------------------------------------
// Names in a tree
// ---------------------------------------------------------------------------
/// The text in name field `k` of a node, if it is not blank.
pub open spec fn name_text(node: SyntaxModel, source: Seq<char>, k: int) -> Option<Seq<char>> {
    if k < 0 || k >= node.names.len() {
        None
    } else {
        match node.names[k] {
            None => None,
            Some((start, end)) => match byte_slice(source, start, end) {
                None => None,
                Some(text) => if trimmed(text).len() > 0 {
                    Some(trimmed(text))
                } else {
                    None
                },
            },
        }
    }
}

/// The name of a node: the text of its first name field at or after `k` that holds
/// one.
pub open spec fn name_from(node: SyntaxModel, source: Seq<char>, k: int) -> Option<Seq<char>>
    decreases node.names.len() - k,
{
    if k < 0 || k >= node.names.len() {
        None
    } else if name_text(node, source, k).is_some() {
        name_text(node, source, k)
    } else {
        name_from(node, source, k + 1)
    }
}

/// A name in a tree, and what it is chosen by.
#[verifier::ext_equal]
pub ghost struct SymbolModel {
    pub name: Seq<char>,
    pub score: int,
    pub depth: int,
    pub span: int,
    pub start: int,
}

/// The number of bytes that a node covers.
pub open spec fn span_of(node: SyntaxModel) -> int {
    if node.end_byte >= node.start_byte {
        node.end_byte - node.start_byte
    } else {
        0
    }
}

/// How likely a name is the one that the text declares: it counts for the node to
/// have children, to hold more than the name, and to start or end the text; it
/// counts against it that the name is short.
pub open spec fn symbol_score(node: SyntaxModel, source: Seq<char>, name: Seq<char>) -> int {
    let children: int = if node.named_child_count < 6 {
        node.named_child_count / 2
    } else {
        3
    };
    let more: int = if span_of(node) > byte_len(name) + 1 {
        2
    } else {
        0
    };
    let first: int = if node.start_byte == 0 {
        1
    } else {
        0
    };
    let last: int = if node.end_byte == byte_len(source) {
        1
    } else {
        0
    };
    let short: int = if byte_len(name) <= 1 {
        2
    } else {
        0
    };
    10 + children + more + first + last - short
}

/// The name that a node holds, at a given depth.
pub open spec fn symbol_at(node: SyntaxModel, source: Seq<char>, depth: int) -> Option<
    SymbolModel,
> {
    match name_from(node, source, 0) {
        None => None,
        Some(name) => Some(
            SymbolModel {
                name,
                score: symbol_score(node, source, name),
                depth,
                span: span_of(node),
                start: node.start_byte,
            },
        ),
    }
}

/// The depth of the children of a node, as far as it can be counted.
pub open spec fn deeper(depth: int) -> int {
    if depth < usize::MAX {
        depth + 1
    } else {
        depth
    }
}

/// The names in a tree: that of the root first, then those below its children, the
/// last child first.
pub open spec fn symbols_in(node: SyntaxModel, source: Seq<char>, depth: int) -> Seq<SymbolModel>
    decreases node, node.children.len() + 1,
{
    let below = symbols_below(node, source, depth, node.children.len() as int);
    match symbol_at(node, source, depth) {
        Some(symbol) => seq![symbol] + below,
        None => below,
    }
}

/// The names below the first `n` children of a node.
pub open spec fn symbols_below(node: SyntaxModel, source: Seq<char>, depth: int, n: int) -> Seq<
    SymbolModel,
>
    decreases node, n,
{
    if n <= 0 || n > node.children.len() {
        Seq::empty()
    } else {
        symbols_in(node.children[n - 1], source, deeper(depth)) + symbols_below(
            node,
            source,
            depth,
            n - 1,
        )
    }
}

/// `a` is a better choice than `b`: it scores higher, or stands higher in the tree,
/// or covers more, or comes first.
pub open spec fn better_symbol(a: SymbolModel, b: SymbolModel) -> bool {
    a.score > b.score || (a.score == b.score && (a.depth < b.depth || (a.depth == b.depth && (
    a.span > b.span || (a.span == b.span && a.start < b.start)))))
}

/// The best name of a list, behind a first choice.
pub open spec fn best_symbol(first: Option<SymbolModel>, list: Seq<SymbolModel>) -> Option<
    SymbolModel,
>
    decreases list.len(),
{
    if list.len() == 0 {
        first
    } else {
        let best = best_symbol(first, list.drop_last());
        if best.is_none() || better_symbol(list.last(), best.unwrap()) {
            Some(list.last())
        } else {
            best
        }
    }
}

/// A node that is a name itself.
pub open spec fn is_identifier(node: SyntaxModel) -> bool {
    node.is_named && (contains_text(node.kind, "identifier"@) || node.kind == "name"@)
}

/// The first name in a tree, in the order of the text.
pub open spec fn first_identifier(node: SyntaxModel, source: Seq<char>) -> Option<Seq<char>>
    decreases node, node.children.len() + 1,
{
    if is_identifier(node) {
        byte_slice(source, node.start_byte, node.end_byte)
    } else if node.is_named && node.kind != "ERROR"@ && name_text(node, source, 0).is_some() {
        name_text(node, source, 0)
    } else {
        identifier_below(node, source, node.children.len() as int)
    }
}

/// The first name below the last `n` children of a node.
pub open spec fn identifier_below(node: SyntaxModel, source: Seq<char>, n: int) -> Option<Seq<char>>
    decreases node, n,
{
    if n <= 0 || n > node.children.len() {
        None
    } else {
        match first_identifier(node.children[node.children.len() - n], source) {
            Some(name) => Some(name),
            None => identifier_below(node, source, n - 1),
        }
    }
}

/// The name that a tree declares: the best of those in name fields, or the first
/// one.
pub open spec fn declared_symbol(root: SyntaxModel, source: Seq<char>) -> Option<Seq<char>> {
    match best_symbol(None, symbols_in(root, source, 0)) {
        Some(symbol) => Some(symbol.name),
        None => first_identifier(root, source),
    }
}

/// The name that a line of a patch declares in a language.
pub open spec fn context_symbol(context: Seq<char>, language: SupportedLanguage) -> Option<
    Seq<char>,
> {
    let text = cleaned(context);
    if text.len() == 0 {
        None
    } else {
        match syntax_tree(text, language) {
            Some(root) => declared_symbol(root, text),
            None => None,
        }
    }
}

/// An optional text, by its characters.
pub open spec fn opt_text(t: Option<Vec<char>>) -> Option<Seq<char>> {
    match t {
        Some(v) => Some(v@),
        None => None,
    }
}

fn find_name_text(node: &SyntaxNode, source: &str, k: usize) -> (r: Option<Vec<char>>)
    requires
        k < node.names@.len(),
    ensures
        opt_text(r) == name_text(syntax_model(*node), source@, k as int),
{
    assert(syntax_model(*node).names[k as int] == range_model(node.names@[k as int]));
    match node.names[k] {
        None => None,
        Some((start, end)) => match slice_bytes(source, start, end) {
            None => None,
            Some(text) => {
                let t: Vec<char> = copy_text(trim(chars_of(text).as_slice()));
                if t.len() > 0 {
                    Some(t)
                } else {
                    None
                }
            },
        },
    }
}

/// The name of a node.
pub fn node_symbol_name(node: &SyntaxNode, source: &str) -> (r: Option<Vec<char>>)
    ensures
        opt_text(r) == name_from(syntax_model(*node), source@, 0),
{
    let ghost m = syntax_model(*node);
    let mut k: usize = 0;
    while k < node.names.len()
        invariant
            m == syntax_model(*node),
            k <= node.names@.len(),
            m.names.len() == node.names@.len(),
            name_from(m, source@, 0) == name_from(m, source@, k as int),
        decreases node.names@.len() - k,
    {
        match find_name_text(node, source, k) {
            Some(t) => {
                return Some(t);
            },
            None => {},
        }
        k += 1;
    }
    None
}

/// A name in a tree, and what it is chosen by.
pub struct SymbolCandidate {
    pub name: Vec<char>,
    pub score: i32,
    pub depth: usize,
    pub span: usize,
    pub start: usize,
}

pub open spec fn candidate_model(c: SymbolCandidate) -> SymbolModel {
    SymbolModel {
        name: c.name@,
        score: c.score as int,
        depth: c.depth as int,
        span: c.span as int,
        start: c.start as int,
    }
}

pub open spec fn opt_candidate(c: Option<SymbolCandidate>) -> Option<SymbolModel> {
    match c {
        Some(c) => Some(candidate_model(c)),
        None => None,
    }
}

/// The number of bytes that a node covers.
pub fn node_span(node: &SyntaxNode) -> (r: usize)
    ensures
        r == span_of(syntax_model(*node)),
{
    if node.end_byte >= node.start_byte {
        node.end_byte - node.start_byte
    } else {
        0
    }
}

fn candidate_at(node: &SyntaxNode, source: &str, depth: usize) -> (r: Option<SymbolCandidate>)
    ensures
        opt_candidate(r) == symbol_at(syntax_model(*node), source@, depth as int),
{
    match node_symbol_name(node, source) {
        None => None,
        Some(name) => {
            let name_len: usize = text_byte_count(name.as_slice());
            let span: usize = node_span(node);
            let mut score: i32 = 10;
            if node.named_child_count < 6 {
                score += (node.named_child_count / 2) as i32;
            } else {
                score += 3;
            }
            if name_len < usize::MAX && span > name_len + 1 {
                score += 2;
            }
            if node.start_byte == 0 {
                score += 1;
            }
            if node.end_byte == byte_count(source) {
                score += 1;
            }
            if name_len <= 1 {
                score -= 2;
            }
            Some(SymbolCandidate { name, score, depth, span, start: node.start_byte })
        },
    }
}

fn is_better(a: &SymbolCandidate, b: &SymbolCandidate) -> (r: bool)
    ensures
        r == better_symbol(candidate_model(*a), candidate_model(*b)),
{
    a.score > b.score || (a.score == b.score && (a.depth < b.depth || (a.depth == b.depth && (
    a.span > b.span || (a.span == b.span && a.start < b.start)))))
}

proof fn lemma_best_concat(
    first: Option<SymbolModel>,
    a: Seq<SymbolModel>,
    b: Seq<SymbolModel>,
)
    ensures
        best_symbol(first, a + b) == best_symbol(best_symbol(first, a), b),
    decreases b.len(),
{
    if b.len() == 0 {
        assert(a + b =~= a);
    } else {
        assert((a + b).drop_last() =~= a + b.drop_last());
        lemma_best_concat(first, a, b.drop_last());
    }
}

proof fn lemma_best_one(first: Option<SymbolModel>, symbol: SymbolModel)
    ensures
        best_symbol(first, seq![symbol]) == if first.is_none() || better_symbol(
            symbol,
            first.unwrap(),
        ) {
            Some(symbol)
        } else {
            first
        },
{
    assert(seq![symbol].drop_last() =~= Seq::<SymbolModel>::empty());
    assert(best_symbol(first, Seq::<SymbolModel>::empty()) == first);
}

fn best_candidate(
    node: &SyntaxNode,
    source: &str,
    depth: usize,
    first: Option<SymbolCandidate>,
) -> (r: Option<SymbolCandidate>)
    ensures
        opt_candidate(r) == best_symbol(
            opt_candidate(first),
            symbols_in(syntax_model(*node), source@, depth as int),
        ),
    decreases *node,
{
    let ghost m = syntax_model(*node);
    let ghost d = depth as int;
    let mut best: Option<SymbolCandidate> = first;
    match candidate_at(node, source, depth) {
        Some(candidate) => {
            proof {
                lemma_best_one(opt_candidate(first), candidate_model(candidate));
                lemma_best_concat(
                    opt_candidate(first),
                    seq![candidate_model(candidate)],
                    symbols_below(m, source@, d, m.children.len() as int),
                );
            }
            let replace: bool = match &best {
                Some(b) => is_better(&candidate, b),
                None => true,
            };
            if replace {
                best = Some(candidate);
            }
        },
        None => {},
    }
    let below: usize = if depth < usize::MAX {
        depth + 1
    } else {
        depth
    };
    let mut n: usize = node.children.len();
    while n > 0
        invariant
            m == syntax_model(*node),
            d == depth,
            below == deeper(d),
            n <= node.children@.len(),
            m.children.len() == node.children@.len(),
            best_symbol(opt_candidate(best), symbols_below(m, source@, d, n as int))
                == best_symbol(opt_candidate(first), symbols_in(m, source@, d)),
        decreases n,
    {
        let child: &SyntaxNode = &node.children[n - 1];
        assert(syntax_model(*child) == m.children[n - 1]);
        proof {
            lemma_best_concat(
                opt_candidate(best),
                symbols_in(m.children[n - 1], source@, deeper(d)),
                symbols_below(m, source@, d, n - 1),
            );
        }
        best = best_candidate(child, source, below, best);
        n -= 1;
    }
    best
}

/// The best name among those in the name fields of a tree.
pub fn select_symbol_candidate(root: &SyntaxNode, source: &str) -> (r: Option<Vec<char>>)
    ensures
        opt_text(r) == match best_symbol(None, symbols_in(syntax_model(*root), source@, 0)) {
            Some(symbol) => Some(symbol.name),
            None => None,
        },
{
    match best_candidate(root, source, 0, None) {
        Some(candidate) => Some(candidate.name),
        None => None,
    }
}

/// The first name in a tree.
pub fn find_first_identifier(node: &SyntaxNode, source: &str) -> (r: Option<Vec<char>>)
    ensures
        opt_text(r) == first_identifier(syntax_model(*node), source@),
    decreases *node,
{
    let ghost m = syntax_model(*node);
    if node.is_named {
        let kind: Vec<char> = chars_of(node.kind.as_str());
        if contains(kind.as_slice(), "identifier") || text_is(kind.as_slice(), "name") {
            return match slice_bytes(source, node.start_byte, node.end_byte) {
                Some(text) => Some(chars_of(text)),
                None => None,
            };
        }
        if !text_is(kind.as_slice(), "ERROR") && node.names.len() > 0 {
            match find_name_text(node, source, 0) {
                Some(name) => {
                    return Some(name);
                },
                None => {},
            }
        }
    }
    let total: usize = node.children.len();
    let mut i: usize = 0;
    while i < total
        invariant
            m == syntax_model(*node),
            i <= total,
            total == node.children@.len(),
            m.children.len() == total,
            identifier_below(m, source@, total as int) == identifier_below(m, source@, total - i),
            first_identifier(m, source@) == identifier_below(m, source@, total as int),
        decreases total - i,
    {
        let child: &SyntaxNode = &node.children[i];
        assert(syntax_model(*child) == m.children[i as int]);
        match find_first_identifier(child, source) {
            Some(name) => {
                return Some(name);
            },
            None => {},
        }
        i += 1;
    }
    None
}

/// The name that a tree declares.
pub fn symbol_in_tree(root: &SyntaxNode, source: &str) -> (r: Option<String>)
    ensures
        match r {
            Some(name) => declared_symbol(syntax_model(*root), source@) == Some(name@),
            None => declared_symbol(syntax_model(*root), source@) is None,
        },
{
    match select_symbol_candidate(root, source) {
        Some(name) => {
            return Some(string_of(name.as_slice()));
        },
        None => {},
    }
    match find_first_identifier(root, source) {
        Some(name) => Some(string_of(name.as_slice())),
        None => None,
    }
}

/// The name that a line of a patch declares, by the grammar of a language.
pub fn extract_symbol_via_ast(context: &str, language: SupportedLanguage) -> (r: Option<String>)
    ensures
        match r {
            Some(name) => context_symbol(context@, language) == Some(name@),
            None => context_symbol(context@, language) is None,
        },
{
    let text: Vec<char> = clean_patch_context(chars_of(context).as_slice());
    if text.len() == 0 {
        return None;
    }
    let line: String = string_of(text.as_slice());
    match parse_source(line.as_str(), language) {
        Some(root) => symbol_in_tree(&root, line.as_str()),
        None => None,
    }
}

proof fn lemma_best_symbol(list: Seq<SymbolModel>)
    ensures
        list.len() == 0 ==> best_symbol(None, list) is None,
        list.len() > 0 ==> {
            &&& best_symbol(None, list) is Some
            &&& list.contains(best_symbol(None, list)->0)
            &&& forall|i: int|
                0 <= i < list.len() ==> !better_symbol(
                    #[trigger] list[i],
                    best_symbol(None, list)->0,
                )
        },
    decreases list.len(),
{
    if list.len() > 0 {
        let shorter = list.drop_last();
        lemma_best_symbol(shorter);
        assert forall|i: int| 0 <= i < shorter.len() implies shorter[i] == #[trigger] list[i] by {}
        let best = best_symbol(None, list)->0;
        if best == list.last() {
            assert(list.contains(list[list.len() - 1]));
        } else {
            let k = choose|k: int| 0 <= k < shorter.len() && shorter[k] == best;
            assert(list[k] == best);
        }
    }
}

/// The name that is chosen is one of those in the tree, and none of them is better;
/// and there is a choice wherever there is a name.
pub proof fn law_best_symbol_is_chosen(root: SyntaxModel, source: Seq<char>)
    ensures
        ({
            let list = symbols_in(root, source, 0);
            match best_symbol(None, list) {
                None => list.len() == 0,
                Some(symbol) => list.contains(symbol) && forall|i: int|
                    0 <= i < list.len() ==> !better_symbol(#[trigger] list[i], symbol),
            }
        }),
{
    lemma_best_symbol(symbols_in(root, source, 0));
}

} // verus!
