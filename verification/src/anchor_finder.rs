//! The scope in a source file that a line of a patch belongs to.
use vstd::prelude::*;
use vstd::utf8::encode_utf8;

use crate::bytes::{byte_slice, slice_bytes};
use crate::indent::{columns, line_columns, TAB_WIDTH};
use crate::language::{anchor_language_of, language_adapter_for_path, SupportedLanguage};
use crate::lines::{line_seq, split_lines, texts};
use crate::parser::option_text;
use crate::symbols::{
    clean_patch_context, cleaned, context_symbol, extract_symbol_simple, extract_symbol_via_ast,
    node_span, simple_symbol, span_of,
};
use crate::syntax_tree::{
    parse_source, range_model, syntax_model, syntax_tree, SyntaxModel, SyntaxNode,
};
use crate::text::{
    chars_of, contains, contains_text, is_blank, is_blank_text, same_text, string_of,
};

verus! {

/// A block of lines in a source file.
#[derive(Clone, Copy, Debug, PartialEq, Eq, Structural)]
pub struct AnchorScope {
    pub start_line: usize,
    pub end_line: usize,
    /// The column where the block starts, from zero on.
    pub start_column: usize,
}

/// What a scope holds.
#[verifier::ext_equal]
pub ghost struct ScopeModel {
    pub start_line: int,
    pub end_line: int,
    pub start_column: int,
}

impl View for AnchorScope {
    type V = ScopeModel;

    open spec fn view(&self) -> ScopeModel {
        ScopeModel {
            start_line: self.start_line as int,
            end_line: self.end_line as int,
            start_column: self.start_column as int,
        }
    }
}

pub open spec fn opt_scope(scope: Option<AnchorScope>) -> Option<ScopeModel> {
    match scope {
        Some(s) => Some(s@),
        None => None,
    }
}

// ---------------------------------------------------------------------------
// Lines and bytes
// ---------------------------------------------------------------------------
/// Where the lines start among the first `n` bytes.
pub open spec fn starts_upto(bytes: Seq<u8>, n: int) -> Seq<int>
    decreases n,
{
    if n <= 0 {
        seq![0]
    } else if bytes[n - 1] == 10 {
        starts_upto(bytes, n - 1).push(n)
    } else {
        starts_upto(bytes, n - 1)
    }
}

/// The byte offsets at which the lines of a text start.
pub open spec fn line_starts_of(source: Seq<char>) -> Seq<int> {
    starts_upto(encode_utf8(source), encode_utf8(source).len() as int)
}

/// The last of the first `n` lines that starts at or before a byte.
pub open spec fn line_at(starts: Seq<int>, byte: int, n: int) -> int
    decreases n,
{
    if n <= 1 || starts[n - 1] <= byte {
        n - 1
    } else {
        line_at(starts, byte, n - 1)
    }
}

/// The line that holds a byte.
pub open spec fn line_of_byte(starts: Seq<int>, byte: int) -> int {
    line_at(starts, byte, starts.len() as int)
}

pub open spec fn offsets(v: Seq<usize>) -> Seq<int> {
    Seq::new(v.len(), |i: int| v[i] as int)
}

pub open spec fn ascending(starts: Seq<int>) -> bool {
    forall|i: int, j: int| 0 <= i <= j < starts.len() ==> starts[i] <= starts[j]
}

pub proof fn lemma_starts(bytes: Seq<u8>, n: int)
    requires
        0 <= n <= bytes.len(),
    ensures
        starts_upto(bytes, n).len() > 0,
        ascending(starts_upto(bytes, n)),
        forall|i: int|
            0 <= i < starts_upto(bytes, n).len() ==> 0 <= #[trigger] starts_upto(bytes, n)[i]
                && starts_upto(bytes, n)[i] <= n,
        starts_upto(bytes, n)[0] == 0,
    decreases n,
{
    if n > 0 {
        lemma_starts(bytes, n - 1);
    }
}

/// The byte offsets at which the lines of a text start.
pub fn build_line_starts(source: &str) -> (r: Vec<usize>)
    ensures
        offsets(r@) == line_starts_of(source@),
{
    let bytes: &[u8] = source.as_bytes();
    let n: usize = bytes.len();
    let mut starts: Vec<usize> = Vec::new();
    starts.push(0);
    assert(offsets(starts@) =~= seq![0]);
    let mut i: usize = 0;
    while i < n
        invariant
            i <= n,
            n == bytes@.len(),
            offsets(starts@) == starts_upto(bytes@, i as int),
        decreases n - i,
    {
        if bytes[i] == 10 {
            let ghost before = starts@;
            starts.push(i + 1);
            assert(offsets(starts@) =~= offsets(before).push(i + 1));
        }
        i += 1;
    }
    starts
}

/// The line that holds a byte, given where the lines start.
pub fn line_for_byte(byte: usize, line_starts: &[usize]) -> (r: Option<usize>)
    requires
        ascending(offsets(line_starts@)),
    ensures
        match r {
            Some(line) => line_starts@.len() > 0 && line == line_of_byte(
                offsets(line_starts@),
                byte as int,
            ),
            None => line_starts@.len() == 0,
        },
{
    if line_starts.len() == 0 {
        return None;
    }
    let ghost starts = offsets(line_starts@);
    let mut lo: usize = 0;
    let mut hi: usize = line_starts.len();
    while lo < hi
        invariant
            lo <= hi <= line_starts@.len(),
            starts == offsets(line_starts@),
            ascending(starts),
            forall|i: int| 0 <= i < lo ==> #[trigger] starts[i] <= byte,
            forall|i: int| hi <= i < starts.len() ==> #[trigger] starts[i] > byte,
        decreases hi - lo,
    {
        let mid: usize = lo + (hi - lo) / 2;
        assert(starts[mid as int] == line_starts@[mid as int]);
        if line_starts[mid] <= byte {
            lo = mid + 1;
        } else {
            hi = mid;
        }
    }
    proof {
        lemma_line_at(starts, byte as int, lo as int, starts.len() as int);
    }
    if lo == 0 {
        Some(0)
    } else {
        Some(lo - 1)
    }
}

proof fn lemma_line_at(starts: Seq<int>, byte: int, lo: int, n: int)
    requires
        0 <= lo <= n <= starts.len(),
        n > 0,
        forall|i: int| 0 <= i < lo ==> #[trigger] starts[i] <= byte,
        forall|i: int| lo <= i < n ==> #[trigger] starts[i] > byte,
    ensures
        line_at(starts, byte, n) == if lo == 0 {
            0
        } else {
            lo - 1
        },
    decreases n,
{
    if n > 1 && starts[n - 1] > byte {
        lemma_line_at(starts, byte, lo, n - 1);
    }
}

/// The number of line feeds among the first `n` bytes.
pub open spec fn feeds_before(bytes: Seq<u8>, n: int) -> nat
    decreases n,
{
    if n <= 0 {
        0
    } else if bytes[n - 1] == 10 {
        feeds_before(bytes, n - 1) + 1
    } else {
        feeds_before(bytes, n - 1)
    }
}

proof fn lemma_line_is_count(bytes: Seq<u8>, byte: int, n: int)
    requires
        0 <= byte <= n <= bytes.len(),
    ensures
        line_of_byte(starts_upto(bytes, n), byte) == feeds_before(bytes, byte),
        n == byte ==> starts_upto(bytes, n).len() == feeds_before(bytes, byte) + 1,
    decreases n,
{
    let starts = starts_upto(bytes, n);
    lemma_starts(bytes, n);
    if n > byte {
        lemma_line_is_count(bytes, byte, n - 1);
        lemma_starts(bytes, n - 1);
        if bytes[n - 1] == 10 {
            let shorter = starts_upto(bytes, n - 1);
            lemma_line_at_prefix(starts, shorter, byte, shorter.len() as int);
        }
    } else if n > 0 {
        lemma_line_is_count(bytes, byte - 1, n - 1);
    }
}

proof fn lemma_line_at_prefix(long: Seq<int>, short: Seq<int>, byte: int, n: int)
    requires
        0 <= n <= short.len() <= long.len(),
        forall|i: int| 0 <= i < short.len() ==> long[i] == short[i],
    ensures
        line_at(long, byte, n) == line_at(short, byte, n),
    decreases n,
{
    if n > 1 && short[n - 1] > byte {
        lemma_line_at_prefix(long, short, byte, n - 1);
    }
}

/// The line that holds a byte of a text is the number of line feeds before it.
pub proof fn law_line_is_number_of_feeds(source: Seq<char>, byte: int)
    requires
        0 <= byte <= encode_utf8(source).len(),
    ensures
        line_of_byte(line_starts_of(source), byte) == feeds_before(encode_utf8(source), byte),
{
    lemma_line_is_count(encode_utf8(source), byte, encode_utf8(source).len() as int);
}

// ---------------------------------------------------------------------------
// Named nodes
// ---------------------------------------------------------------------------
/// One of the first `n` name fields of a node holds the symbol.
pub open spec fn has_name(node: SyntaxModel, source: Seq<char>, symbol: Seq<char>, n: int) -> bool
    decreases n,
{
    if n <= 0 {
        false
    } else {
        has_name(node, source, symbol, n - 1) || (node.names[n - 1] matches Some((start, end))
            && byte_slice(source, start, end) == Some(symbol))
    }
}

pub open spec fn is_named_as(node: SyntaxModel, source: Seq<char>, symbol: Seq<char>) -> bool {
    has_name(node, source, symbol, node.names.len() as int)
}

/// The nodes of a tree that carry the symbol as a name and stand below no other
/// such node; what stands below the last child comes first.
pub open spec fn named_nodes(node: SyntaxModel, source: Seq<char>, symbol: Seq<char>) -> Seq<
    SyntaxModel,
>
    decreases node, node.children.len() + 1,
{
    if is_named_as(node, source, symbol) {
        seq![node]
    } else {
        named_below(node, source, symbol, node.children.len() as int)
    }
}

/// The named nodes below the first `n` children of a node.
pub open spec fn named_below(node: SyntaxModel, source: Seq<char>, symbol: Seq<char>, n: int) -> Seq<
    SyntaxModel,
>
    decreases node, n,
{
    if n <= 0 || n > node.children.len() {
        Seq::empty()
    } else {
        named_nodes(node.children[n - 1], source, symbol) + named_below(node, source, symbol, n - 1)
    }
}

pub open spec fn distance(a: int, b: int) -> int {
    if a >= b {
        a - b
    } else {
        b - a
    }
}

/// `a` is a better choice than `b`: it starts nearer to the hinted line, or as near
/// and covers less. Without lines there is nothing to be near to.
pub open spec fn nearer(
    a: SyntaxModel,
    b: SyntaxModel,
    hint: Option<int>,
    starts: Seq<int>,
) -> bool {
    match hint {
        Some(line) if starts.len() > 0 => {
            let da = distance(line_of_byte(starts, a.start_byte), line);
            let db = distance(line_of_byte(starts, b.start_byte), line);
            da < db || (da == db && span_of(a) < span_of(b))
        },
        _ => span_of(a) < span_of(b),
    }
}

/// The best node of a list, behind a first choice.
pub open spec fn nearest(
    first: Option<SyntaxModel>,
    list: Seq<SyntaxModel>,
    hint: Option<int>,
    starts: Seq<int>,
) -> Option<SyntaxModel>
    decreases list.len(),
{
    if list.len() == 0 {
        first
    } else {
        let best = nearest(first, list.drop_last(), hint, starts);
        if best.is_none() || nearer(list.last(), best.unwrap(), hint, starts) {
            Some(list.last())
        } else {
            best
        }
    }
}

pub open spec fn opt_line(hint: Option<usize>) -> Option<int> {
    match hint {
        Some(line) => Some(line as int),
        None => None,
    }
}

pub open spec fn opt_node(node: Option<&SyntaxNode>) -> Option<SyntaxModel> {
    match node {
        Some(n) => Some(syntax_model(*n)),
        None => None,
    }
}

fn carries_name(node: &SyntaxNode, source: &str, symbol: &[char]) -> (r: bool)
    ensures
        r == is_named_as(syntax_model(*node), source@, symbol@),
{
    let ghost m = syntax_model(*node);
    let mut k: usize = 0;
    let mut found: bool = false;
    while k < node.names.len()
        invariant
            m == syntax_model(*node),
            k <= node.names@.len(),
            m.names.len() == node.names@.len(),
            found == has_name(m, source@, symbol@, k as int),
        decreases node.names@.len() - k,
    {
        assert(m.names[k as int] == range_model(node.names@[k as int]));
        match node.names[k] {
            Some((start, end)) => match slice_bytes(source, start, end) {
                Some(text) => {
                    if same_text(chars_of(text).as_slice(), symbol) {
                        found = true;
                    }
                },
                None => {},
            },
            None => {},
        }
        k += 1;
    }
    found
}

fn line_distance(node: &SyntaxNode, hint: usize, line_starts: &[usize]) -> (r: usize)
    requires
        ascending(offsets(line_starts@)),
        line_starts@.len() > 0,
    ensures
        r == distance(
            line_of_byte(offsets(line_starts@), node.start_byte as int),
            hint as int,
        ),
{
    match line_for_byte(node.start_byte, line_starts) {
        Some(line) => if line >= hint {
            line - hint
        } else {
            hint - line
        },
        None => 0,
    }
}

fn is_nearer(a: &SyntaxNode, b: &SyntaxNode, hint: Option<usize>, line_starts: &[usize]) -> (r: bool)
    requires
        ascending(offsets(line_starts@)),
    ensures
        r == nearer(syntax_model(*a), syntax_model(*b), opt_line(hint), offsets(line_starts@)),
{
    match hint {
        Some(line) if line_starts.len() > 0 => {
            let da: usize = line_distance(a, line, line_starts);
            let db: usize = line_distance(b, line, line_starts);
            da < db || (da == db && node_span(a) < node_span(b))
        },
        _ => node_span(a) < node_span(b),
    }
}

proof fn lemma_nearest_concat(
    first: Option<SyntaxModel>,
    a: Seq<SyntaxModel>,
    b: Seq<SyntaxModel>,
    hint: Option<int>,
    starts: Seq<int>,
)
    ensures
        nearest(first, a + b, hint, starts) == nearest(
            nearest(first, a, hint, starts),
            b,
            hint,
            starts,
        ),
    decreases b.len(),
{
    if b.len() == 0 {
        assert(a + b =~= a);
    } else {
        assert((a + b).drop_last() =~= a + b.drop_last());
        lemma_nearest_concat(first, a, b.drop_last(), hint, starts);
    }
}

proof fn lemma_nearest_one(
    first: Option<SyntaxModel>,
    node: SyntaxModel,
    hint: Option<int>,
    starts: Seq<int>,
)
    ensures
        nearest(first, seq![node], hint, starts) == if first.is_none() || nearer(
            node,
            first.unwrap(),
            hint,
            starts,
        ) {
            Some(node)
        } else {
            first
        },
{
    assert(seq![node].drop_last() =~= Seq::<SyntaxModel>::empty());
    assert(nearest(first, Seq::<SyntaxModel>::empty(), hint, starts) == first);
}

fn nearest_named<'a>(
    node: &'a SyntaxNode,
    source: &str,
    symbol: &[char],
    hint: Option<usize>,
    line_starts: &[usize],
    first: Option<&'a SyntaxNode>,
) -> (r: Option<&'a SyntaxNode>)
    requires
        ascending(offsets(line_starts@)),
    ensures
        opt_node(r) == nearest(
            opt_node(first),
            named_nodes(syntax_model(*node), source@, symbol@),
            opt_line(hint),
            offsets(line_starts@),
        ),
    decreases *node,
{
    let ghost m = syntax_model(*node);
    let ghost h = opt_line(hint);
    let ghost starts = offsets(line_starts@);
    if carries_name(node, source, symbol) {
        proof {
            lemma_nearest_one(opt_node(first), m, h, starts);
        }
        let replace: bool = match first {
            Some(b) => is_nearer(node, b, hint, line_starts),
            None => true,
        };
        return if replace {
            Some(node)
        } else {
            first
        };
    }
    let mut best: Option<&'a SyntaxNode> = first;
    let mut n: usize = node.children.len();
    while n > 0
        invariant
            m == syntax_model(*node),
            h == opt_line(hint),
            starts == offsets(line_starts@),
            ascending(starts),
            n <= node.children@.len(),
            m.children.len() == node.children@.len(),
            nearest(opt_node(best), named_below(m, source@, symbol@, n as int), h, starts)
                == nearest(opt_node(first), named_nodes(m, source@, symbol@), h, starts),
        decreases n,
    {
        let child: &'a SyntaxNode = &node.children[n - 1];
        assert(syntax_model(*child) == m.children[n - 1]);
        proof {
            lemma_nearest_concat(
                opt_node(best),
                named_nodes(m.children[n - 1], source@, symbol@),
                named_below(m, source@, symbol@, n - 1),
                h,
                starts,
            );
        }
        best = nearest_named(child, source, symbol, hint, line_starts, best);
        n -= 1;
    }
    best
}

/// The node of a tree that carries the symbol as a name: the one nearest to the
/// hinted line, then the smallest.
pub fn find_named_node_generically<'a>(
    root: &'a SyntaxNode,
    source: &str,
    symbol: &str,
    hint_line: Option<usize>,
    line_starts: &[usize],
) -> (r: Option<&'a SyntaxNode>)
    requires
        ascending(offsets(line_starts@)),
    ensures
        opt_node(r) == nearest(
            None,
            named_nodes(syntax_model(*root), source@, symbol@),
            opt_line(hint_line),
            offsets(line_starts@),
        ),
{
    nearest_named(root, source, chars_of(symbol).as_slice(), hint_line, line_starts, None)
}

// ---------------------------------------------------------------------------
// Scopes
// ---------------------------------------------------------------------------
/// A source file in which scopes are looked for.
#[verifier::ext_equal]
pub ghost struct FinderModel {
    pub source: Seq<char>,
    pub line_count: int,
    pub language: Option<SupportedLanguage>,
    pub tree: Option<SyntaxModel>,
}

/// The lines that a node takes up, cut off at the end of the file.
pub open spec fn node_scope(finder: FinderModel, node: SyntaxModel) -> Option<ScopeModel> {
    let starts = line_starts_of(finder.source);
    let last_byte = if node.end_byte > 0 {
        node.end_byte - 1
    } else {
        0
    };
    let start = line_of_byte(starts, node.start_byte);
    let end = line_of_byte(starts, last_byte);
    let max_line = finder.line_count - 1;
    let shown_end = if end > max_line {
        max_line
    } else {
        end
    };
    if finder.line_count == 0 || start > max_line {
        None
    } else {
        Some(
            ScopeModel {
                start_line: if shown_end < start {
                    shown_end
                } else {
                    start
                },
                end_line: shown_end,
                start_column: node.column,
            },
        )
    }
}

/// The line with the symbol, among the first `n`: the first one, or the one nearest
/// to the hinted line.
pub open spec fn symbol_line(
    lines: Seq<Seq<char>>,
    symbol: Seq<char>,
    hint: Option<int>,
    n: int,
) -> Option<int>
    decreases n,
{
    if n <= 0 {
        None
    } else {
        let before = symbol_line(lines, symbol, hint, n - 1);
        if !contains_text(lines[n - 1], symbol) {
            before
        } else {
            match before {
                None => Some(n - 1),
                Some(k) => match hint {
                    None => Some(k),
                    Some(line) => if distance(n - 1, line) < distance(k, line) {
                        Some(n - 1)
                    } else {
                        Some(k)
                    },
                },
            }
        }
    }
}

/// The last line of the block whose lines from `i` on are blank or indented by more
/// than `base` columns; `last` is the line before them.
pub open spec fn block_end(lines: Seq<Seq<char>>, base: int, i: int, last: int) -> int
    decreases lines.len() - i,
{
    if i < 0 || i >= lines.len() {
        last
    } else if !is_blank_text(lines[i]) && columns(lines[i], TAB_WIDTH as nat) <= base {
        last
    } else {
        block_end(lines, base, i + 1, i)
    }
}

/// A column that fits in a machine word.
pub open spec fn capped(n: int) -> int {
    if n <= usize::MAX {
        n
    } else {
        usize::MAX as int
    }
}

/// The scope by indentation alone: the block below the line that holds the name.
pub open spec fn indent_scope(
    finder: FinderModel,
    symbol: Option<Seq<char>>,
    hint: Option<int>,
) -> Option<ScopeModel> {
    let lines = line_seq(finder.source);
    match symbol {
        None => None,
        Some(name) => match symbol_line(lines, name, hint, lines.len() as int) {
            None => None,
            Some(start) => {
                let base = columns(lines[start], TAB_WIDTH as nat) as int;
                let end = block_end(lines, base, start + 1, start);
                let max_line = if finder.line_count > 0 {
                    finder.line_count - 1
                } else {
                    0
                };
                Some(
                    ScopeModel {
                        start_line: start,
                        end_line: if end > max_line {
                            max_line
                        } else {
                            end
                        },
                        start_column: capped(base),
                    },
                )
            },
        },
    }
}

/// The name by which a line of a patch is looked up without a grammar.
pub open spec fn plain_symbol(context: Seq<char>) -> Option<Seq<char>> {
    let text = cleaned(context);
    if text.len() == 0 {
        None
    } else {
        simple_symbol(text)
    }
}

/// The scope of a line of a patch that declares `symbol` by the grammar of the
/// file.
pub open spec fn scope_with_symbol(
    finder: FinderModel,
    context: Seq<char>,
    symbol: Option<Seq<char>>,
    hint: Option<int>,
) -> Option<ScopeModel> {
    let fallback = indent_scope(finder, plain_symbol(context), hint);
    if is_blank_text(context) {
        None
    } else {
        match (finder.tree, symbol) {
            (Some(tree), Some(name)) => match nearest(
                None,
                named_nodes(tree, finder.source, name),
                hint,
                line_starts_of(finder.source),
            ) {
                Some(node) => node_scope(finder, node),
                None => fallback,
            },
            _ => fallback,
        }
    }
}

/// The name that a line of a patch declares by the grammar of the file.
pub open spec fn finder_symbol(finder: FinderModel, context: Seq<char>) -> Option<Seq<char>> {
    match finder.language {
        Some(language) => context_symbol(context, language),
        None => None,
    }
}

/// The scope of a line of a patch.
pub open spec fn scope_of(finder: FinderModel, context: Seq<char>, hint: Option<int>) -> Option<
    ScopeModel,
> {
    scope_with_symbol(finder, context, finder_symbol(finder, context), hint)
}

/// The finder for a file: with the tree of the file's language, if it has one.
pub open spec fn finder_for(path: Seq<char>, source: Seq<char>, line_count: int) -> FinderModel {
    let language = anchor_language_of(path);
    FinderModel {
        source,
        line_count,
        language,
        tree: match language {
            Some(l) => syntax_tree(source, l),
            None => None,
        },
    }
}

/// Finds the scope of a line of a patch in a source file.
pub struct AnchorFinder<'a> {
    source: &'a str,
    line_starts: Vec<usize>,
    line_count: usize,
    adapter: Option<SupportedLanguage>,
    tree: Option<SyntaxNode>,
}

impl<'a> View for AnchorFinder<'a> {
    type V = FinderModel;

    closed spec fn view(&self) -> FinderModel {
        FinderModel {
            source: self.source@,
            line_count: self.line_count as int,
            language: self.adapter,
            tree: match self.tree {
                Some(tree) => Some(syntax_model(tree)),
                None => None,
            },
        }
    }
}

impl<'a> AnchorFinder<'a> {
    #[verifier::type_invariant]
    spec fn has_its_lines(&self) -> bool {
        offsets(self.line_starts@) == line_starts_of(self.source@)
    }

    /// A finder for a source file whose tree is given.
    pub fn with_tree(
        source: &'a str,
        line_count: usize,
        language: Option<SupportedLanguage>,
        tree: Option<SyntaxNode>,
    ) -> (r: Self)
        ensures
            r@.source == source@,
            r@.line_count == line_count,
            r@.language == language,
            r@.tree == match tree {
                Some(tree) => Some(syntax_model(tree)),
                None => None,
            },
    {
        AnchorFinder {
            source,
            line_starts: build_line_starts(source),
            line_count,
            adapter: language,
            tree,
        }
    }

    /// A finder for a source file.
    pub fn new(path: &str, source: &'a str, line_count: usize) -> (r: Self)
        ensures
            r@ == finder_for(path@, source@, line_count as int),
    {
        let adapter: Option<SupportedLanguage> = language_adapter_for_path(path);
        let tree: Option<SyntaxNode> = match adapter {
            Some(language) => parse_source(source, language),
            None => None,
        };
        Self::with_tree(source, line_count, adapter, tree)
    }

    /// The scope of a line of a patch.
    pub fn scope_for_context(&self, context: &str) -> (r: Option<AnchorScope>)
        ensures
            opt_scope(r) == scope_of(self@, context@, None),
    {
        self.scope_for_context_with_hint(context, None)
    }

    /// The scope of a line of a patch, the one nearest to the hinted line where
    /// there are several.
    pub fn scope_for_context_with_hint(&self, context: &str, hint_line: Option<usize>) -> (r: Option<
        AnchorScope,
    >)
        ensures
            opt_scope(r) == scope_of(self@, context@, opt_line(hint_line)),
    {
        let symbol: Option<String> = match self.adapter {
            Some(language) => extract_symbol_via_ast(context, language),
            None => None,
        };
        self.scope_for_symbol(context, symbol, hint_line)
    }

    /// The scope of a line of a patch that declares `symbol`.
    pub fn scope_for_symbol(
        &self,
        context: &str,
        symbol: Option<String>,
        hint_line: Option<usize>,
    ) -> (r: Option<AnchorScope>)
        ensures
            opt_scope(r) == scope_with_symbol(
                self@,
                context@,
                option_text(symbol),
                opt_line(hint_line),
            ),
    {
        proof {
            use_type_invariant(self);
            lemma_starts(
                encode_utf8(self.source@),
                encode_utf8(self.source@).len() as int,
            );
        }
        let text: Vec<char> = chars_of(context);
        if is_blank(text.as_slice()) {
            return None;
        }
        match (&self.tree, &symbol) {
            (Some(tree), Some(name)) => {
                match find_named_node_generically(
                    tree,
                    self.source,
                    name.as_str(),
                    hint_line,
                    self.line_starts.as_slice(),
                ) {
                    Some(node) => {
                        return self.scope_of_node(node);
                    },
                    None => {},
                }
            },
            _ => {},
        }
        self.find_pseudo_scope(context, hint_line)
    }

    fn scope_of_node(&self, node: &SyntaxNode) -> (r: Option<AnchorScope>)
        ensures
            opt_scope(r) == node_scope(self@, syntax_model(*node)),
    {
        proof {
            use_type_invariant(self);
            lemma_starts(
                encode_utf8(self.source@),
                encode_utf8(self.source@).len() as int,
            );
        }
        let last_byte: usize = if node.end_byte > 0 {
            node.end_byte - 1
        } else {
            0
        };
        let start: usize = match line_for_byte(node.start_byte, self.line_starts.as_slice()) {
            Some(line) => line,
            None => {
                return None;
            },
        };
        let end: usize = match line_for_byte(last_byte, self.line_starts.as_slice()) {
            Some(line) => line,
            None => {
                return None;
            },
        };
        if self.line_count == 0 {
            return None;
        }
        let max_line: usize = self.line_count - 1;
        if start > max_line {
            return None;
        }
        let end_line: usize = if end > max_line {
            max_line
        } else {
            end
        };
        let start_line: usize = if end_line < start {
            end_line
        } else {
            start
        };
        Some(AnchorScope { start_line, end_line, start_column: node.column })
    }

    /// The scope by indentation alone, for files without a grammar.
    pub fn find_pseudo_scope(&self, context: &str, hint_line: Option<usize>) -> (r: Option<
        AnchorScope,
    >)
        ensures
            opt_scope(r) == indent_scope(self@, plain_symbol(context@), opt_line(hint_line)),
    {
        let text: Vec<char> = clean_patch_context(chars_of(context).as_slice());
        if text.len() == 0 {
            return None;
        }
        let shown: String = string_of(text.as_slice());
        let symbol: String = match extract_symbol_simple(shown.as_str()) {
            Some(name) => name,
            None => {
                return None;
            },
        };
        let lines: Vec<Vec<char>> = split_lines(chars_of(self.source).as_slice());
        let ghost all = line_seq(self.source@);
        let start: usize = match find_symbol_line(lines.as_slice(), symbol.as_str(), hint_line) {
            Some(line) => line,
            None => {
                return None;
            },
        };
        assert(lines@[start as int]@ == all[start as int]);
        let base: u128 = line_columns(lines[start].as_slice(), TAB_WIDTH);
        let end: usize = find_block_end(lines.as_slice(), base, start);
        let max_line: usize = if self.line_count > 0 {
            self.line_count - 1
        } else {
            0
        };
        let end_line: usize = if end > max_line {
            max_line
        } else {
            end
        };
        let start_column: usize = if base <= usize::MAX as u128 {
            base as usize
        } else {
            usize::MAX
        };
        Some(AnchorScope { start_line: start, end_line, start_column })
    }
}

fn find_symbol_line(lines: &[Vec<char>], symbol: &str, hint: Option<usize>) -> (r: Option<usize>)
    ensures
        match r {
            Some(k) => k < lines@.len() && symbol_line(
                texts(lines@),
                symbol@,
                opt_line(hint),
                lines@.len() as int,
            ) == Some(k as int),
            None => symbol_line(texts(lines@), symbol@, opt_line(hint), lines@.len() as int)
                is None,
        },
{
    let ghost all = texts(lines@);
    let mut best: Option<usize> = None;
    let mut i: usize = 0;
    while i < lines.len()
        invariant
            i <= lines@.len(),
            all == texts(lines@),
            match best {
                Some(k) => k < i && symbol_line(all, symbol@, opt_line(hint), i as int) == Some(
                    k as int,
                ),
                None => symbol_line(all, symbol@, opt_line(hint), i as int) is None,
            },
        decreases lines@.len() - i,
    {
        assert(lines@[i as int]@ == all[i as int]);
        if contains(lines[i].as_slice(), symbol) {
            match best {
                None => {
                    best = Some(i);
                },
                Some(k) => match hint {
                    None => {},
                    Some(line) => {
                        if difference(i, line) < difference(k, line) {
                            best = Some(i);
                        }
                    },
                },
            }
        }
        i += 1;
    }
    best
}

fn difference(a: usize, b: usize) -> (r: usize)
    ensures
        r == distance(a as int, b as int),
{
    if a >= b {
        a - b
    } else {
        b - a
    }
}

fn find_block_end(lines: &[Vec<char>], base: u128, start: usize) -> (r: usize)
    requires
        start < lines@.len(),
    ensures
        r == block_end(texts(lines@), base as int, start + 1, start as int),
{
    let ghost all = texts(lines@);
    let total: usize = lines.len();
    let mut last: usize = start;
    let mut i: usize = start + 1;
    while i < total
        invariant
            start < i <= total,
            total == lines@.len(),
            last < i,
            all == texts(lines@),
            block_end(all, base as int, start + 1, start as int) == block_end(
                all,
                base as int,
                i as int,
                last as int,
            ),
        decreases total - i,
    {
        let line: &[char] = lines[i].as_slice();
        assert(line@ == all[i as int]);
        if !is_blank(line) && line_columns(line, TAB_WIDTH) <= base {
            return last;
        }
        last = i;
        i += 1;
    }
    last
}

// ---------------------------------------------------------------------------
// Laws
// ---------------------------------------------------------------------------
proof fn lemma_nearest(
    list: Seq<SyntaxModel>,
    hint: Option<int>,
    starts: Seq<int>,
)
    ensures
        list.len() == 0 ==> nearest(None, list, hint, starts) is None,
        list.len() > 0 ==> {
            &&& nearest(None, list, hint, starts) is Some
            &&& list.contains(nearest(None, list, hint, starts)->0)
            &&& forall|i: int|
                0 <= i < list.len() ==> !nearer(
                    #[trigger] list[i],
                    nearest(None, list, hint, starts)->0,
                    hint,
                    starts,
                )
        },
    decreases list.len(),
{
    if list.len() > 0 {
        let shorter = list.drop_last();
        lemma_nearest(shorter, hint, starts);
        assert forall|i: int| 0 <= i < shorter.len() implies shorter[i] == #[trigger] list[i] by {}
        let best = nearest(None, list, hint, starts)->0;
        if best == list.last() {
            assert(list.contains(list[list.len() - 1]));
        } else {
            let k = choose|k: int| 0 <= k < shorter.len() && shorter[k] == best;
            assert(list[k] == best);
        }
    }
}

proof fn lemma_named_nodes(node: SyntaxModel, source: Seq<char>, symbol: Seq<char>)
    ensures
        forall|i: int|
            0 <= i < named_nodes(node, source, symbol).len() ==> is_named_as(
                #[trigger] named_nodes(node, source, symbol)[i],
                source,
                symbol,
            ),
    decreases node, node.children.len() + 1,
{
    if is_named_as(node, source, symbol) {
        assert(named_nodes(node, source, symbol) =~= seq![node]);
    } else {
        lemma_named_below(node, source, symbol, node.children.len() as int);
        assert(named_nodes(node, source, symbol) == named_below(
            node,
            source,
            symbol,
            node.children.len() as int,
        ));
    }
}

proof fn lemma_named_below(node: SyntaxModel, source: Seq<char>, symbol: Seq<char>, n: int)
    ensures
        forall|i: int|
            0 <= i < named_below(node, source, symbol, n).len() ==> is_named_as(
                #[trigger] named_below(node, source, symbol, n)[i],
                source,
                symbol,
            ),
    decreases node, n,
{
    if 0 < n <= node.children.len() {
        let last = named_nodes(node.children[n - 1], source, symbol);
        let rest = named_below(node, source, symbol, n - 1);
        lemma_named_nodes(node.children[n - 1], source, symbol);
        lemma_named_below(node, source, symbol, n - 1);
        assert(named_below(node, source, symbol, n) == last + rest);
        assert forall|i: int| 0 <= i < (last + rest).len() implies is_named_as(
            #[trigger] (last + rest)[i],
            source,
            symbol,
        ) by {
            if i < last.len() {
                assert((last + rest)[i] == last[i]);
            } else {
                assert((last + rest)[i] == rest[i - last.len()]);
            }
        }
    }
}

/// Of the nodes with the same name, one that no other is nearer to the hinted line
/// than is chosen; and there is a choice wherever there is such a node.
pub proof fn law_nearest_named_node_is_chosen(
    root: SyntaxModel,
    source: Seq<char>,
    symbol: Seq<char>,
    hint: Option<int>,
    starts: Seq<int>,
)
    ensures
        ({
            let list = named_nodes(root, source, symbol);
            match nearest(None, list, hint, starts) {
                None => list.len() == 0,
                Some(node) => {
                    &&& is_named_as(node, source, symbol)
                    &&& list.contains(node)
                    &&& forall|i: int|
                        0 <= i < list.len() ==> !nearer(#[trigger] list[i], node, hint, starts)
                },
            }
        }),
{
    lemma_nearest(named_nodes(root, source, symbol), hint, starts);
    lemma_named_nodes(root, source, symbol);
}

/// By indentation alone, the line chosen for a name holds it, and no line that holds
/// it is nearer to the hinted line or, without a hint, before it; and there is a
/// choice wherever a line holds the name.
pub proof fn law_nearest_line_with_the_name_is_chosen(
    lines: Seq<Seq<char>>,
    symbol: Seq<char>,
    hint: Option<int>,
    n: int,
)
    requires
        0 <= n <= lines.len(),
    ensures
        match symbol_line(lines, symbol, hint, n) {
            None => forall|i: int| 0 <= i < n ==> !contains_text(#[trigger] lines[i], symbol),
            Some(k) => {
                &&& 0 <= k < n
                &&& contains_text(lines[k], symbol)
                &&& forall|i: int|
                    0 <= i < n && contains_text(#[trigger] lines[i], symbol) ==> match hint {
                        None => k <= i,
                        Some(line) => distance(k, line) <= distance(i, line),
                    }
            },
        },
    decreases n,
{
    if n > 0 {
        law_nearest_line_with_the_name_is_chosen(lines, symbol, hint, n - 1);
    }
}

/// A block goes on as long as its lines are blank or indented by more than its first
/// line, and no longer.
pub proof fn law_block_ends_where_indentation_returns(
    lines: Seq<Seq<char>>,
    base: int,
    i: int,
)
    requires
        0 < i <= lines.len(),
    ensures
        ({
            let end = block_end(lines, base, i, i - 1);
            &&& i - 1 <= end < lines.len()
            &&& forall|k: int|
                i <= k <= end ==> is_blank_text(#[trigger] lines[k]) || columns(
                    lines[k],
                    TAB_WIDTH as nat,
                ) > base
            &&& end + 1 < lines.len() ==> !is_blank_text(lines[end + 1]) && columns(
                lines[end + 1],
                TAB_WIDTH as nat,
            ) <= base
        }),
    decreases lines.len() - i,
{
    if i < lines.len() && (is_blank_text(lines[i]) || columns(lines[i], TAB_WIDTH as nat) > base) {
        law_block_ends_where_indentation_returns(lines, base, i + 1);
    }
}

/// The columns of a line's indentation, a tab being worth four.
pub fn count_indent(line: &str) -> (r: usize)
    requires
        columns(line@, TAB_WIDTH as nat) <= usize::MAX,
    ensures
        r == columns(line@, TAB_WIDTH as nat),
{
    line_columns(chars_of(line).as_slice(), TAB_WIDTH) as usize
}

} // verus!
