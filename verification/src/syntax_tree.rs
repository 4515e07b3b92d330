//! Syntax trees: what the library reads of a tree-sitter tree, as plain values.
use tree_sitter::{Node, Tree};
use vstd::prelude::*;

use crate::language::SupportedLanguage;

verus! {

// ---------------------------------------------------------------------------
// tree-sitter
// ---------------------------------------------------------------------------
/// A tree of tree-sitter, opaque here.
#[verifier::external_type_specification]
#[verifier::external_body]
pub struct ExTree(tree_sitter::Tree);

/// A node of tree-sitter, opaque here.
#[verifier::external_type_specification]
#[verifier::external_body]
pub struct ExNode<'tree>(tree_sitter::Node<'tree>);

/// What tree-sitter tells of a node: its kind, whether it is named, an error or
/// missing, where it stands, how many of its children are named, the byte ranges
/// of the nodes that its fields name, and its children.
#[verifier::ext_equal]
pub ghost struct NodeModel {
    pub kind: Seq<char>,
    pub is_named: bool,
    pub is_error: bool,
    pub is_missing: bool,
    pub start_byte: int,
    pub end_byte: int,
    pub row: int,
    pub column: int,
    pub named_child_count: int,
    pub fields: Map<Seq<char>, (int, int)>,
    pub children: Seq<NodeModel>,
}

/// What a tree-sitter node tells.
pub uninterp spec fn node_model(node: Node) -> NodeModel;

/// What the root of a tree-sitter tree tells.
pub uninterp spec fn root_model(tree: Tree) -> NodeModel;

/// The tree that tree-sitter builds of a text with the Rust grammar.
pub uninterp spec fn rust_tree(source: Seq<char>) -> Option<NodeModel>;

/// The tree that tree-sitter builds of a text with the Python grammar.
pub uninterp spec fn python_tree(source: Seq<char>) -> Option<NodeModel>;

/// The tree that tree-sitter builds of a text with the JavaScript grammar.
pub uninterp spec fn javascript_tree(source: Seq<char>) -> Option<NodeModel>;

/// The tree that tree-sitter builds of a text with the TypeScript grammar.
pub uninterp spec fn typescript_tree(source: Seq<char>) -> Option<NodeModel>;

/// The tree that tree-sitter builds of a text with the TSX grammar.
pub uninterp spec fn tsx_tree(source: Seq<char>) -> Option<NodeModel>;

/// `tree_sitter::Parser::parse` on a fresh parser with `tree_sitter_rust::LANGUAGE`,
/// without an earlier tree: the result rests on the text alone, and `rust_tree` is
/// the name for it. There is no tree where the parser takes the grammar for too
/// new or too old.
#[verifier::external_body]
fn parse_rust(source: &str) -> (r: Option<Tree>)
    ensures
        match r {
            Some(tree) => rust_tree(source@) == Some(root_model(tree)),
            None => rust_tree(source@) is None,
        },
{
    let mut parser = tree_sitter::Parser::new();
    parser.set_language(&tree_sitter_rust::LANGUAGE.into()).ok()?;
    parser.parse(source, None)
}

/// `tree_sitter::Parser::parse` with `tree_sitter_python::LANGUAGE`: the result
/// rests on the text alone, and `python_tree` is the name for it.
#[verifier::external_body]
fn parse_python(source: &str) -> (r: Option<Tree>)
    ensures
        match r {
            Some(tree) => python_tree(source@) == Some(root_model(tree)),
            None => python_tree(source@) is None,
        },
{
    let mut parser = tree_sitter::Parser::new();
    parser.set_language(&tree_sitter_python::LANGUAGE.into()).ok()?;
    parser.parse(source, None)
}

/// `tree_sitter::Parser::parse` with `tree_sitter_javascript::LANGUAGE`: the result
/// rests on the text alone, and `javascript_tree` is the name for it.
#[verifier::external_body]
fn parse_javascript(source: &str) -> (r: Option<Tree>)
    ensures
        match r {
            Some(tree) => javascript_tree(source@) == Some(root_model(tree)),
            None => javascript_tree(source@) is None,
        },
{
    let mut parser = tree_sitter::Parser::new();
    parser.set_language(&tree_sitter_javascript::LANGUAGE.into()).ok()?;
    parser.parse(source, None)
}

/// `tree_sitter::Parser::parse` with `tree_sitter_typescript::LANGUAGE_TYPESCRIPT`:
/// the result rests on the text alone, and `typescript_tree` is the name for it.
#[verifier::external_body]
fn parse_typescript(source: &str) -> (r: Option<Tree>)
    ensures
        match r {
            Some(tree) => typescript_tree(source@) == Some(root_model(tree)),
            None => typescript_tree(source@) is None,
        },
{
    let mut parser = tree_sitter::Parser::new();
    parser.set_language(&tree_sitter_typescript::LANGUAGE_TYPESCRIPT.into()).ok()?;
    parser.parse(source, None)
}

/// `tree_sitter::Parser::parse` with `tree_sitter_typescript::LANGUAGE_TSX`: the
/// result rests on the text alone, and `tsx_tree` is the name for it.
#[verifier::external_body]
fn parse_tsx(source: &str) -> (r: Option<Tree>)
    ensures
        match r {
            Some(tree) => tsx_tree(source@) == Some(root_model(tree)),
            None => tsx_tree(source@) is None,
        },
{
    let mut parser = tree_sitter::Parser::new();
    parser.set_language(&tree_sitter_typescript::LANGUAGE_TSX.into()).ok()?;
    parser.parse(source, None)
}

/// `tree_sitter::Tree::root_node`: the root of the tree.
#[verifier::external_body]
fn root_node(tree: &Tree) -> (r: Node<'_>)
    ensures
        node_model(r) == root_model(*tree),
{
    tree.root_node()
}

/// `tree_sitter::Node::kind`: the node's type as text.
#[verifier::external_body]
fn node_kind(node: &Node<'_>) -> (r: String)
    ensures
        r@ == node_model(*node).kind,
{
    node.kind().to_string()
}

/// `tree_sitter::Node::is_named`: whether a named rule of the grammar stands for
/// the node.
#[verifier::external_body]
fn node_is_named(node: &Node<'_>) -> (r: bool)
    ensures
        r == node_model(*node).is_named,
{
    node.is_named()
}

/// `tree_sitter::Node::is_error`: whether the node is a syntax error.
#[verifier::external_body]
fn node_is_error(node: &Node<'_>) -> (r: bool)
    ensures
        r == node_model(*node).is_error,
{
    node.is_error()
}

/// `tree_sitter::Node::is_missing`: whether the parser put the node in to recover
/// from an error.
#[verifier::external_body]
fn node_is_missing(node: &Node<'_>) -> (r: bool)
    ensures
        r == node_model(*node).is_missing,
{
    node.is_missing()
}

/// `tree_sitter::Node::start_byte`: where the node starts in the text.
#[verifier::external_body]
fn node_start_byte(node: &Node<'_>) -> (r: usize)
    ensures
        r == node_model(*node).start_byte,
{
    node.start_byte()
}

/// `tree_sitter::Node::end_byte`: where the node ends in the text.
#[verifier::external_body]
fn node_end_byte(node: &Node<'_>) -> (r: usize)
    ensures
        r == node_model(*node).end_byte,
{
    node.end_byte()
}

/// `tree_sitter::Node::start_position`: the row and the column (in bytes) where the
/// node starts, both from zero on.
#[verifier::external_body]
fn node_start_position(node: &Node<'_>) -> (r: (usize, usize))
    ensures
        r.0 == node_model(*node).row,
        r.1 == node_model(*node).column,
{
    let point = node.start_position();
    (point.row, point.column)
}

/// `tree_sitter::Node::named_child_count`: the number of named children.
#[verifier::external_body]
fn node_named_child_count(node: &Node<'_>) -> (r: usize)
    ensures
        r == node_model(*node).named_child_count,
{
    node.named_child_count()
}

/// `tree_sitter::Node::child_by_field_name`: the byte range of the first node that
/// the field names, if there is one.
#[verifier::external_body]
fn node_field_range(node: &Node<'_>, field: &str) -> (r: Option<(usize, usize)>)
    ensures
        match r {
            Some((start, end)) => node_model(*node).fields.contains_key(field@) && node_model(
                *node,
            ).fields[field@] == (start as int, end as int),
            None => !node_model(*node).fields.contains_key(field@),
        },
{
    node.child_by_field_name(field).map(|child| (child.start_byte(), child.end_byte()))
}

/// `tree_sitter::Node::child_count`: the number of children, which are the nodes
/// that `tree_sitter::Node::child` gives.
#[verifier::external_body]
fn node_child_count(node: &Node<'_>) -> (r: usize)
    ensures
        r == node_model(*node).children.len(),
{
    node.child_count()
}

/// `tree_sitter::Node::child`: the child with a given number, counted from zero.
#[verifier::external_body]
fn node_child<'tree>(node: &Node<'tree>, i: usize) -> (r: Option<Node<'tree>>)
    requires
        i < node_model(*node).children.len(),
    ensures
        r is Some,
        node_model(r->0) == node_model(*node).children[i as int],
{
    node.child(i)
}

// ---------------------------------------------------------------------------
// Plain trees
// ---------------------------------------------------------------------------
/// A node of a syntax tree.
#[derive(Debug)]
pub struct SyntaxNode {
    pub kind: String,
    pub is_named: bool,
    pub is_error: bool,
    pub is_missing: bool,
    /// Where the node starts, in bytes.
    pub start_byte: usize,
    /// Where the node ends, in bytes.
    pub end_byte: usize,
    /// The line where the node starts, from zero on.
    pub row: usize,
    /// The column where the node starts, from zero on.
    pub column: usize,
    pub named_child_count: usize,
    /// The byte ranges of the nodes in the name fields, in the order of these
    /// fields.
    pub names: Vec<Option<(usize, usize)>>,
    pub children: Vec<SyntaxNode>,
}

/// What a syntax node holds.
#[verifier::ext_equal]
pub ghost struct SyntaxModel {
    pub kind: Seq<char>,
    pub is_named: bool,
    pub is_error: bool,
    pub is_missing: bool,
    pub start_byte: int,
    pub end_byte: int,
    pub row: int,
    pub column: int,
    pub named_child_count: int,
    pub names: Seq<Option<(int, int)>>,
    pub children: Seq<SyntaxModel>,
}

/// A byte range without its machine type.
pub open spec fn range_model(range: Option<(usize, usize)>) -> Option<(int, int)> {
    match range {
        Some((start, end)) => Some((start as int, end as int)),
        None => None,
    }
}

pub open spec fn range_models(ranges: Seq<Option<(usize, usize)>>) -> Seq<Option<(int, int)>> {
    Seq::new(ranges.len(), |i: int| range_model(ranges[i]))
}

/// What a syntax node holds.
pub open spec fn syntax_model(node: SyntaxNode) -> SyntaxModel
    decreases node,
{
    SyntaxModel {
        kind: node.kind@,
        is_named: node.is_named,
        is_error: node.is_error,
        is_missing: node.is_missing,
        start_byte: node.start_byte as int,
        end_byte: node.end_byte as int,
        row: node.row as int,
        column: node.column as int,
        named_child_count: node.named_child_count as int,
        names: range_models(node.names@),
        children: Seq::new(
            node.children@.len(),
            |i: int|
                if 0 <= i < node.children@.len() {
                    syntax_model(node.children@[i])
                } else {
                    arbitrary()
                },
        ),
    }
}

/// The number of name fields.
pub const NAME_FIELD_COUNT: usize = 10;

/// The fields that hold the name of what a node declares: those of all grammars
/// first, then those of Rust, of JavaScript and TypeScript, and general ones.
pub open spec fn name_field(k: int) -> Seq<char> {
    if k == 0 {
        "name"@
    } else if k == 1 {
        "identifier"@
    } else if k == 2 {
        "declarator"@
    } else if k == 3 {
        "type"@
    } else if k == 4 {
        "pattern"@
    } else if k == 5 {
        "property_identifier"@
    } else if k == 6 {
        "shorthand_property_identifier"@
    } else if k == 7 {
        "type_identifier"@
    } else if k == 8 {
        "left"@
    } else {
        "binding"@
    }
}

fn name_field_text(k: usize) -> (r: &'static str)
    ensures
        r@ == name_field(k as int),
{
    match k {
        0 => "name",
        1 => "identifier",
        2 => "declarator",
        3 => "type",
        4 => "pattern",
        5 => "property_identifier",
        6 => "shorthand_property_identifier",
        7 => "type_identifier",
        8 => "left",
        _ => "binding",
    }
}

/// The byte range that a field names.
pub open spec fn field_range(fields: Map<Seq<char>, (int, int)>, field: Seq<char>) -> Option<
    (int, int),
> {
    if fields.contains_key(field) {
        Some(fields[field])
    } else {
        None
    }
}

/// The byte ranges in the name fields.
pub open spec fn name_ranges(fields: Map<Seq<char>, (int, int)>) -> Seq<Option<(int, int)>> {
    Seq::new(NAME_FIELD_COUNT as nat, |k: int| field_range(fields, name_field(k)))
}

/// What the library reads of a tree-sitter node.
pub open spec fn plain_model(node: NodeModel) -> SyntaxModel
    decreases node,
{
    SyntaxModel {
        kind: node.kind,
        is_named: node.is_named,
        is_error: node.is_error,
        is_missing: node.is_missing,
        start_byte: node.start_byte,
        end_byte: node.end_byte,
        row: node.row,
        column: node.column,
        named_child_count: node.named_child_count,
        names: name_ranges(node.fields),
        children: Seq::new(
            node.children.len(),
            |i: int|
                if 0 <= i < node.children.len() {
                    plain_model(node.children[i])
                } else {
                    arbitrary()
                },
        ),
    }
}

fn read_names(node: &Node<'_>) -> (r: Vec<Option<(usize, usize)>>)
    ensures
        range_models(r@) == name_ranges(node_model(*node).fields),
{
    let mut out: Vec<Option<(usize, usize)>> = Vec::new();
    let ghost all = name_ranges(node_model(*node).fields);
    let mut k: usize = 0;
    while k < NAME_FIELD_COUNT
        invariant
            k <= NAME_FIELD_COUNT,
            all == name_ranges(node_model(*node).fields),
            range_models(out@) == all.take(k as int),
        decreases NAME_FIELD_COUNT - k,
    {
        let range: Option<(usize, usize)> = node_field_range(node, name_field_text(k));
        let ghost before = out@;
        out.push(range);
        assert(range_models(out@) =~= range_models(before).push(range_model(range)));
        assert(range_model(range) == all[k as int]);
        k += 1;
        assert(range_models(out@) =~= all.take(k as int));
    }
    assert(all.take(NAME_FIELD_COUNT as int) =~= all);
    out
}

fn read_node(node: &Node<'_>) -> (r: SyntaxNode)
    ensures
        syntax_model(r) == plain_model(node_model(*node)),
    decreases node_model(*node),
{
    let ghost m = node_model(*node);
    let mut children: Vec<SyntaxNode> = Vec::new();
    let n: usize = node_child_count(node);
    let mut i: usize = 0;
    while i < n
        invariant
            m == node_model(*node),
            n == m.children.len(),
            children@.len() == i <= n,
            forall|k: int|
                0 <= k < i ==> syntax_model(#[trigger] children@[k]) == plain_model(m.children[k]),
        decreases n - i,
    {
        match node_child(node, i) {
            Some(child) => {
                children.push(read_node(&child));
            },
            None => {},
        }
        i += 1;
    }
    let (row, column) = node_start_position(node);
    let r: SyntaxNode = SyntaxNode {
        kind: node_kind(node),
        is_named: node_is_named(node),
        is_error: node_is_error(node),
        is_missing: node_is_missing(node),
        start_byte: node_start_byte(node),
        end_byte: node_end_byte(node),
        row,
        column,
        named_child_count: node_named_child_count(node),
        names: read_names(node),
        children,
    };
    assert(syntax_model(r).children =~= plain_model(m).children);
    r
}

/// The syntax tree of a text in a language.
pub open spec fn syntax_tree(source: Seq<char>, language: SupportedLanguage) -> Option<
    SyntaxModel,
> {
    let tree = match language {
        SupportedLanguage::Rust => rust_tree(source),
        SupportedLanguage::Python => python_tree(source),
        SupportedLanguage::JavaScript => javascript_tree(source),
        SupportedLanguage::TypeScript => typescript_tree(source),
        SupportedLanguage::TypeScriptTsx => tsx_tree(source),
        SupportedLanguage::Unknown => None,
    };
    match tree {
        Some(root) => Some(plain_model(root)),
        None => None,
    }
}

/// Parses a text with the grammar of a language.
pub fn parse_source(source: &str, language: SupportedLanguage) -> (r: Option<SyntaxNode>)
    ensures
        match r {
            Some(root) => syntax_tree(source@, language) == Some(syntax_model(root)),
            None => syntax_tree(source@, language) is None,
        },
{
    let tree: Option<Tree> = match language {
        SupportedLanguage::Rust => parse_rust(source),
        SupportedLanguage::Python => parse_python(source),
        SupportedLanguage::JavaScript => parse_javascript(source),
        SupportedLanguage::TypeScript => parse_typescript(source),
        SupportedLanguage::TypeScriptTsx => parse_tsx(source),
        SupportedLanguage::Unknown => None,
    };
    match tree {
        Some(tree) => Some(read_node(&root_node(&tree))),
        None => None,
    }
}

} // verus!
