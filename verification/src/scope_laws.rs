//! Which name a line of a patch stands for, and which lines of a file that name covers.
use vstd::prelude::*;
use vstd::utf8::encode_utf8;

use crate::anchor_finder::{
    feeds_before, has_name, indent_scope, is_named_as, law_block_ends_where_indentation_returns,
    law_line_is_number_of_feeds, law_nearest_line_with_the_name_is_chosen,
    law_nearest_named_node_is_chosen, lemma_starts, line_starts_of, named_below, named_nodes,
    nearer, nearest, node_scope, plain_symbol, scope_with_symbol, symbol_line, FinderModel,
};
use crate::bytes::{byte_len, byte_slice};
use crate::indent::columns;
use crate::lines::line_seq;
use crate::parse_laws::lemma_tight_text;
use crate::symbols::{
    alphabetic, best_symbol, better_symbol, cleaned, declared_symbol, deeper, first_identifier,
    identifier_below, is_identifier, is_symbol, last_symbol, law_best_symbol_is_chosen,
    name_from, name_text, run_start, symbol_at, symbol_char, symbol_score, symbols_below,
    symbols_in, SymbolModel,
};
use crate::syntax_guard::in_tree;
use crate::syntax_tree::SyntaxModel;
use crate::text::{
    contains_text, has_prefix, is_blank_text, is_white, lemma_trimmed_end, skip_white, trimmed,
    trimmed_start,
};

verus! {

// ---------------------------------------------------------------------------
// Words
// ---------------------------------------------------------------------------
/// A word stands from `a` to `b`: letters, digits and underscores, and none beside it.
pub open spec fn is_word(s: Seq<char>, a: int, b: int) -> bool {
    &&& 0 <= a < b <= s.len()
    &&& forall|i: int| a <= i < b ==> symbol_char(#[trigger] s[i])
    &&& a > 0 ==> !symbol_char(s[a - 1])
    &&& b < s.len() ==> !symbol_char(s[b])
}

/// A word that can be a name: it holds a letter and more than one byte.
pub open spec fn can_be_name(word: Seq<char>) -> bool {
    &&& byte_len(word) > 1
    &&& exists|i: int| 0 <= i < word.len() && alphabetic(#[trigger] word[i])
}

proof fn lemma_run(s: Seq<char>, n: int)
    requires
        0 <= n <= s.len(),
    ensures
        0 <= run_start(s, n) <= n,
        forall|i: int| run_start(s, n) <= i < n ==> symbol_char(#[trigger] s[i]),
        run_start(s, n) > 0 ==> !symbol_char(s[run_start(s, n) - 1]),
    decreases n,
{
    if n > 0 && symbol_char(s[n - 1]) {
        lemma_run(s, n - 1);
    }
}

proof fn lemma_last_word(s: Seq<char>, n: int) -> (place: (int, int))
    requires
        0 <= n <= s.len(),
        n < s.len() ==> n == 0 || !symbol_char(s[n]) || !symbol_char(s[n - 1]),
    ensures
        match last_symbol(s, n) {
            Some(word) => {
                let (a, b) = place;
                &&& is_word(s, a, b) && b <= n
                &&& word == s.subrange(a, b)
                &&& can_be_name(word)
                &&& forall|c: int, d: int|
                    b <= c && d <= n && #[trigger] is_word(s, c, d) ==> !can_be_name(
                        s.subrange(c, d),
                    )
            },
            None => forall|c: int, d: int|
                d <= n && #[trigger] is_word(s, c, d) ==> !can_be_name(s.subrange(c, d)),
        },
    decreases n,
{
    lemma_run(s, n);
    let start = run_start(s, n);
    if n <= 0 {
        (0, 0)
    } else if start == n {
        let place = lemma_last_word(s, n - 1);
        assert forall|c: int, d: int| d <= n && #[trigger] is_word(s, c, d) implies d <= n - 1 by {
            if d == n {
                assert(symbol_char(s[n - 1]));
            }
        }
        place
    } else {
        assert(symbol_char(s[n - 1]));
        assert(is_word(s, start, n));
        assert(is_symbol(s.subrange(start, n)) <==> can_be_name(s.subrange(start, n)));
        assert forall|c: int, d: int| d <= n && #[trigger] is_word(s, c, d) && d > start implies c
            == start && d == n by {
            if d < n {
                assert(symbol_char(s[d]));
            }
            if c < start {
                assert(symbol_char(s[start - 1]));
            }
            if c > start {
                assert(symbol_char(s[c - 1]));
            }
        }
        if is_symbol(s.subrange(start, n)) {
            (start, n)
        } else {
            let place = lemma_last_word(s, start);
            place
        }
    }
}

/// The name that is read off a line without a grammar is its last word that can be one: it
/// stands in the line, and no word behind it can be a name; and there is one wherever a
/// word can be a name.
pub proof fn law_last_name_is_taken(line: Seq<char>) -> (place: (int, int))
    ensures
        match last_symbol(line, line.len() as int) {
            Some(word) => {
                let (a, b) = place;
                &&& is_word(line, a, b)
                &&& word == line.subrange(a, b)
                &&& can_be_name(word)
                &&& forall|c: int, d: int|
                    b <= c && #[trigger] is_word(line, c, d) ==> !can_be_name(line.subrange(c, d))
            },
            None => forall|c: int, d: int| #[trigger]
                is_word(line, c, d) ==> !can_be_name(line.subrange(c, d)),
        },
{
    lemma_last_word(line, line.len() as int)
}

proof fn lemma_space_before(code: Seq<char>)
    requires
        code.len() > 0,
        !is_white(code[0]),
        !is_white(code.last()),
    ensures
        trimmed(seq![' '] + code) == code,
{
    let s = seq![' '] + code;
    assert(s[0] == ' ');
    assert(s[1] == code[0]);
    assert(skip_white(s, 1) == 1);
    assert(skip_white(s, 0) == 1);
    assert(trimmed_start(s) =~= code);
    lemma_trimmed_end(code);
}

/// A line of code is taken out of what a patch puts before it: the mark of a context, with
/// or without a space, or the sign of an added or a removed line.
pub proof fn law_code_is_taken_out_of_its_marks(code: Seq<char>)
    requires
        code.len() > 0,
        !is_white(code[0]),
        !is_white(code.last()),
        code[0] != '@' && code[0] != '+' && code[0] != '-' && code[0] != '=',
    ensures
        cleaned(code) == code,
        cleaned(seq!['@', '@'] + code) == code,
        cleaned(seq!['@', '@', ' '] + code) == code,
        cleaned(seq!['+'] + code) == code,
        cleaned(seq!['-'] + code) == code,
        cleaned(seq![' '] + code) == code,
        cleaned(seq!['@', '@', ' ', '+'] + code) == code,
{
    reveal_strlit("@@");
    lemma_tight_text(code);
    lemma_space_before(code);
    if has_prefix(code, "@@"@) {
        assert(code.subrange(0, 2)[0] == code[0]);
    }
    let at = seq!['@', '@'] + code;
    lemma_tight_text(at);
    assert(at.subrange(0, 2) =~= "@@"@);
    assert(at.skip(2) =~= code);
    let at_space = seq!['@', '@', ' '] + code;
    lemma_tight_text(at_space);
    assert(at_space.subrange(0, 2) =~= "@@"@);
    assert(at_space.skip(2) =~= seq![' '] + code);
    let added = seq!['+'] + code;
    lemma_tight_text(added);
    if has_prefix(added, "@@"@) {
        assert(added.subrange(0, 2)[0] == added[0]);
    }
    assert(added.skip(1) =~= code);
    assert(added[1] == code[0]);
    let removed = seq!['-'] + code;
    lemma_tight_text(removed);
    if has_prefix(removed, "@@"@) {
        assert(removed.subrange(0, 2)[0] == removed[0]);
    }
    assert(removed.skip(1) =~= code);
    assert(removed[1] == code[0]);
    let both = seq!['@', '@', ' ', '+'] + code;
    lemma_tight_text(both);
    assert(both.subrange(0, 2) =~= "@@"@);
    assert(both.skip(2) =~= seq![' '] + added);
    lemma_space_before(added);
}

// ---------------------------------------------------------------------------
// Nodes that carry a name
// ---------------------------------------------------------------------------
/// Some name field of the node holds the text.
pub open spec fn carries(node: SyntaxModel, source: Seq<char>, name: Seq<char>) -> bool {
    exists|k: int|
        0 <= k < node.names.len() && (#[trigger] node.names[k] matches Some((start, end))
            && byte_slice(source, start, end) == Some(name))
}

proof fn lemma_carries(node: SyntaxModel, source: Seq<char>, name: Seq<char>, n: int)
    requires
        0 <= n <= node.names.len(),
    ensures
        has_name(node, source, name, n) <==> exists|k: int|
            0 <= k < n && (#[trigger] node.names[k] matches Some((start, end)) && byte_slice(
                source,
                start,
                end,
            ) == Some(name)),
    decreases n,
{
    if n > 0 {
        lemma_carries(node, source, name, n - 1);
    }
}

/// The node lies in the tree, and none of those above it carries the name.
pub open spec fn is_reached(
    root: SyntaxModel,
    node: SyntaxModel,
    source: Seq<char>,
    name: Seq<char>,
) -> bool
    decreases root,
{
    root == node || (!carries(root, source, name) && exists|i: int|
        0 <= i < root.children.len() && is_reached(
            #[trigger] root.children[i],
            node,
            source,
            name,
        ))
}

proof fn lemma_found(root: SyntaxModel, source: Seq<char>, name: Seq<char>, node: SyntaxModel)
    ensures
        named_nodes(root, source, name).contains(node) <==> is_reached(root, node, source, name)
            && carries(node, source, name),
    decreases root, root.children.len() + 1,
{
    lemma_carries(root, source, name, root.names.len() as int);
    if is_named_as(root, source, name) {
        let one = seq![root];
        assert(one[0] == root);
        assert(one.contains(root));
    } else {
        lemma_found_below(root, source, name, node, root.children.len() as int);
    }
}

proof fn lemma_found_below(
    root: SyntaxModel,
    source: Seq<char>,
    name: Seq<char>,
    node: SyntaxModel,
    n: int,
)
    requires
        0 <= n <= root.children.len(),
    ensures
        named_below(root, source, name, n).contains(node) <==> (exists|i: int|
            0 <= i < n && is_reached(#[trigger] root.children[i], node, source, name)) && carries(
            node,
            source,
            name,
        ),
    decreases root, n,
{
    if n > 0 {
        let last = named_nodes(root.children[n - 1], source, name);
        let rest = named_below(root, source, name, n - 1);
        lemma_found(root.children[n - 1], source, name, node);
        lemma_found_below(root, source, name, node, n - 1);
        lemma_contains(last, rest, node);
    }
}

proof fn lemma_contains<A>(a: Seq<A>, b: Seq<A>, x: A)
    ensures
        (a + b).contains(x) <==> a.contains(x) || b.contains(x),
{
    let all = a + b;
    if all.contains(x) {
        let i = choose|i: int| 0 <= i < all.len() && all[i] == x;
        if i < a.len() {
            assert(a[i] == x);
        } else {
            assert(b[i - a.len()] == x);
        }
    }
    if a.contains(x) {
        let i = choose|i: int| 0 <= i < a.len() && a[i] == x;
        assert(all[i] == x);
    }
    if b.contains(x) {
        let i = choose|i: int| 0 <= i < b.len() && b[i] == x;
        assert(all[a.len() + i] == x);
    }
}

/// The nodes that are looked at for a name are those that carry it and lie below no other
/// one that does.
pub proof fn law_outermost_nodes_with_the_name_are_found(
    root: SyntaxModel,
    source: Seq<char>,
    name: Seq<char>,
)
    ensures
        forall|node: SyntaxModel| #[trigger]
            named_nodes(root, source, name).contains(node) <==> is_reached(
                root,
                node,
                source,
                name,
            ) && carries(node, source, name),
{
    assert forall|node: SyntaxModel| #[trigger]
        named_nodes(root, source, name).contains(node) <==> is_reached(root, node, source, name)
            && carries(node, source, name) by {
        lemma_found(root, source, name, node);
    }
}

/// Below a node that lies in the tree there is one that is reached, or it is reached itself.
proof fn lemma_some_is_reached(
    root: SyntaxModel,
    node: SyntaxModel,
    source: Seq<char>,
    name: Seq<char>,
) -> (top: SyntaxModel)
    requires
        in_tree(root, node),
        carries(node, source, name),
    ensures
        is_reached(root, top, source, name),
        carries(top, source, name),
        in_tree(top, node),
    decreases root,
{
    if carries(root, source, name) || root == node {
        root
    } else {
        let i = choose|i: int|
            0 <= i < root.children.len() && in_tree(#[trigger] root.children[i], node);
        let top = lemma_some_is_reached(root.children[i], node, source, name);
        assert(is_reached(root.children[i], top, source, name));
        top
    }
}

/// A node that carries the name is found, or lies below one that is.
pub proof fn law_node_with_the_name_is_found(
    root: SyntaxModel,
    node: SyntaxModel,
    source: Seq<char>,
    name: Seq<char>,
) -> (top: SyntaxModel)
    requires
        in_tree(root, node),
        carries(node, source, name),
    ensures
        named_nodes(root, source, name).contains(top),
        in_tree(top, node),
{
    let top = lemma_some_is_reached(root, node, source, name);
    lemma_found(root, source, name, top);
    top
}

/// The number of lines between a node and a line.
pub open spec fn lines_away(node: SyntaxModel, source: Seq<char>, line: int) -> int {
    let own = feeds_before(encode_utf8(source), node.start_byte);
    if own <= line {
        line - own
    } else {
        own - line
    }
}

pub open spec fn lies_in(node: SyntaxModel, source: Seq<char>) -> bool {
    0 <= node.start_byte <= node.end_byte <= encode_utf8(source).len()
}

/// Of the nodes found, none starts in a line nearer to the hinted one than the node that is
/// chosen, and none that is as near, or none at all without a hint, is shorter.
pub proof fn law_chosen_node_is_nearest(
    root: SyntaxModel,
    source: Seq<char>,
    name: Seq<char>,
    hint: Option<int>,
    other: SyntaxModel,
)
    requires
        is_reached(root, other, source, name),
        carries(other, source, name),
        forall|node: SyntaxModel| #[trigger] in_tree(root, node) ==> lies_in(node, source),
        in_tree(root, other),
    ensures
        ({
            let best = nearest(
                None,
                named_nodes(root, source, name),
                hint,
                line_starts_of(source),
            );
            &&& best is Some
            &&& is_reached(root, best->0, source, name) && carries(best->0, source, name)
            &&& match hint {
                Some(line) => {
                    let d = lines_away(best->0, source, line);
                    let e = lines_away(other, source, line);
                    d < e || (d == e && best->0.end_byte - best->0.start_byte <= other.end_byte
                        - other.start_byte)
                },
                None => best->0.end_byte - best->0.start_byte <= other.end_byte - other.start_byte,
            }
        }),
{
    let list = named_nodes(root, source, name);
    let starts = line_starts_of(source);
    law_nearest_named_node_is_chosen(root, source, name, hint, starts);
    lemma_found(root, source, name, other);
    let best = nearest(None, list, hint, starts)->0;
    lemma_found(root, source, name, best);
    lemma_reached_in_tree(root, best, source, name);
    let i = choose|i: int| 0 <= i < list.len() && list[i] == other;
    assert(!nearer(list[i], best, hint, starts));
    law_line_is_number_of_feeds(source, best.start_byte);
    law_line_is_number_of_feeds(source, other.start_byte);
    lemma_starts(encode_utf8(source), encode_utf8(source).len() as int);
}

proof fn lemma_reached_in_tree(
    root: SyntaxModel,
    node: SyntaxModel,
    source: Seq<char>,
    name: Seq<char>,
)
    requires
        is_reached(root, node, source, name),
    ensures
        in_tree(root, node),
    decreases root,
{
    if root != node {
        let i = choose|i: int|
            0 <= i < root.children.len() && is_reached(
                #[trigger] root.children[i],
                node,
                source,
                name,
            );
        lemma_reached_in_tree(root.children[i], node, source, name);
    }
}

// ---------------------------------------------------------------------------
// Scopes
// ---------------------------------------------------------------------------
proof fn lemma_more_feeds(bytes: Seq<u8>, a: int, b: int)
    requires
        a <= b,
    ensures
        feeds_before(bytes, a) <= feeds_before(bytes, b),
    decreases b - a,
{
    if a < b {
        lemma_more_feeds(bytes, a, b - 1);
    }
}

/// The scope of a node reaches from the line of its first byte to the line of its last one,
/// and starts in the column of the node; it ends with the file at the latest, and a node
/// behind the end of the file has none.
pub proof fn law_scope_covers_the_node(finder: FinderModel, node: SyntaxModel)
    requires
        lies_in(node, finder.source),
        node.start_byte < node.end_byte,
        finder.line_count >= 0,
    ensures
        ({
            let bytes = encode_utf8(finder.source);
            let first = feeds_before(bytes, node.start_byte);
            let last = feeds_before(bytes, node.end_byte - 1);
            match node_scope(finder, node) {
                None => first >= finder.line_count,
                Some(scope) => {
                    &&& first < finder.line_count
                    &&& scope.start_line == first
                    &&& scope.start_column == node.column
                    &&& last < finder.line_count ==> scope.end_line == last
                    &&& last >= finder.line_count ==> scope.end_line == finder.line_count - 1
                },
            }
        }),
{
    let bytes = encode_utf8(finder.source);
    law_line_is_number_of_feeds(finder.source, node.start_byte);
    law_line_is_number_of_feeds(finder.source, node.end_byte - 1);
    lemma_more_feeds(bytes, node.start_byte, node.end_byte - 1);
}

/// The scope by indentation alone starts with a line that holds the name, in the column
/// where that line starts, and covers the lines behind it that are blank or stand deeper,
/// and no others; and there is one wherever a line holds the name.
pub proof fn law_scope_by_indentation_is_a_block(
    finder: FinderModel,
    name: Seq<char>,
    hint: Option<int>,
)
    requires
        finder.line_count == line_seq(finder.source).len(),
    ensures
        ({
            let lines = line_seq(finder.source);
            match indent_scope(finder, Some(name), hint) {
                None => forall|i: int|
                    0 <= i < lines.len() ==> !contains_text(#[trigger] lines[i], name),
                Some(scope) => {
                    let depth = columns(lines[scope.start_line], 4);
                    &&& 0 <= scope.start_line <= scope.end_line < lines.len()
                    &&& contains_text(lines[scope.start_line], name)
                    &&& depth <= usize::MAX ==> scope.start_column == depth
                    &&& forall|i: int|
                        scope.start_line < i <= scope.end_line ==> is_blank_text(
                            #[trigger] lines[i],
                        ) || columns(lines[i], 4) > depth
                    &&& scope.end_line + 1 < lines.len() ==> !is_blank_text(
                        lines[scope.end_line + 1],
                    ) && columns(lines[scope.end_line + 1], 4) <= depth
                    &&& hint is None ==> forall|i: int|
                        0 <= i < scope.start_line ==> !contains_text(#[trigger] lines[i], name)
                    &&& hint matches Some(line) ==> forall|i: int|
                        0 <= i < lines.len() && contains_text(#[trigger] lines[i], name) ==> (if
                        scope.start_line <= line {
                            line - scope.start_line
                        } else {
                            scope.start_line - line
                        }) <= (if i <= line {
                            line - i
                        } else {
                            i - line
                        })
                },
            }
        }),
{
    let lines = line_seq(finder.source);
    law_nearest_line_with_the_name_is_chosen(lines, name, hint, lines.len() as int);
    match symbol_line(lines, name, hint, lines.len() as int) {
        None => {},
        Some(start) => {
            law_block_ends_where_indentation_returns(
                lines,
                columns(lines[start], 4) as int,
                start + 1,
            );
        },
    }
}

/// A line that a patch names by a symbol of the tree has the scope of the node that is
/// chosen for that symbol; a blank line has no scope; and where there is no tree, no symbol
/// or no node, indentation alone decides.
pub proof fn law_scope_goes_by_the_tree_first(
    finder: FinderModel,
    context: Seq<char>,
    symbol: Option<Seq<char>>,
    hint: Option<int>,
)
    ensures
        is_blank_text(context) ==> scope_with_symbol(finder, context, symbol, hint) is None,
        !is_blank_text(context) && (finder.tree is None || symbol is None) ==> scope_with_symbol(
            finder,
            context,
            symbol,
            hint,
        ) == indent_scope(finder, plain_symbol(context), hint),
        forall|node: SyntaxModel|
            !is_blank_text(context) && finder.tree is Some && symbol is Some && #[trigger] in_tree(
                finder.tree->0,
                node,
            ) && carries(node, finder.source, symbol->0) ==> exists|chosen: SyntaxModel|
                {
                    &&& is_reached(finder.tree->0, chosen, finder.source, symbol->0)
                    &&& carries(chosen, finder.source, symbol->0)
                    &&& scope_with_symbol(finder, context, symbol, hint) == #[trigger] node_scope(
                        finder,
                        chosen,
                    )
                },
{
    assert forall|node: SyntaxModel|
        !is_blank_text(context) && finder.tree is Some && symbol is Some && #[trigger] in_tree(
            finder.tree->0,
            node,
        ) && carries(node, finder.source, symbol->0) implies exists|chosen: SyntaxModel|
        {
            &&& is_reached(finder.tree->0, chosen, finder.source, symbol->0)
            &&& carries(chosen, finder.source, symbol->0)
            &&& scope_with_symbol(finder, context, symbol, hint) == #[trigger] node_scope(
                finder,
                chosen,
            )
        } by {
        let root = finder.tree->0;
        let name = symbol->0;
        let starts = line_starts_of(finder.source);
        let top = law_node_with_the_name_is_found(root, node, finder.source, name);
        law_nearest_named_node_is_chosen(root, finder.source, name, hint, starts);
        let chosen = nearest(None, named_nodes(root, finder.source, name), hint, starts)->0;
        lemma_found(root, finder.source, name, chosen);
        assert(scope_with_symbol(finder, context, symbol, hint) == node_scope(finder, chosen));
    }
}

// ---------------------------------------------------------------------------
// The name that a tree declares
// ---------------------------------------------------------------------------
/// The text in a name field of the node, if it is more than white space.
pub open spec fn holds_text(node: SyntaxModel, source: Seq<char>, k: int, text: Seq<char>) -> bool {
    &&& 0 <= k < node.names.len()
    &&& node.names[k] matches Some((start, end)) && (byte_slice(source, start, end) matches Some(
        whole,
    ) && trimmed(whole) == text)
    &&& text.len() > 0
}

/// The node declares the name: its first name field with a text holds it.
pub open spec fn declares(node: SyntaxModel, source: Seq<char>, name: Seq<char>) -> bool {
    exists|k: int|
        {
            &&& #[trigger] holds_text(node, source, k, name)
            &&& forall|j: int, text: Seq<char>|
                0 <= j < k ==> !#[trigger] holds_text(node, source, j, text)
        }
}

proof fn lemma_name_text(node: SyntaxModel, source: Seq<char>, k: int, text: Seq<char>)
    ensures
        holds_text(node, source, k, text) <==> name_text(node, source, k) == Some(text),
{
}

proof fn lemma_name_from(node: SyntaxModel, source: Seq<char>, n: int, name: Seq<char>)
    requires
        0 <= n <= node.names.len(),
        forall|j: int, text: Seq<char>|
            0 <= j < n ==> !#[trigger] holds_text(node, source, j, text),
    ensures
        name_from(node, source, n) == Some(name) <==> declares(node, source, name),
    decreases node.names.len() - n,
{
    if n < node.names.len() {
        if name_text(node, source, n) is Some {
            let own = name_text(node, source, n)->0;
            lemma_name_text(node, source, n, own);
            if declares(node, source, name) {
                let k = choose|k: int|
                    {
                        &&& #[trigger] holds_text(node, source, k, name)
                        &&& forall|j: int, text: Seq<char>|
                            0 <= j < k ==> !#[trigger] holds_text(node, source, j, text)
                    };
                assert(k == n);
                lemma_name_text(node, source, n, name);
            }
        } else {
            assert forall|j: int, text: Seq<char>| 0 <= j < n + 1 implies !#[trigger] holds_text(
                node,
                source,
                j,
                text,
            ) by {
                lemma_name_text(node, source, j, text);
            }
            lemma_name_from(node, source, n + 1, name);
        }
    }
}

/// The symbol stands for the node: it has its name and its place.
pub open spec fn stands_for(symbol: SymbolModel, node: SyntaxModel, source: Seq<char>) -> bool {
    &&& declares(node, source, symbol.name)
    &&& symbol.start == node.start_byte
    &&& node.end_byte >= node.start_byte ==> symbol.span == node.end_byte - node.start_byte
    &&& symbol.score == symbol_score(node, source, symbol.name)
}

/// Some symbol of the list stands for the node.
pub open spec fn is_listed(list: Seq<SymbolModel>, node: SyntaxModel, source: Seq<char>) -> bool {
    exists|i: int| 0 <= i < list.len() && stands_for(#[trigger] list[i], node, source)
}

proof fn lemma_listed_add(
    a: Seq<SymbolModel>,
    b: Seq<SymbolModel>,
    node: SyntaxModel,
    source: Seq<char>,
)
    ensures
        is_listed(a, node, source) || is_listed(b, node, source) ==> is_listed(
            a + b,
            node,
            source,
        ),
{
    let all = a + b;
    if is_listed(a, node, source) {
        let i = choose|i: int| 0 <= i < a.len() && stands_for(#[trigger] a[i], node, source);
        assert(all[i] == a[i]);
    } else if is_listed(b, node, source) {
        let i = choose|i: int| 0 <= i < b.len() && stands_for(#[trigger] b[i], node, source);
        assert(all[a.len() + i] == b[i]);
    }
}

proof fn lemma_node_is_listed(
    root: SyntaxModel,
    source: Seq<char>,
    depth: int,
    node: SyntaxModel,
    name: Seq<char>,
)
    requires
        in_tree(root, node),
        declares(node, source, name),
    ensures
        is_listed(symbols_in(root, source, depth), node, source),
    decreases root, root.children.len() + 1,
{
    let below = symbols_below(root, source, depth, root.children.len() as int);
    if root == node {
        lemma_name_from(root, source, 0, name);
        let symbol = symbol_at(root, source, depth)->0;
        let one = seq![symbol];
        assert(stands_for(one[0], node, source));
        lemma_listed_add(one, below, node, source);
    } else {
        let i = choose|i: int|
            0 <= i < root.children.len() && in_tree(#[trigger] root.children[i], node);
        lemma_node_is_listed_below(
            root,
            source,
            depth,
            node,
            name,
            i,
            root.children.len() as int,
        );
        match symbol_at(root, source, depth) {
            Some(symbol) => {
                lemma_listed_add(seq![symbol], below, node, source);
            },
            None => {},
        }
    }
}

proof fn lemma_node_is_listed_below(
    root: SyntaxModel,
    source: Seq<char>,
    depth: int,
    node: SyntaxModel,
    name: Seq<char>,
    i: int,
    n: int,
)
    requires
        0 <= i < n <= root.children.len(),
        in_tree(root.children[i], node),
        declares(node, source, name),
    ensures
        is_listed(symbols_below(root, source, depth, n), node, source),
    decreases root, n,
{
    let deeper = deeper(depth);
    let last = symbols_in(root.children[n - 1], source, deeper);
    let rest = symbols_below(root, source, depth, n - 1);
    if i == n - 1 {
        lemma_node_is_listed(root.children[i], source, deeper, node, name);
    } else {
        lemma_node_is_listed_below(root, source, depth, node, name, i, n - 1);
    }
    lemma_listed_add(last, rest, node, source);
}

proof fn lemma_symbol_has_node(
    root: SyntaxModel,
    source: Seq<char>,
    depth: int,
    k: int,
) -> (node: SyntaxModel)
    requires
        0 <= k < symbols_in(root, source, depth).len(),
    ensures
        in_tree(root, node),
        stands_for(symbols_in(root, source, depth)[k], node, source),
    decreases root, root.children.len() + 1,
{
    let n = root.children.len() as int;
    let below = symbols_below(root, source, depth, n);
    match symbol_at(root, source, depth) {
        Some(symbol) => {
            if k == 0 {
                lemma_name_from(root, source, 0, symbol.name);
                root
            } else {
                assert(symbols_in(root, source, depth)[k] == below[k - 1]);
                let (i, node) = lemma_symbol_has_node_below(root, source, depth, n, k - 1);
                assert(in_tree(root.children[i], node));
                node
            }
        },
        None => {
            let (i, node) = lemma_symbol_has_node_below(root, source, depth, n, k);
            assert(in_tree(root.children[i], node));
            node
        },
    }
}

proof fn lemma_symbol_has_node_below(
    root: SyntaxModel,
    source: Seq<char>,
    depth: int,
    n: int,
    k: int,
) -> (found: (int, SyntaxModel))
    requires
        0 <= n <= root.children.len(),
        0 <= k < symbols_below(root, source, depth, n).len(),
    ensures
        0 <= found.0 < n,
        in_tree(root.children[found.0], found.1),
        stands_for(symbols_below(root, source, depth, n)[k], found.1, source),
    decreases root, n,
{
    let deeper = deeper(depth);
    let last = symbols_in(root.children[n - 1], source, deeper);
    let rest = symbols_below(root, source, depth, n - 1);
    assert(symbols_below(root, source, depth, n) == last + rest);
    if k < last.len() {
        assert((last + rest)[k] == last[k]);
        (n - 1, lemma_symbol_has_node(root.children[n - 1], source, deeper, k))
    } else {
        assert((last + rest)[k] == rest[k - last.len()]);
        lemma_symbol_has_node_below(root, source, depth, n - 1, k - last.len())
    }
}

/// The name that a tree declares is the name of one of its nodes, and no node with a name
/// scores higher.
pub proof fn law_name_that_scores_highest_is_declared(
    root: SyntaxModel,
    source: Seq<char>,
    node: SyntaxModel,
    name: Seq<char>,
) -> (chosen: SyntaxModel)
    requires
        in_tree(root, node),
        declares(node, source, name),
    ensures
        declared_symbol(root, source) is Some,
        in_tree(root, chosen),
        declares(chosen, source, declared_symbol(root, source)->0),
        symbol_score(chosen, source, declared_symbol(root, source)->0) >= symbol_score(
            node,
            source,
            name,
        ),
{
    let list = symbols_in(root, source, 0);
    law_best_symbol_is_chosen(root, source);
    lemma_node_is_listed(root, source, 0, node, name);
    let i = choose|i: int| 0 <= i < list.len() && stands_for(#[trigger] list[i], node, source);
    let best = best_symbol(None, list)->0;
    let k = choose|k: int| 0 <= k < list.len() && list[k] == best;
    lemma_name_from(node, source, 0, list[i].name);
    lemma_name_from(node, source, 0, name);
    assert(!better_symbol(list[i], best));
    lemma_symbol_has_node(root, source, 0, k)
}

/// A node scores one more for every two named children up to six, two more if it covers
/// more than its name, one more at each end of the text that it reaches, and two less for
/// a name of one byte.
pub proof fn law_what_a_name_scores(node: SyntaxModel, source: Seq<char>, name: Seq<char>)
    requires
        node.named_child_count >= 0,
        node.start_byte <= node.end_byte,
    ensures
        ({
            let score = symbol_score(node, source, name);
            let plain = SyntaxModel {
                named_child_count: 0,
                start_byte: 1,
                end_byte: 1,
                ..node
            };
            let with_pair = SyntaxModel {
                named_child_count: node.named_child_count + 2,
                ..node
            };
            &&& node.named_child_count <= 4 ==> symbol_score(with_pair, source, name) == score + 1
            &&& node.named_child_count >= 6 ==> symbol_score(with_pair, source, name) == score
            &&& node.named_child_count == 1 ==> score == symbol_score(
                SyntaxModel { named_child_count: 0, ..node },
                source,
                name,
            )
            &&& byte_len(source) != 1 && byte_len(name) > 1 ==> symbol_score(plain, source, name)
                == 10
            &&& byte_len(source) != 1 && byte_len(name) <= 1 ==> symbol_score(plain, source, name)
                == 8
            &&& node.named_child_count == 0 && node.start_byte != 0 && node.end_byte != byte_len(
                source,
            ) && byte_len(name) > 1 ==> score == if node.end_byte - node.start_byte > byte_len(name)
                + 1 {
                12int
            } else {
                10
            }
            &&& node.named_child_count == 0 && node.start_byte == 0 && byte_len(name) > 1 ==> score
                == 11 + (if node.end_byte > byte_len(name) + 1 {
                2int
            } else {
                0
            }) + (if node.end_byte == byte_len(source) {
                1int
            } else {
                0
            })
        }),
{
}

// ---------------------------------------------------------------------------
// The first name in a tree
// ---------------------------------------------------------------------------
/// The node is a name itself.
pub open spec fn is_name_node(node: SyntaxModel) -> bool {
    node.is_named && (contains_text(node.kind, "identifier"@) || node.kind == "name"@)
}

proof fn lemma_first_name(root: SyntaxModel, source: Seq<char>) -> (node: SyntaxModel)
    ensures
        match first_identifier(root, source) {
            Some(name) => in_tree(root, node) && node.is_named && ((is_name_node(node)
                && byte_slice(source, node.start_byte, node.end_byte) == Some(name)) || holds_text(
                node,
                source,
                0,
                name,
            )),
            None => forall|other: SyntaxModel|
                #[trigger] in_tree(root, other) && is_name_node(other) ==> exists|blocked: SyntaxModel|
                    {
                        &&& #[trigger] in_tree(root, blocked) && in_tree(blocked, other)
                        &&& is_name_node(blocked)
                        &&& byte_slice(source, blocked.start_byte, blocked.end_byte) is None
                    },
        },
    decreases root, root.children.len() + 1,
{
    assert(in_tree(root, root));
    if is_identifier(root) {
        root
    } else if root.is_named && root.kind != "ERROR"@ && name_text(root, source, 0).is_some() {
        lemma_name_text(root, source, 0, name_text(root, source, 0)->0);
        root
    } else {
        let n = root.children.len() as int;
        let (i, node) = lemma_first_name_below(root, source, n);
        if first_identifier(root, source) is Some {
            assert(in_tree(root.children[i], node));
        } else {
            assert forall|other: SyntaxModel|
                #[trigger] in_tree(root, other) && is_name_node(other) implies exists|
                blocked: SyntaxModel,
            |
                {
                    &&& #[trigger] in_tree(root, blocked) && in_tree(blocked, other)
                    &&& is_name_node(blocked)
                    &&& byte_slice(source, blocked.start_byte, blocked.end_byte) is None
                } by {
                let k = choose|k: int|
                    0 <= k < n && in_tree(#[trigger] root.children[k], other);
                let blocked = choose|blocked: SyntaxModel|
                    {
                        &&& #[trigger] in_tree(root.children[k], blocked) && in_tree(blocked, other)
                        &&& is_name_node(blocked)
                        &&& byte_slice(source, blocked.start_byte, blocked.end_byte) is None
                    };
                assert(in_tree(root, blocked));
            }
        }
        node
    }
}

proof fn lemma_first_name_below(root: SyntaxModel, source: Seq<char>, n: int) -> (found: (
    int,
    SyntaxModel,
))
    requires
        0 <= n <= root.children.len(),
    ensures
        match identifier_below(root, source, n) {
            Some(name) => {
                let (i, node) = found;
                &&& root.children.len() - n <= i < root.children.len()
                &&& in_tree(root.children[i], node) && node.is_named
                &&& (is_name_node(node) && byte_slice(source, node.start_byte, node.end_byte)
                    == Some(name)) || holds_text(node, source, 0, name)
            },
            None => forall|k: int, other: SyntaxModel|
                root.children.len() - n <= k < root.children.len() && #[trigger] in_tree(
                    root.children[k],
                    other,
                ) && is_name_node(other) ==> exists|blocked: SyntaxModel|
                    {
                        &&& #[trigger] in_tree(root.children[k], blocked) && in_tree(blocked, other)
                        &&& is_name_node(blocked)
                        &&& byte_slice(source, blocked.start_byte, blocked.end_byte) is None
                    },
        },
    decreases root, n,
{
    if n <= 0 {
        (0, root)
    } else {
        let i = root.children.len() - n;
        let node = lemma_first_name(root.children[i], source);
        if first_identifier(root.children[i], source) is Some {
            (i, node)
        } else {
            lemma_first_name_below(root, source, n - 1)
        }
    }
}

/// Where no name field decides, the name that is taken is that of a named node in the tree:
/// the text of a node that is a name itself, or what stands in the first name field; and
/// there is one wherever a node of the tree is a name that stands in the text.
pub proof fn law_some_name_in_the_tree_is_taken(root: SyntaxModel, source: Seq<char>) -> (node:
    SyntaxModel)
    requires
        forall|n: SyntaxModel| #[trigger]
            in_tree(root, n) && is_name_node(n) ==> byte_slice(source, n.start_byte, n.end_byte) is Some,
    ensures
        match first_identifier(root, source) {
            Some(name) => in_tree(root, node) && node.is_named && ((is_name_node(node)
                && byte_slice(source, node.start_byte, node.end_byte) == Some(name)) || holds_text(
                node,
                source,
                0,
                name,
            )),
            None => forall|other: SyntaxModel| #[trigger]
                in_tree(root, other) ==> !is_name_node(other),
        },
{
    lemma_first_name(root, source)
}

} // verus!
