use apply_patch::anchor_finder::{
    build_line_starts, find_named_node_generically, line_for_byte, AnchorFinder, AnchorScope,
};
use apply_patch::language::SupportedLanguage;
use apply_patch::symbols::{
    clean_patch_context, extract_symbol_simple, extract_symbol_via_ast, find_first_identifier,
    node_symbol_name, select_symbol_candidate, symbol_in_tree,
};
use apply_patch::syntax_guard::{collect_error_nodes, extract_errors, SyntaxError};
use apply_patch::syntax_tree::{parse_source, SyntaxNode};

fn text(s: &str) -> Vec<char> {
    s.chars().collect()
}

fn node(kind: &str, start: usize, end: usize, children: Vec<SyntaxNode>) -> SyntaxNode {
    SyntaxNode {
        kind: kind.to_string(),
        is_named: true,
        is_error: false,
        is_missing: false,
        start_byte: start,
        end_byte: end,
        row: 0,
        column: start,
        named_child_count: children.len(),
        names: vec![None; 10],
        children,
    }
}

fn named(kind: &str, start: usize, end: usize, name: (usize, usize)) -> SyntaxNode {
    let mut out = node(kind, start, end, Vec::new());
    out.names[0] = Some(name);
    out
}

/// The kinds of a tree, each with the kinds below it.
fn shape(n: &SyntaxNode) -> String {
    let below: Vec<String> = n.children.iter().map(shape).collect();
    if below.is_empty() {
        n.kind.clone()
    } else {
        format!("{}({})", n.kind, below.join(" "))
    }
}

#[test]
fn each_grammar_reads_its_own_language() {
    let rust = parse_source("fn f() {}\n", SupportedLanguage::Rust).unwrap();
    assert_eq!(
        shape(&rust),
        "source_file(function_item(fn identifier parameters(( )) block({ })))"
    );
    let f = &rust.children[0];
    assert_eq!((f.start_byte, f.end_byte, f.row, f.column), (0, 9, 0, 0));
    assert_eq!(f.named_child_count, 3);
    assert_eq!(f.names[0], Some((3, 4)));
    assert!(f.is_named && !f.children[0].is_named);

    let python = parse_source("x = 1\n", SupportedLanguage::Python).unwrap();
    assert_eq!(
        shape(&python),
        "module(expression_statement(assignment(identifier = integer)))"
    );

    let javascript = parse_source("let x = 1;\n", SupportedLanguage::JavaScript).unwrap();
    assert_eq!(
        shape(&javascript),
        "program(lexical_declaration(let variable_declarator(identifier = number) ;))"
    );

    let typed = "let x: string = y;\n";
    let typescript = parse_source(typed, SupportedLanguage::TypeScript).unwrap();
    assert!(collect_error_nodes(&typescript, typed).is_empty());
    assert!(!extract_errors(typed, SupportedLanguage::JavaScript).unwrap().is_empty());

    let element = "let x = <b>y</b>;\n";
    assert_eq!(extract_errors(element, SupportedLanguage::TypeScriptTsx), Some(Vec::new()));
    assert!(!extract_errors(element, SupportedLanguage::TypeScript).unwrap().is_empty());
    let assertion = "let x = <string>y;\n";
    assert_eq!(extract_errors(assertion, SupportedLanguage::TypeScript), Some(Vec::new()));
    assert!(!extract_errors(assertion, SupportedLanguage::TypeScriptTsx).unwrap().is_empty());

    assert_eq!(extract_errors("x", SupportedLanguage::Unknown), None);
    assert!(parse_source("x", SupportedLanguage::Unknown).is_none());
}

#[test]
fn errors_are_read_off_a_tree() {
    let mut root = node("source_file", 0, 12, Vec::new());
    let mut bad = node("ERROR", 2, 3, Vec::new());
    bad.is_error = true;
    bad.column = 2;
    let mut gone = node(";", 9, 9, Vec::new());
    gone.is_missing = true;
    gone.row = 1;
    gone.column = 4;
    bad.children.push(gone);
    root.children.push(bad);
    let mut outside = node("x", 12, 12, Vec::new());
    outside.is_missing = true;
    outside.row = 7;
    root.children.push(outside);
    let errors = collect_error_nodes(&root, "abcd\nefghij\n");
    let expected = vec![
        SyntaxError {
            line: 0,
            column: 2,
            start_byte: 2,
            end_byte: 3,
            node_kind: Some("ERROR".to_string()),
            context: Some("abcd".to_string()),
        },
        SyntaxError {
            line: 1,
            column: 4,
            start_byte: 9,
            end_byte: 9,
            node_kind: Some(";".to_string()),
            context: Some("efghij".to_string()),
        },
        SyntaxError {
            line: 7,
            column: 12,
            start_byte: 12,
            end_byte: 12,
            node_kind: Some("x".to_string()),
            context: None,
        },
    ];
    assert_eq!(errors, expected);
}

#[test]
fn lines_are_found_by_binary_search() {
    let source = "a\n\u{e9}b\n\nc";
    let starts = build_line_starts(source);
    assert_eq!(starts, vec![0, 2, 6, 7]);
    for byte in 0..source.len() {
        let feeds = source.as_bytes()[..byte].iter().filter(|b| **b == b'\n').count();
        assert_eq!(line_for_byte(byte, &starts), Some(feeds));
    }
    assert_eq!(line_for_byte(100, &starts), Some(3));
    assert_eq!(line_for_byte(0, &[]), None);
    assert_eq!(line_for_byte(1, &[5, 9]), Some(0));
}

#[test]
fn the_named_node_nearest_to_the_hint_is_chosen() {
    let source = "f1 f2\nf1 f3\nf1 xx\n";
    let root = node(
        "root",
        0,
        18,
        vec![
            named("first", 0, 5, (0, 2)),
            named("second", 6, 11, (6, 8)),
            named("third", 12, 17, (12, 14)),
        ],
    );
    let starts = build_line_starts(source);
    let find = |hint: Option<usize>| {
        find_named_node_generically(&root, source, "f1", hint, &starts).map(|n| n.kind.clone())
    };
    assert_eq!(find(Some(0)), Some("first".to_string()));
    assert_eq!(find(Some(1)), Some("second".to_string()));
    assert_eq!(find(Some(9)), Some("third".to_string()));
    // Without a hint all three are equally good, and the last child is looked at first.
    assert_eq!(find(None), Some("third".to_string()));
    assert_eq!(
        find_named_node_generically(&root, source, "f1", Some(0), &[]).map(|n| n.kind.clone()),
        Some("third".to_string())
    );
    assert!(find_named_node_generically(&root, source, "zz", None, &starts).is_none());
}

#[test]
fn a_named_node_hides_those_below_it() {
    let source = "abab";
    let mut outer = named("outer", 0, 4, (0, 2));
    outer.children.push(named("inner", 2, 4, (2, 4)));
    let root = node("root", 0, 4, vec![outer]);
    let starts = build_line_starts(source);
    let found = find_named_node_generically(&root, source, "ab", None, &starts).unwrap();
    assert_eq!(found.kind, "outer");
}

#[test]
fn the_symbol_with_the_highest_score_is_chosen() {
    // The scores are 10 + 1 + 1 + 2 for the outer node (both ends of the text, and more
    // than its name) and 10 + 1 for the inner one (the end of the text).
    let source = "aa bb";
    let mut outer = named("outer", 0, 5, (0, 2));
    outer.children.push(named("inner", 3, 5, (3, 5)));
    assert_eq!(select_symbol_candidate(&outer, source), Some(text("aa")));
    // A short name loses two points: 12 against 11, and against 13 with a third child
    // counted in.
    let source = "a bb";
    let mut outer = named("outer", 0, 4, (0, 1));
    outer.children.push(named("inner", 2, 4, (2, 4)));
    outer.named_child_count = 0;
    assert_eq!(select_symbol_candidate(&outer, source), Some(text("a")));
    outer.children[0].named_child_count = 4;
    assert_eq!(select_symbol_candidate(&outer, source), Some(text("bb")));
    outer.named_child_count = 2;
    assert_eq!(select_symbol_candidate(&outer, source), Some(text("a")));
    assert_eq!(select_symbol_candidate(&node("root", 0, 4, Vec::new()), source), None);
}

#[test]
fn names_are_trimmed_and_blank_ones_passed_over() {
    let source = "  x  y";
    let mut n = node("n", 0, 6, Vec::new());
    n.names[0] = Some((0, 2));
    n.names[3] = Some((1, 4));
    assert_eq!(node_symbol_name(&n, source), Some(text("x")));
    n.names[3] = Some((4, 99));
    assert_eq!(node_symbol_name(&n, source), None);
}

#[test]
fn the_first_identifier_stands_in_for_a_declaration() {
    let source = "foo bar";
    let mut error = node("ERROR", 0, 7, Vec::new());
    error.children.push(node("number", 0, 3, Vec::new()));
    error.children.push(node("type_identifier", 4, 7, Vec::new()));
    assert_eq!(find_first_identifier(&error, source), Some(text("bar")));
    error.children[1].is_named = false;
    assert_eq!(find_first_identifier(&error, source), None);
    error.children[0].names[0] = Some((0, 3));
    assert_eq!(find_first_identifier(&error, source), Some(text("foo")));
    assert_eq!(symbol_in_tree(&error, source), Some("foo".to_string()));
}

#[test]
fn patch_marks_are_taken_off_a_context() {
    for (context, expected) in [
        ("  @@ fn f()  ", "fn f()"),
        ("+ fn f()", "fn f()"),
        ("- x", "x"),
        ("+- x", "x"),
        ("++x", "++x"),
        ("+= 1", "+= 1"),
        ("--x", "--x"),
        ("-= 1", "-= 1"),
        ("@@", ""),
        ("@@@@ x", "@@ x"),
    ] {
        assert_eq!(clean_patch_context(&text(context)), text(expected), "{}", context);
    }
}

#[test]
fn the_last_word_is_the_simple_symbol() {
    for (context, expected) in [
        ("fn compute(x, y2)", Some("y2")),
        ("def run_all(self):", Some("self")),
        ("x + y", None),
        ("123 456", None),
        ("a1 7", Some("a1")),
        ("caf\u{e9} + \u{661}\u{662}", Some("caf\u{e9}")),
        ("\u{4e2d}", Some("\u{4e2d}")),
        ("", None),
    ] {
        assert_eq!(extract_symbol_simple(context), expected.map(String::from), "{}", context);
    }
}

#[test]
fn symbols_are_read_with_the_grammar() {
    assert_eq!(
        extract_symbol_via_ast("+ fn compute() {}", SupportedLanguage::Rust),
        Some("compute".to_string())
    );
    assert_eq!(
        extract_symbol_via_ast("class Shape:", SupportedLanguage::Python),
        Some("Shape".to_string())
    );
    assert_eq!(extract_symbol_via_ast("@@", SupportedLanguage::Rust), None);
    assert_eq!(extract_symbol_via_ast("fn f() {}", SupportedLanguage::Unknown), None);
}

#[test]
fn scopes_are_cut_off_at_the_end_of_the_file() {
    let source = "aa\nbb\ncc\n";
    let tree = || node("root", 0, 9, vec![named("n", 3, 9, (3, 5))]);
    let scope = |count: usize| {
        AnchorFinder::with_tree(source, count, Some(SupportedLanguage::Rust), Some(tree()))
            .scope_for_symbol("bb", Some("bb".to_string()), None)
    };
    assert_eq!(scope(4), Some(AnchorScope { start_line: 1, end_line: 2, start_column: 3 }));
    assert_eq!(scope(2), Some(AnchorScope { start_line: 1, end_line: 1, start_column: 3 }));
    assert_eq!(scope(1), None);
    assert_eq!(scope(0), None);
}

#[test]
fn blocks_end_where_the_indentation_returns() {
    let source = "task one:\n  step\n\n\tmore\ntask two:\n  step\n";
    let finder = AnchorFinder::new("plan.txt", source, 7);
    assert_eq!(
        finder.find_pseudo_scope("task one", None),
        Some(AnchorScope { start_line: 0, end_line: 3, start_column: 0 })
    );
    assert_eq!(
        finder.scope_for_context("- step"),
        Some(AnchorScope { start_line: 1, end_line: 3, start_column: 2 })
    );
    assert_eq!(
        finder.scope_for_context_with_hint("step", Some(4)),
        Some(AnchorScope { start_line: 5, end_line: 5, start_column: 2 })
    );
    assert_eq!(
        finder.scope_for_context("more"),
        Some(AnchorScope { start_line: 3, end_line: 3, start_column: 4 })
    );
    assert_eq!(finder.scope_for_context("   "), None);
    assert_eq!(finder.scope_for_context("nothing like it"), None);
}
