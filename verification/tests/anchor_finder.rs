use apply_patch::anchor_finder::{count_indent, AnchorFinder};
use apply_patch::language::SupportedLanguage;
use apply_patch::symbols::{extract_symbol_simple, extract_symbol_via_ast};

#[test]
fn extract_symbol_rust_fn() {
    let language = SupportedLanguage::Rust;
    let symbol = extract_symbol_via_ast("fn build_window() -> Self {", language);
    assert_eq!(symbol.as_deref(), Some("build_window"));
}

#[test]
fn extract_symbol_rust_impl_type() {
    let language = SupportedLanguage::Rust;
    let symbol = extract_symbol_via_ast("impl SessionWindow {", language);
    assert_eq!(symbol.as_deref(), Some("SessionWindow"));
}

#[test]
fn extract_symbol_python_class() {
    let language = SupportedLanguage::Python;
    let symbol = extract_symbol_via_ast("class SessionWindow:", language);
    assert_eq!(symbol.as_deref(), Some("SessionWindow"));
}

#[test]
fn extract_symbol_js_function() {
    let language = SupportedLanguage::JavaScript;
    let symbol = extract_symbol_via_ast("function renderWindow() {", language);
    assert_eq!(symbol.as_deref(), Some("renderWindow"));
}

#[test]
fn extract_symbol_fallback_identifier() {
    let language = SupportedLanguage::Rust;
    let symbol = extract_symbol_via_ast("let alpha = beta;", language);
    assert_eq!(symbol.as_deref(), Some("alpha"));
}

#[test]
fn extract_symbol_typescript_interface() {
    let language = SupportedLanguage::TypeScript;
    let symbol = extract_symbol_via_ast("interface UserProfile {", language);
    assert_eq!(symbol.as_deref(), Some("UserProfile"));
}

#[test]
fn extract_symbol_rust_trait() {
    let language = SupportedLanguage::Rust;
    let symbol = extract_symbol_via_ast("pub trait AsRef<T> {", language);
    assert_eq!(symbol.as_deref(), Some("AsRef"));
}

#[test]
fn extract_symbol_js_class_method() {
    let language = SupportedLanguage::JavaScript;
    let symbol = extract_symbol_via_ast("  handleClick(event) {", language);
    assert_eq!(symbol.as_deref(), Some("handleClick"));
}

#[test]
fn extract_symbol_typescript_type_alias() {
    let language = SupportedLanguage::TypeScript;
    let symbol = extract_symbol_via_ast("type Status = 'active' | 'inactive';", language);
    assert_eq!(symbol.as_deref(), Some("Status"));
}

#[test]
fn extract_symbol_rust_fn_incomplete() {
    let language = SupportedLanguage::Rust;
    // Incomplete function - tree-sitter creates ERROR nodes
    let symbol = extract_symbol_via_ast("fn incomplete_fn(", language);
    assert_eq!(symbol.as_deref(), Some("incomplete_fn"));
}

#[test]
fn extract_symbol_python_incomplete_class() {
    let language = SupportedLanguage::Python;
    // Incomplete class definition
    let symbol = extract_symbol_via_ast("class IncompleteClass", language);
    assert_eq!(symbol.as_deref(), Some("IncompleteClass"));
}

#[test]
fn extract_symbol_js_arrow_incomplete() {
    let language = SupportedLanguage::JavaScript;
    // Incomplete arrow function
    let symbol = extract_symbol_via_ast("const myFunc =", language);
    assert_eq!(symbol.as_deref(), Some("myFunc"));
}

#[test]
fn extract_symbol_prefers_closer_line() {
    // Source with duplicate function names at different locations
    let source = r#"fn main() {
    let x = 1;
}

fn duplicate_name() {
    // First definition at line 5
}

fn other_func() {
    // Some other function
}

fn duplicate_name() {
    // Second definition at line 13
}
"#;
    let line_count = source.lines().count();
    let finder = AnchorFinder::new("test.rs", source, line_count);

    // Without hint, should find first occurrence (smaller span preferred)
    let scope_no_hint = finder.scope_for_context("fn duplicate_name() {");
    assert!(scope_no_hint.is_some());
    let scope = scope_no_hint.unwrap();
    // Should find line 4 (0-indexed) = "fn duplicate_name()" first occurrence
    assert_eq!(scope.start_line, 4);

    // With hint pointing to second occurrence (line 12, 0-indexed)
    let scope_with_hint = finder.scope_for_context_with_hint("fn duplicate_name() {", Some(12));
    assert!(scope_with_hint.is_some());
    let scope = scope_with_hint.unwrap();
    // Should find line 12 (0-indexed) = "fn duplicate_name()" second occurrence
    assert_eq!(scope.start_line, 12);
}

#[test]
fn line_affinity_single_occurrence_unchanged() {
    let source = r#"fn unique_function() {
    // Only one definition
}
"#;
    let line_count = source.lines().count();
    let finder = AnchorFinder::new("test.rs", source, line_count);

    let scope_no_hint = finder.scope_for_context("fn unique_function() {");
    let scope_with_hint = finder.scope_for_context_with_hint("fn unique_function() {", Some(5));

    // Both should find the same single occurrence
    assert_eq!(scope_no_hint, scope_with_hint);
}

#[test]
fn extract_symbol_with_at_at_prefix() {
    let language = SupportedLanguage::Rust;
    // Unified diff context marker
    let symbol = extract_symbol_via_ast("@@ fn my_function() {", language);
    assert_eq!(symbol.as_deref(), Some("my_function"));
}

#[test]
fn extract_symbol_with_plus_prefix() {
    let language = SupportedLanguage::Rust;
    // Diff addition marker
    let symbol = extract_symbol_via_ast("+fn added_function() {", language);
    assert_eq!(symbol.as_deref(), Some("added_function"));
}

#[test]
fn extract_symbol_with_minus_prefix() {
    let language = SupportedLanguage::Rust;
    // Diff removal marker
    let symbol = extract_symbol_via_ast("-fn removed_function() {", language);
    assert_eq!(symbol.as_deref(), Some("removed_function"));
}

#[test]
fn extract_symbol_preserves_plus_equals() {
    let language = SupportedLanguage::Rust;
    // += operator should not be stripped
    let symbol = extract_symbol_via_ast("let x += 1;", language);
    assert_eq!(symbol.as_deref(), Some("x"));
}

#[test]
fn extract_symbol_preserves_minus_equals() {
    let language = SupportedLanguage::Rust;
    // -= operator should not be stripped
    let symbol = extract_symbol_via_ast("let y -= 1;", language);
    assert_eq!(symbol.as_deref(), Some("y"));
}

#[test]
fn extract_symbol_with_combined_markers() {
    let language = SupportedLanguage::Rust;
    // @@ + combination
    let symbol = extract_symbol_via_ast("@@ +fn combined() {", language);
    assert_eq!(symbol.as_deref(), Some("combined"));
}

#[test]
fn extract_symbol_python_with_at_at() {
    let language = SupportedLanguage::Python;
    let symbol = extract_symbol_via_ast("@@ class MyClass:", language);
    assert_eq!(symbol.as_deref(), Some("MyClass"));
}

#[test]
fn extract_symbol_js_with_plus() {
    let language = SupportedLanguage::JavaScript;
    let symbol = extract_symbol_via_ast("+function handleClick() {", language);
    assert_eq!(symbol.as_deref(), Some("handleClick"));
}

#[test]
fn test_extract_symbol_simple_function() {
    let symbol = extract_symbol_simple("fn my_function() {");
    assert_eq!(symbol.as_deref(), Some("my_function"));
}

#[test]
fn test_extract_symbol_simple_class() {
    let symbol = extract_symbol_simple("class MyClass:");
    assert_eq!(symbol.as_deref(), Some("MyClass"));
}

#[test]
fn test_extract_symbol_simple_last_identifier() {
    // Should take the last identifier-like word
    let symbol = extract_symbol_simple("func processData(input string)");
    assert_eq!(symbol.as_deref(), Some("string")); // last identifier
}

#[test]
fn test_extract_symbol_simple_with_patch_markers() {
    let symbol = extract_symbol_simple("+func process() {");
    assert_eq!(symbol.as_deref(), Some("process"));
}

#[test]
fn test_count_indent_spaces() {
    assert_eq!(count_indent("    let x = 1;"), 4);
    assert_eq!(count_indent("  foo"), 2);
    assert_eq!(count_indent("no indent"), 0);
}

#[test]
fn test_count_indent_tabs() {
    assert_eq!(count_indent("\tlet x = 1;"), 4); // 1 tab = 4 cols
    assert_eq!(count_indent("\t\tfoo"), 8); // 2 tabs = 8 cols
}

#[test]
fn test_count_indent_mixed() {
    assert_eq!(count_indent("\t  let x = 1;"), 6); // 1 tab + 2 spaces = 6 cols
}

#[test]
fn test_pseudo_scope_fallback_for_unknown_language() {
    // There is no grammar for .lua
    let source = r#"function calculate_sum(a, b)
    local result = a + b
    return result
end

function main()
    print(calculate_sum(1, 2))
end
"#;
    let line_count = source.lines().count();
    let finder = AnchorFinder::new("test.lua", source, line_count);

    // Should find the scope of calculate_sum function
    let scope = finder.scope_for_context_with_hint("function calculate_sum", None);
    assert!(scope.is_some());
    let scope = scope.unwrap();
    assert_eq!(scope.start_line, 0);
    assert!(scope.end_line >= 2); // Should include at least 3 lines
}

#[test]
fn test_pseudo_scope_indent_based() {
    // Test Python-like indent-based scoping
    let source = r#"def outer():
    x = 1
    def inner():
        y = 2
    z = 3
"#;
    let line_count = source.lines().count();
    let finder = AnchorFinder::new("test.py", source, line_count);

    // Should use the grammar since .py is supported
    let scope = finder.scope_for_context_with_hint("def inner", None);
    assert!(scope.is_some());
}
