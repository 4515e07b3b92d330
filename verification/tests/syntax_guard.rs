use apply_patch::language::SupportedLanguage;
use apply_patch::robustness::{
    check_conflict_markers, check_delimiter_balance, run_robustness_probe,
};
use apply_patch::syntax_guard::{
    compute_error_delta, extract_errors, validate_file_change, DiagnosticInfo, SyntaxError,
};

#[test]
fn test_supported_language_detection() {
    assert_eq!(
        SupportedLanguage::from_path("src/main.rs"),
        SupportedLanguage::Rust
    );
    assert_eq!(
        SupportedLanguage::from_path("script.py"),
        SupportedLanguage::Python
    );
    assert_eq!(
        SupportedLanguage::from_path("app.js"),
        SupportedLanguage::JavaScript
    );
    assert_eq!(
        SupportedLanguage::from_path("component.tsx"),
        SupportedLanguage::TypeScriptTsx
    );
    assert_eq!(
        SupportedLanguage::from_path("unknown.xyz"),
        SupportedLanguage::Unknown
    );
}

#[test]
fn test_extract_errors_rust() {
    // Valid Rust code - no errors
    let valid = "fn main() { let x = 1; }";
    let errors = extract_errors(valid, SupportedLanguage::Rust).unwrap();
    assert!(errors.is_empty());

    // Invalid Rust code - unclosed brace
    let invalid = "fn main() { let x = 1; ";
    let errors = extract_errors(invalid, SupportedLanguage::Rust).unwrap();
    assert!(!errors.is_empty());
}

#[test]
fn test_extract_errors_python() {
    // Valid Python code - no errors
    let valid = "def foo():\n    pass";
    let errors = extract_errors(valid, SupportedLanguage::Python).unwrap();
    assert!(errors.is_empty());

    // Invalid Python code - unclosed string
    let invalid = "x = \"unclosed";
    let errors = extract_errors(invalid, SupportedLanguage::Python).unwrap();
    assert!(!errors.is_empty());
}

#[test]
fn test_error_delta_no_change() {
    let before = vec![SyntaxError {
        line: 0,
        column: 0,
        start_byte: 0,
        end_byte: 5,
        node_kind: Some("ERROR".to_string()),
        context: Some("fn main()".to_string()),
    }];
    let after = before.clone();

    let delta = compute_error_delta(&before, &after, None);
    assert_eq!(delta.new_errors, 0);
    assert_eq!(delta.fixed_errors, 0);
    assert_eq!(delta.net_change, 0);
    assert!(!delta.is_degradation());
}

#[test]
fn test_error_delta_new_error() {
    let before: Vec<SyntaxError> = Vec::new();
    let after = vec![SyntaxError {
        line: 0,
        column: 0,
        start_byte: 0,
        end_byte: 5,
        node_kind: Some("ERROR".to_string()),
        context: Some("fn main()".to_string()),
    }];

    let delta = compute_error_delta(&before, &after, None);
    assert_eq!(delta.new_errors, 1);
    assert_eq!(delta.fixed_errors, 0);
    assert_eq!(delta.net_change, 1);
    assert!(delta.is_degradation());
}

#[test]
fn test_error_delta_fixed_error() {
    let before = vec![SyntaxError {
        line: 0,
        column: 0,
        start_byte: 0,
        end_byte: 5,
        node_kind: Some("ERROR".to_string()),
        context: Some("fn main()".to_string()),
    }];
    let after: Vec<SyntaxError> = Vec::new();

    let delta = compute_error_delta(&before, &after, None);
    assert_eq!(delta.new_errors, 0);
    assert_eq!(delta.fixed_errors, 1);
    assert_eq!(delta.net_change, -1);
    assert!(!delta.is_degradation());
}

#[test]
fn test_error_delta_patch_range_filter() {
    // Error outside patch range should not be counted as new
    let before: Vec<SyntaxError> = Vec::new();
    let after = vec![SyntaxError {
        line: 10,
        column: 0,
        start_byte: 100, // Outside patch range
        end_byte: 105,
        node_kind: Some("ERROR".to_string()),
        context: Some("fn other()".to_string()),
    }];

    // Patch range is 0-50, error is at 100
    let delta = compute_error_delta(&before, &after, Some((0, 50)));
    assert_eq!(delta.new_errors, 0); // Filtered out
    assert!(!delta.is_degradation());
}

#[test]
fn test_validate_file_change_valid() {
    let before = "fn main() { let x = 1; }";
    let after = "fn main() { let x = 2; }";

    let result = validate_file_change(
        "test.rs",
        before,
        after,
        Some((20, 21)), // Just the "1" -> "2"
    );

    assert!(result.is_valid);
    assert!(result.before_errors.is_empty());
    assert!(result.after_errors.is_empty());
}

#[test]
fn test_validate_file_change_introduces_error() {
    let before = "fn main() { let x = 1; }";
    let after = "fn main() { let x = ; }"; // Missing value

    let result = validate_file_change(
        "test.rs",
        before,
        after,
        None, // Don't filter by byte range
    );

    assert!(
        !result.is_valid,
        "Expected invalid result due to new syntax error"
    );
    assert!(
        result.before_errors.is_empty(),
        "Before should have no errors"
    );
    assert!(!result.after_errors.is_empty(), "After should have errors");
    assert!(
        result.error_delta.is_degradation(),
        "Should be a degradation"
    );
}

#[test]
fn test_validate_file_change_pre_existing_error() {
    // Source already has an error
    let before = "fn main() { let x = ; }"; // Pre-existing error
    let after = "fn main() { let y = ; }"; // Still has error, but not new

    let result = validate_file_change(
        "test.rs",
        before,
        after,
        Some((15, 16)), // x -> y
    );

    // Should NOT be considered a degradation - error was pre-existing
    assert!(result.is_valid);
}

#[test]
fn test_diagnostic_output() {
    let diag = DiagnosticInfo {
        path: "src/main.rs".to_string(),
        language: Some(SupportedLanguage::Rust),
        stage: Some("syntax_guard".to_string()),
        tag: Some("APPLY_PATCH_SYNTAX_GUARD".to_string()),
        context: Some("function `process_data`".to_string()),
        issue: "Unclosed delimiter '{' at Line 45, Column 12".to_string(),
        evidence: "    if x {".to_string(),
        suggestion: "Check for unclosed delimiters, missing semicolons, or mismatched brackets in the patch."
            .to_string(),
        next_action: Some("Fix the syntax and rerun apply_patch.".to_string()),
    };

    let output = diag.to_text();
    assert!(output.contains("Syntax Integrity Check Failed"));
    assert!(output.contains("src/main.rs"));
    assert!(output.contains("Unclosed delimiter"));
}

#[test]
fn test_delimiter_balance_valid() {
    let content = r#"fn main() {
    let x = [1, 2, 3];
    let map = {"key": "value"};
}"#;
    let issues = check_delimiter_balance(content);
    assert!(
        issues.is_empty(),
        "Expected no issues for balanced delimiters"
    );
}

#[test]
fn test_delimiter_balance_unclosed_brace() {
    let content = r#"fn main() {
    let x = 1;
    // Missing closing }"#;
    let issues = check_delimiter_balance(content);
    assert!(!issues.is_empty(), "Expected issue for unclosed brace");
    assert!(issues[0].description.contains("Unclosed"));
}

#[test]
fn test_delimiter_balance_mismatched() {
    let content = r#"let arr = [1, 2, 3);"#; // Opens with [, closes with )
    let issues = check_delimiter_balance(content);
    assert!(
        !issues.is_empty(),
        "Expected issue for mismatched delimiters"
    );
}

#[test]
fn test_delimiter_balance_nested() {
    let content = r#"fn outer() {
    fn inner() {
        let x = 1;
    }
}"#;
    let issues = check_delimiter_balance(content);
    assert!(
        issues.is_empty(),
        "Expected no issues for nested balanced blocks"
    );
}

#[test]
fn test_conflict_markers_clean() {
    let content = r#"fn main() {
    println!("Hello");
}"#;
    let issues = check_conflict_markers(content);
    assert!(issues.is_empty(), "Expected no issues for clean content");
}

#[test]
fn test_conflict_markers_detected() {
    let content = r#"fn main() {
<<<<<<< HEAD
    let x = 1;
=======
    let x = 2;
>>>>>>> branch
}"#;
    let issues = check_conflict_markers(content);
    assert!(!issues.is_empty(), "Expected issues for conflict markers");
    assert!(issues.iter().any(|i| i.description.contains("conflict")));
}

#[test]
fn test_robustness_probe_all_checks() {
    // Content with both delimiter issue and conflict marker
    let content = r#"fn main() {
<<<<<<< HEAD
    let x = [1, 2;
}"#;
    let issues = run_robustness_probe(content);
    assert!(issues.len() >= 2, "Expected multiple issues from probe");
}

#[test]
fn test_validate_unsupported_language_with_probe() {
    let before = r#"class Program {
    static void Main() {
        Console.WriteLine("Hello");
    }
}"#;
    let after = r#"class Program {
    static void Main() {
        Console.WriteLine("Hello");
    // Missing closing }"#;

    let result = validate_file_change("Program.cs", before, after, None);

    // Should detect unclosed brace
    assert!(!result.is_valid, "Expected invalid due to unclosed brace");
    assert!(!result.after_errors.is_empty(), "Expected errors in after");
}

#[test]
fn test_validate_unsupported_language_balanced() {
    // Valid C-like code with balanced delimiters
    let before = r#"int main() { return 0; }"#;
    let after = r#"int main() { return 1; }"#;

    let result = validate_file_change("main.c", before, after, None);

    // Should pass probe validation
    assert!(result.is_valid, "Expected valid for balanced code");
}

#[test]
fn test_detect_embedded_plus_characters() {
    // Simulates what happens when a malformed patch leaves `+` in source
    let before = r#"fn rebuild(&mut self) {
    self.clear();
    for doc in docs {
        self.process(doc);
    }
}"#;

    // After a BAD patch that squashed lines and kept `+` prefixes
    let corrupted_after = r#"fn rebuild(&mut self) {
    self.clear();+    for doc in docs {+        self.process(doc);+    }
}"#;

    let result = validate_file_change("rebuild.rs", before, corrupted_after, None);

    // The corrupted code should be detected as invalid
    // Either tree-sitter catches it or the robustness probe does
    assert!(
        !result.is_valid,
        "Expected invalid for corrupted code with embedded +"
    );
}

#[test]
fn test_detect_squashed_lines_in_unknown_language() {
    // Test for a language without tree-sitter support
    let before = r#"pub fn main() {
    let x = 1;
    let y = 2;
}"#;

    // Corrupted output with squashed lines
    let corrupted_after = r#"pub fn main() {+    let x = 1;+    let y = 2;+}"#;

    let result = validate_file_change(
        "main.xyz", // Unknown extension
        before,
        corrupted_after,
        None,
    );

    // The probe should catch unclosed delimiters
    assert!(
        !result.is_valid,
        "Expected invalid for corrupted code in unknown language"
    );
}

#[test]
fn test_valid_multiline_change_accepted() {
    // Ensure valid multi-line changes are still accepted
    let before = r#"fn process() {
    let x = 1;
    let y = 2;
}"#;

    let after = r#"fn process() {
    let x = 10;
    let y = 20;
}"#;

    let result = validate_file_change("process.rs", before, after, None);

    assert!(
        result.is_valid,
        "Expected valid for legitimate multi-line change"
    );
}
