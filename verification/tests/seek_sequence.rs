use apply_patch::seek_sequence::seek_sequence;
use std::string::ToString;

fn to_vec(strings: &[&str]) -> Vec<String> {
    strings.iter().map(ToString::to_string).collect()
}

#[test]
fn test_exact_match_finds_sequence() {
    let lines = to_vec(&["foo", "bar", "baz"]);
    let pattern = to_vec(&["bar", "baz"]);
    assert_eq!(seek_sequence(&lines, &pattern, 0, false), Some(1));
}

#[test]
fn test_rstrip_match_ignores_trailing_whitespace() {
    let lines = to_vec(&["foo   ", "bar\t\t"]);
    // Pattern omits trailing whitespace.
    let pattern = to_vec(&["foo", "bar"]);
    assert_eq!(seek_sequence(&lines, &pattern, 0, false), Some(0));
}

#[test]
fn test_trim_match_ignores_leading_and_trailing_whitespace() {
    let lines = to_vec(&["    foo   ", "   bar\t"]);
    // Pattern omits any additional whitespace.
    let pattern = to_vec(&["foo", "bar"]);
    assert_eq!(seek_sequence(&lines, &pattern, 0, false), Some(0));
}

#[test]
fn test_pattern_longer_than_input_returns_none() {
    let lines = to_vec(&["just one line"]);
    let pattern = to_vec(&["too", "many", "lines"]);
    // Should not panic – must return None when pattern cannot possibly fit.
    assert_eq!(seek_sequence(&lines, &pattern, 0, false), None);
}

#[test]
fn test_token_match_ignores_all_whitespace() {
    // Source has multiple spaces between tokens
    let lines = to_vec(&["let  x  =  1"]);
    // Pattern has minimal spaces (same token structure)
    let pattern = to_vec(&["let x = 1"]);
    assert_eq!(seek_sequence(&lines, &pattern, 0, false), Some(0));
}

#[test]
fn test_token_match_handles_tabs() {
    // Source uses tabs
    let lines = to_vec(&["let\tx\t=\t1"]);
    // Pattern uses spaces
    let pattern = to_vec(&["let x = 1"]);
    assert_eq!(seek_sequence(&lines, &pattern, 0, false), Some(0));
}

#[test]
fn test_token_match_mixed_whitespace() {
    // Source has mixed tabs and spaces
    let lines = to_vec(&["fn  foo ( ) \t {"]);
    // Pattern normalized (same token structure)
    let pattern = to_vec(&["fn foo ( ) {"]);
    assert_eq!(seek_sequence(&lines, &pattern, 0, false), Some(0));
}

#[test]
fn test_token_match_multiline() {
    // Both have same token structure with different whitespace
    let lines = to_vec(&["let  x = 1", "let  y = 2"]);
    let pattern = to_vec(&["let x = 1", "let y = 2"]);
    assert_eq!(seek_sequence(&lines, &pattern, 0, false), Some(0));
}

#[test]
fn test_token_match_only_after_strict_passes_fail() {
    // Verify that exact match is still preferred
    let lines = to_vec(&["let x = 1"]);
    let pattern = to_vec(&["let x = 1"]);
    // Should match exactly, not via token normalization
    assert_eq!(seek_sequence(&lines, &pattern, 0, false), Some(0));
}

#[test]
fn test_blank_line_tolerance_single() {
    // Source has one blank line between code lines
    let lines = to_vec(&["foo", "", "bar"]);
    // Pattern has no blank line
    let pattern = to_vec(&["foo", "bar"]);
    assert_eq!(seek_sequence(&lines, &pattern, 0, false), Some(0));
}

#[test]
fn test_blank_line_tolerance_multiple() {
    // Source has two blank lines (within limit)
    let lines = to_vec(&["foo", "", "", "bar"]);
    // Pattern has no blank lines
    let pattern = to_vec(&["foo", "bar"]);
    assert_eq!(seek_sequence(&lines, &pattern, 0, false), Some(0));
}

#[test]
fn test_blank_line_tolerance_at_end() {
    // Source has blank line at end
    let lines = to_vec(&["foo", "bar", ""]);
    // Pattern has no trailing blank
    let pattern = to_vec(&["foo", "bar"]);
    assert_eq!(seek_sequence(&lines, &pattern, 0, false), Some(0));
}

#[test]
fn test_blank_line_tolerance_in_pattern() {
    // Source and pattern both have blank line
    let lines = to_vec(&["foo", "", "bar"]);
    let pattern = to_vec(&["foo", "", "bar"]);
    // Should match exactly
    assert_eq!(seek_sequence(&lines, &pattern, 0, false), Some(0));
}

#[test]
fn test_blank_line_tolerance_with_code_context() {
    // Realistic case: function with blank lines
    let lines = to_vec(&["fn main() {", "    let x = 1;", "", "    let y = 2;", "}"]);
    let pattern = to_vec(&["fn main() {", "    let x = 1;", "    let y = 2;", "}"]);
    assert_eq!(seek_sequence(&lines, &pattern, 0, false), Some(0));
}

#[test]
fn test_greedy_blank_tolerance_many_blanks() {
    let lines = to_vec(&["foo", "", "", "", "", "", "bar"]);
    // Pattern has no blank lines
    let pattern = to_vec(&["foo", "bar"]);
    assert_eq!(seek_sequence(&lines, &pattern, 0, false), Some(0));
}

#[test]
fn test_greedy_blank_tolerance_llm_hallucination() {
    let lines = to_vec(&[
        "fn process() {",
        "",
        "",
        "",
        "    let x = 1;",
        "",
        "",
        "    let y = 2;",
        "}",
    ]);
    let pattern = to_vec(&["fn process() {", "let x = 1;", "let y = 2;", "}"]);
    assert_eq!(seek_sequence(&lines, &pattern, 0, false), Some(0));
}

#[test]
fn test_greedy_blank_tolerance_preserves_exact_match_priority() {
    // When exact match exists, should still prefer it over fuzzy match
    let lines = to_vec(&["foo", "", "bar"]);
    let pattern = to_vec(&["foo", "", "bar"]);
    // Should match exactly (not through greedy blank tolerance)
    assert_eq!(seek_sequence(&lines, &pattern, 0, false), Some(0));
}

#[test]
fn test_greedy_blank_tolerance_interleaved() {
    // Blank lines in both source and pattern at different positions
    let lines = to_vec(&["a", "", "", "b", "", "c"]);
    let pattern = to_vec(&["a", "b", "c"]);
    assert_eq!(seek_sequence(&lines, &pattern, 0, false), Some(0));
}

#[test]
fn test_logical_barrier_stops_at_dedent() {
    // Two functions separated by dedent
    let lines = to_vec(&[
        "fn outer() {",
        "    fn inner() {",
        "        let x = 1;",
        "    }",
        "",
        "    let y = 2;",  // Back to outer's indent
    ]);
    // Pattern for inner function - should NOT match across the dedent
    let pattern = to_vec(&["fn inner() {", "let y = 2;"]);
    // Should NOT match because there's a dedent between them
    assert_eq!(seek_sequence(&lines, &pattern, 0, false), None);
}

#[test]
fn test_logical_barrier_allows_same_indent() {
    // Lines at same indent level should still match
    let lines = to_vec(&[
        "fn foo() {",
        "",
        "",
        "    let x = 1;",
        "",
        "    let y = 2;",
        "}",
    ]);
    let pattern = to_vec(&["let x = 1;", "let y = 2;"]);
    // Should match - greedy blank tolerance starts at index 1 (blank line)
    // and skips to find "let x = 1" at index 3
    // Both source lines are at indent 4, which is >= base_indent (0 from pattern)
    assert_eq!(seek_sequence(&lines, &pattern, 0, false), Some(1));
}

#[test]
fn test_logical_barrier_at_function_boundary() {
    // Two separate functions
    let lines = to_vec(&[
        "fn first() {",
        "    let x = 1;",
        "}",
        "",
        "fn second() {",
        "    let y = 2;",
        "}",
    ]);
    // Pattern looking for first function body + second function declaration
    // Should NOT match because they're in different scopes
    let pattern = to_vec(&["let x = 1;", "fn second() {"]);
    assert_eq!(seek_sequence(&lines, &pattern, 0, false), None);
}
