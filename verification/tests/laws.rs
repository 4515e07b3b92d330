use apply_patch::indent::{correct_indentation, line_columns};
use apply_patch::seek_sequence::{
    find_actual_start_greedy, match_with_greedy_blank_tolerance, normalise, normalize_tokens,
    seek_sequence, seek_texts,
};

fn text(s: &str) -> Vec<char> {
    s.chars().collect()
}

fn texts(list: &[&str]) -> Vec<Vec<char>> {
    list.iter().map(|s| text(s)).collect()
}

fn strings(list: &[&str]) -> Vec<String> {
    list.iter().map(|s| s.to_string()).collect()
}

fn seek(lines: &[&str], pattern: &[&str], start: usize, eof: bool) -> Option<usize> {
    let found = seek_sequence(&strings(lines), &strings(pattern), start, eof);
    assert_eq!(found, seek_texts(&texts(lines), &texts(pattern), start, eof));
    found
}

#[test]
fn a_stricter_match_comes_first() {
    // Each line matches "a - b" under a looser comparison than the next one.
    let lines = ["a  -  b", "a \u{2013} b", "  a - b", "a - b  ", "a - b"];
    for n in (1..=lines.len()).rev() {
        assert_eq!(seek(&lines[..n], &["a - b"], 0, false), Some(n - 1));
    }
}

#[test]
fn a_match_starts_at_or_after_the_start() {
    let lines = ["foo()", "", "foo()", "bar()"];
    assert_eq!(seek(&lines, &["foo()", "", "bar()"], 1, false), Some(1));
    assert_eq!(seek(&lines, &["foo()", "", "bar()"], 0, false), Some(0));
    for start in 0..4 {
        if let Some(i) = seek(&lines, &["foo()"], start, false) {
            assert!(start <= i);
        }
    }
}

#[test]
fn the_end_is_tried_before_the_start() {
    let lines = ["x", "y", "x"];
    assert_eq!(seek(&lines, &["x"], 0, true), Some(2));
    assert_eq!(seek(&lines, &["x"], 0, false), Some(0));
    assert_eq!(seek(&lines, &["y"], 0, true), Some(1));
    assert_eq!(seek(&lines, &["z"], 0, true), None);
    // The end is not tried before the start.
    assert_eq!(seek(&lines, &["y", "x"], 2, true), None);
    assert_eq!(seek(&lines, &["y", "x"], 1, true), Some(1));
}

#[test]
fn patterns_that_need_no_search() {
    assert_eq!(seek(&["x"], &[], 7, false), Some(7));
    assert_eq!(seek(&["x"], &["x", "y"], 0, false), None);
    assert_eq!(seek(&["x", "y"], &[" ", ""], 5, false), Some(5));
}

#[test]
fn blank_lines_may_be_missing_or_extra() {
    let source = ["f {", "", "", "    a", "    b", "}"];
    assert_eq!(seek(&source, &["f {", "    a"], 0, false), Some(0));
    assert_eq!(
        match_with_greedy_blank_tolerance(&texts(&source), &texts(&["    a", "", "    b"]), 0),
        Some(1)
    );
    // A line that is indented less than the first one ends the search.
    let dedent = ["    a", "b"];
    assert_eq!(
        match_with_greedy_blank_tolerance(&texts(&dedent), &texts(&["    a", "", "    b"]), 0),
        None
    );
    let blanks = texts(&["a", "", "b"]);
    assert_eq!(find_actual_start_greedy(&blanks, 0, 1, &texts(&["a"])), 0);
    assert_eq!(find_actual_start_greedy(&blanks, 1, 1, &texts(&["a"])), 1);
    assert_eq!(find_actual_start_greedy(&blanks, 0, 9, &[]), 9);
}

#[test]
fn lines_are_compared_by_their_shapes() {
    let plain: String = normalise(&text(" \u{201c}a\u{201d} \u{2014} \u{2018}b\u{2019}\u{a0}c "))
        .iter()
        .collect();
    assert_eq!(plain, "\"a\" - 'b' c");
    assert_eq!(normalize_tokens(&text(" a \t b ")), text("a b"));
    assert_ne!(normalize_tokens(&text("a b")), normalize_tokens(&text("ab")));
}

#[test]
fn corrected_lines_keep_their_distances() {
    let lines = strings(&["\tif x:", "", "        y", "    z"]);
    let out = correct_indentation(&lines, 6, 0);
    assert_eq!(out, strings(&["      if x:", "", "          y", "      z"]));
    let columns = |s: &str| line_columns(&text(s), 4);
    assert_eq!(columns("\tif x:"), 4);
    assert_eq!(columns(" \t x"), 6);
    for (old, new) in lines.iter().zip(&out) {
        if !old.is_empty() {
            assert_eq!(columns(new), columns(old) - 4 + 6);
        }
    }
    assert_eq!(correct_indentation(&strings(&["  a", "   "]), 0, 9), strings(&["a", ""]));
}
