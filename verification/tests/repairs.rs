use apply_patch::diff_line::{
    normalize_context_closing_segment, split_squashed_diff_line, trim_to_diff_prefix,
    trim_trailing_prefix_if_squashed,
};
use apply_patch::file_marker::{
    contains_structural_marker_in_content, embedded_marker_in_diff_line, filename_from_path_prefix,
    find_best_split_for_file_marker, find_diff_prefix_split_for_file_marker,
    find_file_marker_candidates, find_marker_tail_split, find_whitespace_diff_prefix_split,
    first_diff_segment_after_prefix, last_path_separator_index, line_has_embedded_end_patch,
    marker_tail_needs_split, score_file_marker_split_candidate, split_missing_context_prefix_line,
};
use apply_patch::markers::{
    find_marker_boundary, find_structural_marker_boundary, is_code_char, is_hard_boundary,
    is_inside_string_literal, is_prefix_char, is_word_char,
};
use apply_patch::parser::{parse_patch, Hunk};
use apply_patch::patch_lines::{prefix_missing_diff_lines, truncate_after_end_patch};
use apply_patch::repair::{
    append_repaired_line, auto_repair_patch, contains_duplicate_context_line,
    insert_context_before_marker, needs_proactive_repair, repair_patch_line, RepairLine,
    RepairOrigin,
};
use std::collections::VecDeque;

fn text(s: &str) -> Vec<char> {
    s.chars().collect()
}

fn shown(s: &[char]) -> String {
    s.iter().collect()
}

fn split(line: &str) -> Option<Vec<String>> {
    split_squashed_diff_line(&text(line)).map(|list| list.iter().map(|l| shown(l)).collect())
}

fn pieces(list: &[&str]) -> Option<Vec<String>> {
    Some(list.iter().map(|s| s.to_string()).collect())
}

#[test]
fn characters_have_classes() {
    for c in ['a', 'Z', '0', '_'] {
        assert!(is_word_char(c) && is_code_char(c) && !is_prefix_char(c) && !is_hard_boundary(c));
    }
    for c in [';', '(', '"', '\u{e9}'] {
        assert!(!is_word_char(c) && is_code_char(c) && is_hard_boundary(c));
    }
    for c in ['+', '-'] {
        assert!(is_prefix_char(c) && !is_code_char(c) && !is_hard_boundary(c));
    }
    assert!(is_hard_boundary(' ') && !is_code_char(' '));
}

#[test]
fn diff_lines_start_at_their_prefix() {
    for (line, expected) in [
        ("  +a", Some("+a")),
        ("-", Some("-")),
        ("  a", Some("  a")),
        ("\ta", None),
        ("a", None),
        ("   ", None),
        ("", None),
    ] {
        assert_eq!(trim_to_diff_prefix(&text(line)).map(shown), expected.map(String::from));
    }
}

#[test]
fn trailing_prefixes_belong_to_the_next_line() {
    let cut = |line: &str, next: &str| {
        trim_trailing_prefix_if_squashed(&text(line), &text(next)).map(shown)
    };
    assert_eq!(cut("+code;+", "+more"), Some("+code;".to_string()));
    assert_eq!(cut("+code;+", "more"), None);
    assert_eq!(cut("+code; +", "+more"), None);
    assert_eq!(cut("+i++", "+more"), None);
    assert_eq!(cut("+", "+more"), None);
}

#[test]
fn squashed_lines_are_split() {
    assert_eq!(split("+a();+b();"), pieces(&["+a();", "+b();"]));
    assert_eq!(split("-old();+new();"), pieces(&["-old();", "+new();"]));
    assert_eq!(split(" ctx; +add"), pieces(&[" ctx;", "+add"]));
    assert_eq!(split("+a;++b;"), pieces(&["+a;", "+b;"]));
    assert_eq!(split("+a; @@ b"), None);
    assert_eq!(split("+a;*** Move to: b"), pieces(&["+a;", "*** Move to: b"]));
    // Closing characters between changes are context.
    assert_eq!(split("-}+)"), pieces(&[" }", " )"]));
}

#[test]
fn code_is_not_split() {
    for line in [
        "+x += 1",
        "+a + b",
        "+foo -> bar",
        "+well-known",
        "+a[-1]",
        "+\"a\"-\"b\"",
        "+a -b",
        "++a;+b",
        "+f(--- x);+y",
        "code;+more",
        " ctx +add",
        "+",
    ] {
        assert_eq!(split(line), None, "{}", line);
    }
}

#[test]
fn pieces_hold_no_more_than_the_line() {
    for line in ["+a();+b();", " ctx; +add", "+a;++b;", "+\u{e9};+\u{4e2d};"] {
        let list = split(line).unwrap();
        assert!(list.len() >= 2);
        assert!(list.iter().all(|l| !l.is_empty()));
        let total: usize = list.iter().map(|l| l.chars().count()).sum();
        assert!(total <= line.chars().count());
    }
}

#[test]
fn closing_lines_become_context() {
    let context = |s: &str| normalize_context_closing_segment(&text(s)).map(|v| shown(&v));
    assert_eq!(context("+  });"), Some("   });".to_string()));
    assert_eq!(context("-]"), Some(" ]".to_string()));
    assert_eq!(context("+x)"), None);
    assert_eq!(context("+ "), None);
    assert_eq!(context(" }"), None);
}

#[test]
fn statements_run_together_are_parted() {
    let parts = |s: &str| {
        split_missing_context_prefix_line(&text(s)).map(|(a, b)| (shown(&a), shown(&b)))
    };
    assert_eq!(
        parts("+let x = 1;    let y = 2;"),
        Some(("+let x = 1;".to_string(), "     let y = 2;".to_string()))
    );
    assert_eq!(parts("+a;#[x]"), Some(("+a;".to_string(), " #[x]".to_string())));
    assert_eq!(parts("-f()?  }"), Some(("-f()?".to_string(), "   }".to_string())));
    assert_eq!(parts("+a;b"), None);
    assert_eq!(parts("+a; b"), None);
    assert_eq!(parts("+a;  +b"), None);
    assert_eq!(parts("+a;  1"), None);
    assert_eq!(parts("+a;  @@ b"), None);
}

#[test]
fn markers_are_found() {
    assert_eq!(find_marker_boundary(&text("ab @@ *** End Patch")), Some(3));
    assert_eq!(find_marker_boundary(&text("x*** End Patch")), Some(1));
    assert_eq!(find_marker_boundary(&text("plain")), None);
    let structural = |s: &str| find_structural_marker_boundary(&text(s));
    assert_eq!(structural("foo(); @@ bar"), Some(7));
    assert_eq!(structural("x *** Add File: y"), None);
    assert_eq!(structural("x; *** Add File: y"), Some(3));
    assert_eq!(structural("word@@ y"), Some(4));
    assert_eq!(structural("@@ y"), None);
    assert_eq!(structural("x; *** End Patch"), None);
    assert_eq!(structural("\"; @@ \" x"), None);
    assert_eq!(structural("x; @@y"), None);
}

#[test]
fn quotes_are_followed() {
    let line = text("a \"b'\\\"c\" d 'e' `f`");
    for (i, inside) in [(0, false), (3, true), (7, true), (9, false), (13, true), (17, true), (99, false)] {
        assert_eq!(is_inside_string_literal(&line, i), inside, "{}", i);
    }
}

#[test]
fn paths_are_split_from_what_follows() {
    assert_eq!(last_path_separator_index(&text("a/b\\c")), Some(3));
    assert_eq!(last_path_separator_index(&text("abc")), None);
    assert_eq!(shown(filename_from_path_prefix(&text("a/b\\c"))), "c");
    assert_eq!(shown(filename_from_path_prefix(&text("abc"))), "abc");
    assert_eq!(shown(first_diff_segment_after_prefix(&text("a+bc d"), 1)), "bc");
    assert_eq!(shown(first_diff_segment_after_prefix(&text("a+"), 1)), "");

    let tail = text("src/a.rs+fn main()");
    assert_eq!(find_file_marker_candidates(&tail, &['+']), vec![8]);
    assert_eq!(score_file_marker_split_candidate(&tail, 8), Some(2));
    assert_eq!(score_file_marker_split_candidate(&tail, 0), None);
    assert_eq!(find_best_split_for_file_marker(&tail, &['+'], 2), Some(8));
    assert_eq!(find_best_split_for_file_marker(&tail, &['+'], 3), None);
    assert_eq!(find_diff_prefix_split_for_file_marker(&tail), Some(8));

    // A squashed tail is worth three, and no extension costs four where a file name follows.
    assert_eq!(score_file_marker_split_candidate(&text("a.rs+x;+y;"), 4), Some(5));
    assert_eq!(score_file_marker_split_candidate(&text("a+b.rs;+y;"), 1), Some(-1));
    assert_eq!(score_file_marker_split_candidate(&text("a+b.rs"), 1), None);
    assert_eq!(score_file_marker_split_candidate(&text("a b.+x"), 4), Some(-1));

    assert_eq!(find_diff_prefix_split_for_file_marker(&text("a.rs-old")), Some(4));
    assert_eq!(find_diff_prefix_split_for_file_marker(&text("a.rs-old+new")), Some(4));
    assert_eq!(find_diff_prefix_split_for_file_marker(&text("a-b.rs")), None);
    assert_eq!(find_whitespace_diff_prefix_split(&text("a.rs +x")), Some(5));
    assert_eq!(find_whitespace_diff_prefix_split(&text("ab +x")), None);
    assert_eq!(find_marker_tail_split(&text("a.rs@@ +x")), Some(7));
    assert_eq!(find_marker_tail_split(&text("a.rs@@x")), Some(4));
    assert_eq!(find_marker_tail_split(&text("a.rs")), None);
}

#[test]
fn lines_that_need_repair() {
    assert!(marker_tail_needs_split(&text("*** Update File: a.rs+code")));
    assert!(!marker_tail_needs_split(&text("*** Update File: a.rs")));
    assert!(!marker_tail_needs_split(&text("*** Update File:  ")));
    assert!(line_has_embedded_end_patch(&text("x*** End Patch")));
    assert!(!line_has_embedded_end_patch(&text("+x*** End Patch")));
    assert!(!line_has_embedded_end_patch(&text(" *** End Patch ")));
    assert!(needs_proactive_repair("+a\n+b;+c;\n"));
    assert!(needs_proactive_repair("+a;+\n+b\n"));
    assert!(!needs_proactive_repair("+a;+\nb\n"));
    assert_eq!(
        contains_structural_marker_in_content(&text("x *** Move to: y")),
        Some("*** Move to: ")
    );
    assert_eq!(contains_structural_marker_in_content(&text("x @@ y")), None);
    assert_eq!(
        embedded_marker_in_diff_line("*** Begin Patch\n+a *** End Patch\n"),
        Some("*** End Patch")
    );
    assert_eq!(embedded_marker_in_diff_line("*** Begin Patch\n+a\n*** End Patch"), None);
}

fn line(s: &str, origin: RepairOrigin) -> RepairLine {
    RepairLine { text: text(s), origin }
}

fn queue_of(list: &[(&str, RepairOrigin)]) -> VecDeque<RepairLine> {
    list.iter().map(|(s, origin)| line(s, *origin)).collect()
}

fn queued(queue: &VecDeque<RepairLine>) -> Vec<String> {
    queue.iter().map(|l| shown(&l.text)).collect()
}

#[test]
fn context_goes_before_markers_and_original_changes() {
    let mut queue = queue_of(&[
        ("+a", RepairOrigin::TailSplit),
        (" b", RepairOrigin::Original),
        ("+c", RepairOrigin::Original),
        ("@@", RepairOrigin::Original),
    ]);
    insert_context_before_marker(&mut queue, text(" new"));
    assert_eq!(queued(&queue), vec!["+a", " b", " new", "+c", "@@"]);
    assert_eq!(queue[2].origin, RepairOrigin::TailSplit);
    for marker in ["*** End of File", "*** Begin Patch", "*** End Patch", "*** Move to: b"] {
        let mut queue = queue_of(&[
            ("+a", RepairOrigin::TailSplit),
            (marker, RepairOrigin::Original),
        ]);
        insert_context_before_marker(&mut queue, text(" new"));
        assert_eq!(queued(&queue), vec!["+a", " new", marker]);
    }
    let mut queue = queue_of(&[("+a", RepairOrigin::TailSplit)]);
    insert_context_before_marker(&mut queue, text(" new"));
    assert_eq!(queued(&queue), vec!["+a", " new"]);
}

#[test]
fn repeated_context_is_found() {
    assert!(contains_duplicate_context_line(&text(" ctx\n+a\n-b\n"), &text(" ctx")));
    assert!(!contains_duplicate_context_line(&text(" ctx\n other\n+a\n"), &text(" ctx")));
    assert!(!contains_duplicate_context_line(&text("+a\n"), &text(" ctx")));
    assert!(contains_duplicate_context_line(&text("+ ctx\n"), &text("ctx")));
}

#[test]
fn repaired_lines_go_out_or_back_into_the_queue() {
    let mut out: Vec<char> = Vec::new();
    let mut queue: VecDeque<RepairLine> = VecDeque::new();
    append_repaired_line(&mut out, &line("  +a;+b;  ", RepairOrigin::Original), &mut queue);
    assert_eq!(shown(&out), "");
    assert_eq!(queued(&queue), vec!["+a;", "+b;"]);
    let first = queue.pop_front().unwrap();
    append_repaired_line(&mut out, &first, &mut queue);
    assert_eq!(shown(&out), "+a;\n");
    repair_patch_line(&mut out, &line("plain  ", RepairOrigin::Original), &mut queue);
    assert_eq!(shown(&out), "+a;\nplain\n");
}

#[test]
fn what_follows_the_first_end_is_cut_off() {
    let cut = |s: &str| shown(&truncate_after_end_patch(&text(s)));
    assert_eq!(cut("a\n *** End Patch\nb\n*** End Patch\nc"), "a\n *** End Patch\n");
    assert_eq!(cut("a\n*** End Patch\nb"), "a\n*** End Patch\nb");
}

#[test]
fn missing_prefixes_are_filled_in() {
    let fill = |s: &str| shown(&prefix_missing_diff_lines(&text(s)));
    let patch = "*** Begin Patch\n*** Add File: a\nx\n\n*** Update File: b\n@@\n\ny\n z\nw\n-v\n\nu\n\
                 *** Delete File: c\nt\n  *** End Patch\n";
    let filled = "*** Begin Patch\n*** Add File: a\n+x\n+\n*** Update File: b\n@@\n\n+y\n z\n w\n\
                  -v\n-\n+u\n*** Delete File: c\nt\n*** End Patch\n";
    assert_eq!(fill(patch), filled);
    // Once is enough.
    assert_eq!(fill(filled), filled);
}

#[test]
fn a_squashed_patch_is_repaired_and_read() {
    let patch = "*** Begin Patch\n*** Update File: a.txt\n@@\n-old();+new();\n*** End Patch\n";
    assert_eq!(
        auto_repair_patch(patch),
        "*** Begin Patch\n*** Update File: a.txt\n@@\n-old();\n+new();\n*** End Patch\n"
    );
    match &parse_patch(patch).unwrap().hunks[0] {
        Hunk::UpdateFile { chunks, .. } => {
            assert_eq!(chunks[0].old_lines, vec!["old();"]);
            assert_eq!(chunks[0].new_lines, vec!["new();"]);
        }
        other => panic!("unexpected {:?}", other),
    }
}
