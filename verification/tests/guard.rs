use apply_patch::language::SupportedLanguage;
use apply_patch::robustness::{
    check_conflict_markers, check_delimiter_balance, check_embedded_diff_markers,
    run_robustness_probe, RobustnessIssue,
};
use apply_patch::syntax_guard::{
    compute_error_delta, extract_errors, generate_diagnostics, validate_errors,
    validate_file_change, validate_file_change_simple, DiagnosticInfo, ErrorDelta, SyntaxError,
};
use apply_patch::transaction::{
    labelled_path, validate_added, AffectedPaths, FileOperation, OperationStep, PatchTransaction,
    PendingChange,
};

fn issue(line: usize, description: &str, evidence: &str) -> RobustnessIssue {
    RobustnessIssue {
        line,
        description: description.to_string(),
        evidence: evidence.to_string(),
    }
}

fn error(line: usize, column: usize, kind: &str, bytes: (usize, usize)) -> SyntaxError {
    SyntaxError {
        line,
        column,
        start_byte: bytes.0,
        end_byte: bytes.1,
        node_kind: Some(kind.to_string()),
        context: None,
    }
}

#[test]
fn delimiters_are_counted_outside_strings_and_comments() {
    assert_eq!(check_delimiter_balance("f(a[1], {2});\n"), Vec::new());
    assert_eq!(check_delimiter_balance("s = \"(\" // ]\n# }\n'it\\'s ('\n`{`\n"), Vec::new());
    assert_eq!(
        check_delimiter_balance("a {\n b ]\n"),
        vec![issue(
            1,
            "Mismatched delimiter: expected '[' to close '{' at line 1, found ']'",
            " b ]"
        )]
    );
    assert_eq!(
        check_delimiter_balance("x)\n(y\n"),
        vec![
            issue(0, "Unexpected closing delimiter ')' with no matching opener", "x)"),
            issue(1, "Unclosed delimiter '(' - missing ')'", "(y"),
        ]
    );
    assert_eq!(
        check_delimiter_balance("{\n[\n"),
        vec![
            issue(0, "Unclosed delimiter '{' - missing '}'", "{"),
            issue(1, "Unclosed delimiter '[' - missing ']'", "["),
        ]
    );
}

#[test]
fn conflict_markers_are_short_lines() {
    let long = format!("======= {}", "x".repeat(43));
    assert_eq!(long.len(), 51);
    let content = format!("<<<<<<< HEAD\nours\n  =======\n{}\n>>>>>>> theirs\n", long);
    assert_eq!(
        check_conflict_markers(&content),
        vec![
            issue(0, "Git conflict start marker", "<<<<<<< HEAD"),
            issue(2, "Git conflict separator marker", "  ======="),
        ]
    );
    let fits = &long[..50];
    assert_eq!(
        check_conflict_markers(fits),
        vec![issue(0, "Git conflict separator marker", fits)]
    );
}

#[test]
fn embedded_diff_markers_are_followed_by_code() {
    let squashed = "a;+    b();";
    assert_eq!(
        check_embedded_diff_markers(squashed),
        vec![issue(
            0,
            "Embedded diff marker detected - `+` character appears to be from malformed patch",
            squashed
        )]
    );
    assert_eq!(
        check_embedded_diff_markers("x\n}+ else {\n{+ let x"),
        vec![
            issue(
                1,
                "Embedded diff marker detected - `+` character after closing brace",
                "}+ else {"
            ),
            issue(
                2,
                "Embedded diff marker detected - `+` character after opening brace",
                "{+ let x"
            ),
        ]
    );
    assert_eq!(check_embedded_diff_markers("a;+b();\na;+ b\n"), Vec::new());
    assert_eq!(check_embedded_diff_markers("a;+ \u{4e2d}").len(), 1);
}

#[test]
fn the_probe_finds_what_its_parts_find() {
    let content = "(\n=======\na;+  bcd\n";
    let mut all = check_delimiter_balance(content);
    all.extend(check_conflict_markers(content));
    all.extend(check_embedded_diff_markers(content));
    assert_eq!(all.len(), 3);
    assert_eq!(run_robustness_probe(content), all);
}

#[test]
fn errors_count_by_place_and_kind() {
    let before = vec![error(1, 2, "ERROR", (10, 12)), error(3, 0, ";", (30, 30))];
    let after = vec![
        error(1, 2, "ERROR", (11, 13)),
        error(1, 2, ";", (11, 11)),
        error(8, 1, "ERROR", (80, 90)),
    ];
    let delta = compute_error_delta(&before, &after, None);
    assert_eq!(delta, ErrorDelta { new_errors: 2, fixed_errors: 1, net_change: 1 });
    assert!(delta.is_degradation());
    let delta = compute_error_delta(&before, &after, Some((80, 90)));
    assert_eq!(delta, ErrorDelta { new_errors: 1, fixed_errors: 1, net_change: 0 });
    assert!(!delta.is_degradation());
    let delta = compute_error_delta(&before, &after, Some((81, 90)));
    assert_eq!(delta, ErrorDelta { new_errors: 0, fixed_errors: 1, net_change: -1 });
    let undone = compute_error_delta(&after, &before, None);
    assert_eq!(undone, ErrorDelta { new_errors: 1, fixed_errors: 2, net_change: -1 });
    let same = compute_error_delta(&after, &after, None);
    assert_eq!(same, ErrorDelta { new_errors: 0, fixed_errors: 0, net_change: 0 });
}

#[test]
fn errors_outside_the_patch_are_no_degradation() {
    let after = vec![error(0, 0, "ERROR", (5, 9))];
    let inside =
        validate_errors("a.rs", SupportedLanguage::Rust, Vec::new(), after, Some((5, 9)));
    assert!(!inside.is_valid);
    let after = vec![error(0, 0, "ERROR", (4, 9))];
    let outside =
        validate_errors("a.rs", SupportedLanguage::Rust, Vec::new(), after, Some((5, 9)));
    assert!(outside.is_valid);
}

#[test]
fn changes_are_checked_with_the_grammar_or_the_probe() {
    let worse = validate_file_change("a.py", "x = 1\n", "x = (\n", None);
    assert_eq!(worse.language, SupportedLanguage::Python);
    assert!(!worse.is_valid);
    assert_eq!(Some(worse.after_errors), extract_errors("x = (\n", SupportedLanguage::Python));
    let probed = validate_file_change_simple("a.txt", "(\n", "(\n[\n").unwrap();
    assert_eq!(probed.language, SupportedLanguage::Unknown);
    assert_eq!(probed.error_delta, ErrorDelta { new_errors: 1, fixed_errors: 0, net_change: 1 });
    let expected = SyntaxError {
        line: 1,
        column: 0,
        start_byte: 0,
        end_byte: 0,
        node_kind: Some("ROBUSTNESS".to_string()),
        context: Some("[".to_string()),
    };
    assert_eq!(probed.after_errors[1], expected);
    let better = validate_file_change("a.rs", "fn f( {}\n", "fn f() {}\n", None);
    assert!(better.is_valid);
    assert!(better.error_delta.net_change < 0);
}

#[test]
fn diagnostics_tell_of_new_errors() {
    let mut unknown = error(4, 0, "", (0, 0));
    unknown.node_kind = None;
    unknown.context = Some("evidence".to_string());
    let validation = validate_errors(
        "dir/a.rs",
        SupportedLanguage::Rust,
        vec![error(9, 9, "ERROR", (0, 0))],
        vec![
            error(0, 2, "ERROR", (0, 0)),
            error(1, 0, ";", (0, 0)),
            error(9, 9, ";", (0, 0)),
            unknown,
        ],
        None,
    );
    let diagnostics = generate_diagnostics(&validation);
    let issues: Vec<&str> = diagnostics.iter().map(|d| d.issue.as_str()).collect();
    assert_eq!(
        issues,
        vec![
            "Syntax error at Line 1, Column 3",
            "Missing or unexpected ';' at Line 2, Column 1",
            "Unknown error at Line 5",
        ]
    );
    assert_eq!(
        diagnostics[0].to_text(),
        "Error: Syntax Integrity Check Failed\n\
         Path: dir/a.rs\n\
         Stage: syntax_guard\n\
         Tag: APPLY_PATCH_SYNTAX_GUARD\n\
         Language: Rust\n\
         Issue: Syntax error at Line 1, Column 3\n\
         Evidence: <no context available>\n\
         Suggestion: Check the evidence line for a missing delimiter or unexpected token \
         introduced by the patch. If the evidence line begins with a diff prefix, treat this \
         as a split false positive and capture a scenario before retrying.\n\
         Next action: Fix the syntax at the evidence line and rerun apply_patch. If this came \
         from builtin apply_patch, stop retrying and rerun with the apply_patch binary after \
         saving a scenario.\n"
    );
    assert_eq!(diagnostics[2].evidence, "evidence");
    let bare = DiagnosticInfo {
        path: "p".to_string(),
        language: None,
        stage: None,
        tag: None,
        context: Some("c".to_string()),
        issue: "i".to_string(),
        evidence: "e".to_string(),
        suggestion: "s".to_string(),
        next_action: None,
    };
    assert_eq!(
        bare.to_text(),
        "Error: Syntax Integrity Check Failed\nPath: p\nContext: c\nIssue: i\nEvidence: e\n\
         Suggestion: s\n"
    );
}

fn add(path: &str, content: &str) -> PendingChange {
    PendingChange::Add { path: path.to_string(), content: content.to_string() }
}

fn update(path: &str, from: &str, to: &str) -> PendingChange {
    PendingChange::Update {
        path: path.to_string(),
        original_content: from.to_string(),
        new_content: to.to_string(),
        patch_byte_range: None,
    }
}

#[test]
fn a_commit_covers_every_change() {
    let mut transaction = PatchTransaction::new();
    transaction.stage(add("n.txt", "new\n"));
    transaction.stage(update("u.txt", "a\n", "b\n"));
    transaction.stage(PendingChange::Delete {
        path: "d.txt".to_string(),
        original_content: "x".to_string(),
    });
    assert!(transaction.validate_all());
    assert!(transaction.get_failures().is_empty());
    let commit = transaction.commit();
    assert_eq!(
        commit.operations,
        vec![
            FileOperation::Create { path: "n.txt".to_string(), content: "new\n".to_string() },
            FileOperation::Overwrite { path: "u.txt".to_string(), content: "b\n".to_string() },
            FileOperation::Remove { path: "d.txt".to_string() },
        ]
    );
    assert_eq!(
        commit.affected,
        AffectedPaths {
            added: vec!["n.txt".to_string()],
            modified: vec!["u.txt".to_string()],
            deleted: vec!["d.txt".to_string()],
        }
    );
}

#[test]
fn one_bad_change_fails_all() {
    let mut transaction = PatchTransaction::default();
    transaction.stage(add("good.rs", "fn f() {}\n"));
    transaction.stage(add("bad.rs", "fn f( {\n"));
    transaction.stage(update("worse.txt", "()\n", "(\n"));
    assert!(!transaction.validate_all());
    let failed: Vec<String> =
        transaction.get_failures().iter().map(|(v, _)| v.path.clone()).collect();
    assert_eq!(failed, vec!["bad.rs", "worse.txt"]);
    for (validation, diagnostics) in transaction.get_failures() {
        let shown: Vec<String> = diagnostics.iter().map(|d| d.to_text()).collect();
        let expected: Vec<String> =
            generate_diagnostics(validation).iter().map(|d| d.to_text()).collect();
        assert_eq!(shown, expected);
        assert!(!shown.is_empty());
    }
    assert!(transaction.get_validations().iter().any(|v| v.is_valid));
    transaction.rollback();
}

#[test]
fn an_added_file_has_no_errors_to_start_from() {
    let added = validate_added(
        "a.rs",
        SupportedLanguage::Rust,
        vec![error(0, 0, "ERROR", (0, 1)), error(2, 0, ";", (9, 9))],
    );
    assert!(!added.is_valid);
    assert!(added.before_errors.is_empty());
    assert_eq!(added.error_delta, ErrorDelta { new_errors: 2, fixed_errors: 0, net_change: 2 });
    assert!(validate_added("a.rs", SupportedLanguage::Rust, Vec::new()).is_valid);
}

#[test]
fn failed_operations_are_named() {
    let create = FileOperation::Create { path: "a/b".to_string(), content: String::new() };
    assert_eq!(
        create.failure_text(OperationStep::Directories),
        "Failed to create parent directories for a/b"
    );
    assert_eq!(create.failure_text(OperationStep::File), "Failed to write file a/b");
    let remove = FileOperation::Remove { path: "c".to_string() };
    assert_eq!(remove.failure_text(OperationStep::File), "Failed to delete file c");
    assert_eq!(labelled_path("to ", "p"), "to p");
}
