use apply_patch::apply::{apply_patch, refuse_operation, unified_diff_from_chunks};
use apply_patch::apply::{ApplyPatchFileUpdate, FileSnapshot, Refused};
use apply_patch::indent::{
    correct_indentation, detect_indent_style, detect_indentation, detect_indentation_columns,
    IndentStyle,
};
use apply_patch::parser::{parse_patch, Hunk};
use apply_patch::transaction::{FileOperation, OperationStep};
use std::collections::BTreeMap;

/// Files in memory, some of which cannot be written.
struct Disk {
    files: BTreeMap<String, String>,
    read_only: Vec<String>,
}

impl Disk {
    fn new() -> Self {
        Disk { files: BTreeMap::new(), read_only: Vec::new() }
    }

    fn write(&mut self, path: &str, contents: &str) {
        self.files.insert(path.to_string(), contents.to_string());
    }

    fn read(&self, path: &str) -> String {
        self.files[path].clone()
    }

    fn holds(&self, path: &str) -> bool {
        self.files.contains_key(path)
    }

    fn snapshot(&self) -> FileSnapshot {
        let mut out = FileSnapshot::new();
        for (path, contents) in &self.files {
            out.insert(path, Ok(contents.clone()));
        }
        out
    }

    /// Applies a patch to the files, and returns what is said.
    fn apply_patch(&mut self, patch: &str) -> Result<(String, String), Refused> {
        let applied = apply_patch(patch, &self.snapshot())?;
        for operation in &applied.commit.operations {
            let (path, contents) = match operation {
                FileOperation::Create { path, content } => (path, Some(content)),
                FileOperation::Overwrite { path, content } => (path, Some(content)),
                FileOperation::Remove { path } => (path, None),
            };
            if self.read_only.contains(path) {
                return Err(refuse_operation(
                    operation,
                    OperationStep::File,
                    "Permission denied (os error 13)",
                ));
            }
            match contents {
                Some(text) => {
                    self.files.insert(path.clone(), text.clone());
                }
                None => {
                    self.files.remove(path);
                }
            }
        }
        Ok((applied.stdout, String::new()))
    }
}

/// Helper to construct a patch with the given body.
fn wrap_patch(body: &str) -> String {
    format!("*** Begin Patch\n{body}\n*** End Patch")
}

#[test]
fn test_add_file_hunk_creates_file_with_contents() {
    let mut disk = Disk::new();
    let path = "/work/add.txt";
    let patch = wrap_patch(&format!(
        r#"*** Add File: {}
+ab
+cd"#,
        path
    ));
    let (stdout_str, stderr_str) = disk.apply_patch(&patch).unwrap();
    // Verify expected stdout and stderr outputs.
    let expected_out = format!(
        "Success. Updated the following files:\nA {}\n",
        path
    );
    assert_eq!(stdout_str, expected_out);
    assert_eq!(stderr_str, "");
    let contents = disk.read(path);
    assert_eq!(contents, "ab\ncd\n");
}

#[test]
fn test_delete_file_hunk_removes_file() {
    let mut disk = Disk::new();
    let path = "/work/del.txt";
    disk.write(path, "x");
    let patch = wrap_patch(&format!("*** Delete File: {}", path));
    let (stdout_str, stderr_str) = disk.apply_patch(&patch).unwrap();
    let expected_out = format!(
        "Success. Updated the following files:\nD {}\n",
        path
    );
    assert_eq!(stdout_str, expected_out);
    assert_eq!(stderr_str, "");
    assert!(!disk.holds(path));
}

#[test]
fn test_update_file_hunk_modifies_content() {
    let mut disk = Disk::new();
    let path = "/work/update.txt";
    disk.write(path, "foo\nbar\n");
    let patch = wrap_patch(&format!(
        r#"*** Update File: {}
@@
 foo
-bar
+baz"#,
        path
    ));
    let (stdout_str, stderr_str) = disk.apply_patch(&patch).unwrap();
    // Validate modified file contents and expected stdout/stderr.
    let expected_out = format!(
        "Success. Updated the following files:\nM {}\n",
        path
    );
    assert_eq!(stdout_str, expected_out);
    assert_eq!(stderr_str, "");
    let contents = disk.read(path);
    assert_eq!(contents, "foo\nbaz\n");
}

#[test]
fn test_update_file_hunk_can_move_file() {
    let mut disk = Disk::new();
    let src = "/work/src.txt";
    let dest = "/work/dst.txt";
    disk.write(src, "line\n");
    let patch = wrap_patch(&format!(
        r#"*** Update File: {}
*** Move to: {}
@@
-line
+line2"#,
        src,
        dest
    ));
    let (stdout_str, stderr_str) = disk.apply_patch(&patch).unwrap();
    // Validate move semantics and expected stdout/stderr.
    let expected_out = format!(
        "Success. Updated the following files:\nA {}\nD {}\n",
        dest,
        src
    );
    assert_eq!(stdout_str, expected_out);
    assert_eq!(stderr_str, "");
    assert!(!disk.holds(src));
    let contents = disk.read(dest);
    assert_eq!(contents, "line2\n");
}

/// Verify that a single `Update File` hunk with multiple change chunks can update different
/// parts of a file and that the file is listed only once in the summary.
#[test]
fn test_multiple_update_chunks_apply_to_single_file() {
    // Start with a file containing four lines.
    let mut disk = Disk::new();
    let path = "/work/multi.txt";
    disk.write(path, "foo\nbar\nbaz\nqux\n");
    // Construct an update patch with two separate change chunks.
    // The first chunk uses the line `foo` as context and transforms `bar` into `BAR`.
    // The second chunk uses `baz` as context and transforms `qux` into `QUX`.
    let patch = wrap_patch(&format!(
        r#"*** Update File: {}
@@
 foo
-bar
+BAR
@@
 baz
-qux
+QUX"#,
        path
    ));
    let (stdout_str, stderr_str) = disk.apply_patch(&patch).unwrap();
    let expected_out = format!(
        "Success. Updated the following files:\nM {}\n",
        path
    );
    assert_eq!(stdout_str, expected_out);
    assert_eq!(stderr_str, "");
    let contents = disk.read(path);
    assert_eq!(contents, "foo\nBAR\nbaz\nQUX\n");
}

/// A more involved `Update File` hunk that exercises additions, deletions and
/// replacements in separate chunks that appear in non‑adjacent parts of the
/// file.  Verifies that all edits are applied and that the summary lists the
/// file only once.
#[test]
fn test_update_file_hunk_interleaved_changes() {
    let mut disk = Disk::new();
    let path = "/work/interleaved.txt";

    // Original file: six numbered lines.
    disk.write(path, "a\nb\nc\nd\ne\nf\n");

    // Patch performs:
    //  • Replace `b` → `B`
    //  • Replace `e` → `E` (using surrounding context)
    //  • Append new line `g` at the end‑of‑file
    let patch = wrap_patch(&format!(
        r#"*** Update File: {}
@@
 a
-b
+B
@@
 c
 d
-e
+E
@@
 f
+g
*** End of File"#,
        path
    ));
    let (stdout_str, stderr_str) = disk.apply_patch(&patch).unwrap();

    let expected_out = format!(
        "Success. Updated the following files:\nM {}\n",
        path
    );
    assert_eq!(stdout_str, expected_out);
    assert_eq!(stderr_str, "");

    let contents = disk.read(path);
    assert_eq!(contents, "a\nB\nc\nd\nE\nf\ng\n");
}

#[test]
fn test_pure_addition_chunk_followed_by_removal() {
    let mut disk = Disk::new();
    let path = "/work/panic.txt";
    disk.write(path, "line1\nline2\nline3\n");
    let patch = wrap_patch(&format!(
        r#"*** Update File: {}
@@
+after-context
+second-line
@@
 line1
-line2
-line3
+line2-replacement"#,
        path
    ));
    let (stdout_str, stderr_str) = disk.apply_patch(&patch).unwrap();
    let contents = disk.read(path);
    assert_eq!(
        contents,
        "line1\nline2-replacement\nafter-context\nsecond-line\n"
    );
}

/// Ensure that patches authored with ASCII characters can update lines that
/// contain typographic Unicode punctuation.
#[test]
fn test_update_line_with_unicode_dash() {
    let mut disk = Disk::new();
    let path = "/work/unicode.py";

    // Original line contains EN DASH (\u{2013}) and NON-BREAKING HYPHEN (\u{2011}).
    let original = "import asyncio  # local import \u{2013} avoids top\u{2011}level dep\n";
    disk.write(path, original);

    // Patch uses plain ASCII dash / hyphen.
    let patch = wrap_patch(&format!(
        r#"*** Update File: {}
@@
-import asyncio  # local import - avoids top-level dep
+import asyncio  # HELLO"#,
        path
    ));
    let (stdout_str, stderr_str) = disk.apply_patch(&patch).unwrap();

    // File should now contain the replaced comment.
    let expected = "import asyncio  # HELLO\n";
    let contents = disk.read(path);
    assert_eq!(contents, expected);

    // Ensure success summary lists the file as modified.
    let expected_out = format!(
        "Success. Updated the following files:\nM {}\n",
        path
    );
    assert_eq!(stdout_str, expected_out);

    // No stderr expected.
    assert_eq!(stderr_str, "");
}

#[test]
fn test_unified_diff() {
    // Start with a file containing four lines.
    let mut disk = Disk::new();
    let path = "/work/multi.txt";
    disk.write(path, "foo\nbar\nbaz\nqux\n");
    let patch = wrap_patch(&format!(
        r#"*** Update File: {}
@@
 foo
-bar
+BAR
@@
 baz
-qux
+QUX"#,
        path
    ));
    let patch = parse_patch(&patch).unwrap();

    let update_file_chunks = match patch.hunks.as_slice() {
        [Hunk::UpdateFile { chunks, .. }] => chunks,
        _ => panic!("Expected a single UpdateFile hunk"),
    };
    let diff = unified_diff_from_chunks(path, update_file_chunks, &disk.snapshot()).unwrap();
    let expected_diff = r#"@@ -1,4 +1,4 @@
 foo
-bar
+BAR
 baz
-qux
+QUX
"#;
    let expected = ApplyPatchFileUpdate {
        unified_diff: expected_diff.to_string(),
        content: "foo\nBAR\nbaz\nQUX\n".to_string(),
    };
    assert_eq!(expected, diff);
}

#[test]
fn test_unified_diff_first_line_replacement() {
    // Replace the very first line of the file.
    let mut disk = Disk::new();
    let path = "/work/first.txt";
    disk.write(path, "foo\nbar\nbaz\n");

    let patch = wrap_patch(&format!(
        r#"*** Update File: {}
@@
-foo
+FOO
 bar"#,
        path
    ));

    let patch = parse_patch(&patch).unwrap();
    let chunks = match patch.hunks.as_slice() {
        [Hunk::UpdateFile { chunks, .. }] => chunks,
        _ => panic!("Expected a single UpdateFile hunk"),
    };

    let diff = unified_diff_from_chunks(path, chunks, &disk.snapshot()).unwrap();
    let expected_diff = r#"@@ -1,2 +1,2 @@
-foo
+FOO
 bar
"#;
    let expected = ApplyPatchFileUpdate {
        unified_diff: expected_diff.to_string(),
        content: "FOO\nbar\nbaz\n".to_string(),
    };
    assert_eq!(expected, diff);
}

#[test]
fn test_unified_diff_last_line_replacement() {
    // Replace the very last line of the file.
    let mut disk = Disk::new();
    let path = "/work/last.txt";
    disk.write(path, "foo\nbar\nbaz\n");

    let patch = wrap_patch(&format!(
        r#"*** Update File: {}
@@
 foo
 bar
-baz
+BAZ
"#,
        path
    ));

    let patch = parse_patch(&patch).unwrap();
    let chunks = match patch.hunks.as_slice() {
        [Hunk::UpdateFile { chunks, .. }] => chunks,
        _ => panic!("Expected a single UpdateFile hunk"),
    };

    let diff = unified_diff_from_chunks(path, chunks, &disk.snapshot()).unwrap();
    let expected_diff = r#"@@ -2,2 +2,2 @@
 bar
-baz
+BAZ
"#;
    let expected = ApplyPatchFileUpdate {
        unified_diff: expected_diff.to_string(),
        content: "foo\nbar\nBAZ\n".to_string(),
    };
    assert_eq!(expected, diff);
}

#[test]
fn test_unified_diff_insert_at_eof() {
    // Insert a new line at end‑of‑file.
    let mut disk = Disk::new();
    let path = "/work/insert.txt";
    disk.write(path, "foo\nbar\nbaz\n");

    let patch = wrap_patch(&format!(
        r#"*** Update File: {}
@@
+quux
*** End of File
"#,
        path
    ));

    let patch = parse_patch(&patch).unwrap();
    let chunks = match patch.hunks.as_slice() {
        [Hunk::UpdateFile { chunks, .. }] => chunks,
        _ => panic!("Expected a single UpdateFile hunk"),
    };

    let diff = unified_diff_from_chunks(path, chunks, &disk.snapshot()).unwrap();
    let expected_diff = r#"@@ -3 +3,2 @@
 baz
+quux
"#;
    let expected = ApplyPatchFileUpdate {
        unified_diff: expected_diff.to_string(),
        content: "foo\nbar\nbaz\nquux\n".to_string(),
    };
    assert_eq!(expected, diff);
}

#[test]
fn test_unified_diff_interleaved_changes() {
    // Original file with six lines.
    let mut disk = Disk::new();
    let path = "/work/interleaved.txt";
    disk.write(path, "a\nb\nc\nd\ne\nf\n");

    // Patch replaces two separate lines and appends a new one at EOF using
    // three distinct chunks.
    let patch_body = format!(
        r#"*** Update File: {}
@@
 a
-b
+B
@@
 d
-e
+E
@@
 f
+g
*** End of File"#,
        path
    );
    let patch = wrap_patch(&patch_body);

    // Extract chunks then build the unified diff.
    let parsed = parse_patch(&patch).unwrap();
    let chunks = match parsed.hunks.as_slice() {
        [Hunk::UpdateFile { chunks, .. }] => chunks,
        _ => panic!("Expected a single UpdateFile hunk"),
    };

    let diff = unified_diff_from_chunks(path, chunks, &disk.snapshot()).unwrap();

    let expected_diff = r#"@@ -1,6 +1,7 @@
 a
-b
+B
 c
 d
-e
+E
 f
+g
"#;

    let expected = ApplyPatchFileUpdate {
        unified_diff: expected_diff.to_string(),
        content: "a\nB\nc\nd\nE\nf\ng\n".to_string(),
    };

    assert_eq!(expected, diff);
    let (stdout_str, stderr_str) = disk.apply_patch(&patch).unwrap();
    let contents = disk.read(path);
    assert_eq!(
        contents,
        r#"a
B
c
d
E
f
g
"#
    );
}

#[test]
fn test_apply_patch_fails_on_write_error() {
    let mut disk = Disk::new();
    let path = "/work/readonly.txt";
    disk.write(path, "before\n");
    disk.read_only.push(path.to_string());

    let patch = wrap_patch(&format!(
        "*** Update File: {}\n@@\n-before\n+after\n*** End Patch",
        path
    ));

    let result = disk.apply_patch(&patch);
    assert!(result.is_err());
}

#[test]
fn test_detect_indentation_zero() {
    assert_eq!(detect_indentation("let x = 1;"), 0);
}

#[test]
fn test_detect_indentation_four_spaces() {
    assert_eq!(detect_indentation("    let x = 1;"), 4);
}

#[test]
fn test_detect_indentation_eight_spaces() {
    assert_eq!(detect_indentation("        let x = 1;"), 8);
}

#[test]
fn test_indentation_correction_adds_spaces() {
    // Convert 0-space indent to 4-space indent
    let new_lines = vec![
        "fn foo() {".to_string(),
        "    let x = 1;".to_string(),
        "}".to_string(),
    ];
    let corrected = correct_indentation(&new_lines, 4, 0);
    assert_eq!(corrected[0], "    fn foo() {");
    assert_eq!(corrected[1], "        let x = 1;");
    assert_eq!(corrected[2], "    }");
}

#[test]
fn test_indentation_correction_removes_spaces() {
    // Convert 8-space indent to 4-space indent
    let new_lines = vec![
        "        fn foo() {".to_string(),
        "            let x = 1;".to_string(),
        "        }".to_string(),
    ];
    let corrected = correct_indentation(&new_lines, 4, 8);
    assert_eq!(corrected[0], "    fn foo() {");
    assert_eq!(corrected[1], "        let x = 1;");
    assert_eq!(corrected[2], "    }");
}

#[test]
fn test_indentation_preserves_relative() {
    // Inner blocks should maintain relative indent
    // Pattern: 0, 4, 8 spaces -> target 4, should become 4, 8, 12
    let new_lines = vec![
        "fn outer() {".to_string(),
        "    fn inner() {".to_string(),
        "        let x = 1;".to_string(),
        "    }".to_string(),
        "}".to_string(),
    ];
    let corrected = correct_indentation(&new_lines, 4, 0);
    assert_eq!(corrected[0], "    fn outer() {");
    assert_eq!(corrected[1], "        fn inner() {");
    assert_eq!(corrected[2], "            let x = 1;");
    assert_eq!(corrected[3], "        }");
    assert_eq!(corrected[4], "    }");
}

#[test]
fn test_indentation_empty_lines() {
    // Empty lines should remain empty (no spaces added)
    let new_lines = vec!["    let x = 1;".to_string(), "".to_string(), "    let y = 2;".to_string()];
    let corrected = correct_indentation(&new_lines, 2, 4);
    assert_eq!(corrected[0], "  let x = 1;");
    assert_eq!(corrected[1], ""); // Empty line stays empty
    assert_eq!(corrected[2], "  let y = 2;");
}

#[test]
fn test_indentation_whitespace_only_lines() {
    // Lines that are only whitespace should become empty
    let new_lines = vec!["    let x = 1;".to_string(), "    ".to_string(), "    let y = 2;".to_string()];
    let corrected = correct_indentation(&new_lines, 2, 4);
    assert_eq!(corrected[0], "  let x = 1;");
    assert_eq!(corrected[1], ""); // Whitespace-only becomes empty
    assert_eq!(corrected[2], "  let y = 2;");
}

#[test]
fn test_indentation_correction_integration_rust() {
    // Test that indentation correction works end-to-end for Rust code
    let mut disk = Disk::new();
    let path = "/work/indent_test.rs";

    // Original file: function at 4-space indent inside impl block
    let original = r#"impl MyStruct {
    fn helper() {
        let x = 1;
    }
}
"#;
    disk.write(path, original);

    // Patch: replace the function body with different code
    // The patch context uses 0-space indent (fn helper) but source has 4-space
    let patch = wrap_patch(&format!(
        r#"*** Update File: {}
@@
 fn helper() {{
-        let x = 1;
+        let y = 2;
+        let z = 3;
 }}"#,
        path
    ));
    let (stdout_str, stderr_str) = disk.apply_patch(&patch).unwrap();

    let contents = disk.read(path);

    // Verify that the replacement lines are correctly indented (8 spaces for body)
    assert!(contents.contains("        let y = 2;"), "Expected 8-space indent for let y, got:\n{contents}");
    assert!(contents.contains("        let z = 3;"), "Expected 8-space indent for let z, got:\n{contents}");
}

#[test]
fn test_indentation_correction_integration_python() {
    // Test that indentation correction works for Python code
    let mut disk = Disk::new();
    let path = "/work/indent_test.py";

    // Original file: method at 4-space indent inside class
    let original = r#"class MyClass:
    def helper(self):
        x = 1
"#;
    disk.write(path, original);

    // Patch: replace the method body
    let patch = wrap_patch(&format!(
        r#"*** Update File: {}
@@
 def helper(self):
-        x = 1
+        y = 2
+        z = 3"#,
        path
    ));
    let (stdout_str, stderr_str) = disk.apply_patch(&patch).unwrap();

    let contents = disk.read(path);

    // Verify indentation is preserved
    assert!(contents.contains("        y = 2"), "Expected 8-space indent for y, got:\n{contents}");
    assert!(contents.contains("        z = 3"), "Expected 8-space indent for z, got:\n{contents}");
}

#[test]
fn test_detect_indent_style_tabs() {
    let lines = vec![
        "\tfn foo() {".to_string(),
        "\t\tlet x = 1;".to_string(),
        "\t}".to_string(),
    ];
    assert_eq!(detect_indent_style(&lines), IndentStyle::Tabs);
}

#[test]
fn test_detect_indent_style_spaces() {
    let lines = vec![
        "    fn foo() {".to_string(),
        "        let x = 1;".to_string(),
        "    }".to_string(),
    ];
    assert_eq!(detect_indent_style(&lines), IndentStyle::Spaces(4));
}

#[test]
fn test_detect_indentation_columns_tabs() {
    // Tab counts as 4 columns
    assert_eq!(detect_indentation_columns("\tlet x = 1;", 4), 4);
    assert_eq!(detect_indentation_columns("\t\tlet x = 1;", 4), 8);
}

#[test]
fn test_detect_indentation_columns_mixed() {
    // Mixed tabs and spaces
    assert_eq!(detect_indentation_columns("\t  let x = 1;", 4), 6);
    assert_eq!(detect_indentation_columns("  \tlet x = 1;", 4), 6);
}

#[test]
fn test_indentation_correction_from_tabs_to_spaces() {
    let new_lines = vec![
        "\tfn foo() {".to_string(),
        "\t\tlet x = 1;".to_string(),
        "\t}".to_string(),
    ];
    let corrected = correct_indentation(&new_lines, 4, 0);
    assert_eq!(corrected[0], "    fn foo() {");  // 4 spaces (target column)
    assert_eq!(corrected[1], "        let x = 1;");  // 8 spaces (target + 4)
    assert_eq!(corrected[2], "    }");  // 4 spaces (target column)
}
