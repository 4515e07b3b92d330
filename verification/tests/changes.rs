use apply_patch::action::{ApplyPatchAction, ApplyPatchFileChange};
use apply_patch::anchor_finder::AnchorFinder;
use apply_patch::apply::{
    apply_hunks, apply_hunks_to_files, apply_patch, derive_new_contents_from_chunks, do_hunks_fit,
    paths_to_read, print_summary, refuse, refuse_operation, unified_diff_from_chunks_with_context,
    ApplyFailure, FileSnapshot,
};
use apply_patch::error::{ApplyPatchError, IoError};
use apply_patch::parser::{Hunk, ParseError, UpdateFileChunk};
use apply_patch::replace::{
    apply_chunks, apply_replacements, compute_replacements, do_contents_fit, Replacement,
};
use apply_patch::transaction::{AffectedPaths, FileOperation, OperationStep};

fn chunk(context: Option<&str>, old: &[&str], new: &[&str], eof: bool) -> UpdateFileChunk {
    UpdateFileChunk {
        change_context: context.map(String::from),
        old_lines: old.iter().map(|s| s.to_string()).collect(),
        new_lines: new.iter().map(|s| s.to_string()).collect(),
        is_end_of_file: eof,
    }
}

fn update(path: &str, move_path: Option<&str>, chunks: Vec<UpdateFileChunk>) -> Hunk {
    Hunk::UpdateFile {
        path: path.to_string(),
        move_path: move_path.map(String::from),
        chunks,
    }
}

fn files(list: &[(&str, &str)]) -> FileSnapshot {
    let mut out = FileSnapshot::new();
    for (path, contents) in list {
        out.insert(path, Ok(contents.to_string()));
    }
    out
}

fn applied(contents: &str, chunks: &[UpdateFileChunk]) -> String {
    assert!(do_contents_fit("f.txt", contents, chunks));
    apply_chunks("f.txt", contents, chunks).unwrap()
}

fn compute_error(contents: &str, chunks: &[UpdateFileChunk]) -> String {
    match apply_chunks("f.txt", contents, chunks) {
        Err(ApplyPatchError::ComputeReplacements(message)) => message,
        other => panic!("unexpected {:?}", other),
    }
}

#[test]
fn the_first_exact_place_is_replaced() {
    let one = chunk(None, &["one two"], &["five"], false);
    assert_eq!(
        applied("one two\nthree four\none two\n", &[one]),
        "five\nthree four\none two\n"
    );
    // An exact match further down comes before a looser one.
    let exact = chunk(None, &["one two"], &["five"], false);
    assert_eq!(applied("one two  \none two\n", &[exact]), "one two  \nfive\n");
}

#[test]
fn old_lines_follow_the_context() {
    let second = chunk(Some("three four"), &["one two"], &["five"], false);
    assert_eq!(
        applied("one two\nthree four\none two\n", &[second]),
        "one two\nthree four\nfive\n"
    );
    // The line of a context is not one of the old lines.
    let none = chunk(Some("one two"), &["one two"], &["five"], false);
    assert_eq!(
        compute_error("one two\nthree four\n", &[none]),
        "Failed to find expected lines in f.txt:\none two"
    );
}

#[test]
fn missing_lines_are_named() {
    let lost = chunk(Some("nowhere to"), &["a b"], &[], false);
    assert_eq!(
        compute_error("a b\n", &[lost]),
        "Failed to find context 'nowhere to' in f.txt"
    );
    let lost = chunk(None, &["a b", "c d"], &[], false);
    assert_eq!(
        compute_error("a b\nx y\n", &[lost]),
        "Failed to find expected lines in f.txt:\na b\nc d"
    );
}

#[test]
fn the_end_of_the_file_is_tried_first() {
    let contents = "x1 end\nmid way\nx1 end\n";
    let last = chunk(None, &["x1 end"], &["done"], true);
    assert_eq!(applied(contents, &[last]), "x1 end\nmid way\ndone\n");
    // Lines that stand elsewhere alone do not end the file.
    let elsewhere = chunk(None, &["mid way"], &["done"], true);
    assert_eq!(
        compute_error(contents, &[elsewhere]),
        "Failed to find expected lines in f.txt:\nmid way"
    );
    // A blank line between them may be missing.
    let blank = chunk(None, &["mid way", "", "x1 end"], &["done"], true);
    assert_eq!(applied("a b\nmid way\nx1 end\n", &[blank]), "a b\ndone\n");
}

#[test]
fn lines_that_end_the_file_follow_the_context() {
    let own = chunk(Some("ctx"), &["ctx"], &["z"], true);
    assert_eq!(
        compute_error("a\nctx\n", &[own]),
        "Failed to find expected lines in f.txt:\nctx"
    );
    let lines: Vec<Vec<char>> = vec![vec!['a'], vec!['c', 't', 'x']];
    let own = chunk(Some("ctx"), &["ctx"], &["z"], true);
    let finder = AnchorFinder::new("f.txt", "a\nctx\n", 3);
    match compute_replacements(&lines, "f.txt", &[own], &finder) {
        Err(ApplyPatchError::ComputeReplacements(_)) => {}
        other => panic!("unexpected {:?}", other),
    }
    let behind = chunk(Some("ctx"), &["a"], &["z"], true);
    assert_eq!(applied("a\nctx\na\n", &[behind]), "a\nctx\nz\n");
}

#[test]
fn a_file_can_be_moved_without_a_change() {
    let snapshot = files(&[("a.txt", "one\ntwo\n")]);
    let patch = "*** Begin Patch\n*** Update File: a.txt\n*** Move to: b.txt\n*** End Patch";
    let applied = apply_patch(patch, &snapshot).unwrap();
    assert_eq!(
        applied.commit.operations,
        vec![
            FileOperation::Remove { path: "a.txt".to_string() },
            FileOperation::Create {
                path: "b.txt".to_string(),
                content: "one\ntwo\n".to_string(),
            },
        ]
    );
}

#[test]
fn a_final_empty_line_may_be_missing() {
    let all = chunk(None, &["a b", ""], &["c d", ""], false);
    assert_eq!(applied("a b\n", &[all]), "c d\n");
}

#[test]
fn lines_without_a_place_go_to_the_end() {
    let added = || chunk(None, &[], &["z"], false);
    assert_eq!(applied("a\n", &[added()]), "a\nz\n");
    assert_eq!(applied("a", &[added()]), "a\nz\n");
    assert_eq!(applied("", &[added()]), "z\n");
    assert_eq!(applied("a\n\n", &[added()]), "a\nz\n");
    // Those at the same place keep their order.
    let more = chunk(None, &[], &["y"], false);
    assert_eq!(applied("a\n", &[added(), more]), "a\nz\ny\n");
}

#[test]
fn new_lines_take_the_indentation_of_their_scope() {
    let contents = "  aa bb\n  cc dd\n";
    let moved = chunk(None, &["  aa bb"], &["    xx", "", "      yy"], false);
    assert_eq!(applied(contents, &[moved]), "  xx\n\n    yy\n  cc dd\n");
}

#[test]
fn separate_replacements_leave_the_other_lines() {
    let contents = "h1\nold one\nm1\nold two\nt1\n";
    let chunks = [
        chunk(None, &["old one"], &["new a", "new b"], false),
        chunk(None, &["old two"], &[], false),
    ];
    assert_eq!(applied(contents, &chunks), "h1\nnew a\nnew b\nm1\nt1\n");
}

#[test]
fn replacements_are_made_from_the_last_to_the_first() {
    let text = |s: &str| -> Vec<char> { s.chars().collect() };
    let lines = vec![text("a"), text("b"), text("c")];
    let list = [
        Replacement { start: 2, old_len: 1, new_lines: vec![text("C")] },
        Replacement { start: 0, old_len: 1, new_lines: vec![text("A"), text("A")] },
    ];
    assert_eq!(
        apply_replacements(lines, &list),
        vec![text("A"), text("A"), text("C"), text("c")]
    );
    let over = [Replacement { start: 1, old_len: 9, new_lines: vec![text("x")] }];
    assert_eq!(apply_replacements(vec![text("a"), text("b")], &over), vec![text("a"), text("x")]);
}

#[test]
fn blank_lines_behind_the_end_do_not_fit() {
    let chunks = vec![
        chunk(Some("a"), &[""], &["x"], false),
        chunk(None, &[""], &["y"], false),
    ];
    assert!(do_contents_fit("f.txt", "a\n", &chunks[..1]));
    assert_eq!(apply_chunks("f.txt", "a\n", &chunks[..1]).unwrap(), "a\nx\n");
    assert!(!do_contents_fit("f.txt", "a\n", &chunks));
    assert!(!do_hunks_fit(&[update("f.txt", None, chunks)], &files(&[("f.txt", "a\n")])));
    // Nothing is reached behind a hunk that cannot be applied.
    let again = vec![
        chunk(Some("a"), &[""], &["x"], false),
        chunk(None, &[""], &["y"], false),
    ];
    let missing = Hunk::DeleteFile { path: "none".to_string() };
    let list = [missing, update("f.txt", None, again)];
    assert!(do_hunks_fit(&list, &files(&[("f.txt", "a\n")])));
}

#[test]
fn chunks_without_a_place_are_named_before_lines_go_behind_the_end() {
    let chunks = || {
        vec![
            chunk(Some("x"), &[""], &["y"], false),
            chunk(None, &[""], &["z"], false),
            chunk(None, &["zzz"], &["w"], false),
        ]
    };
    let message = "Failed to find expected lines in f.txt:\nzzz";
    assert!(!do_contents_fit("f.txt", "x", &chunks()[..2]));
    assert!(do_contents_fit("f.txt", "x", &chunks()));
    assert_eq!(compute_error("x", &chunks()), message);
    let disk = files(&[("f.txt", "x")]);
    let error = ApplyPatchError::ComputeReplacements(message.to_string());
    assert_eq!(derive_new_contents_from_chunks("f.txt", &chunks(), &disk), Err(error));
    let list = [update("f.txt", None, chunks())];
    assert!(do_hunks_fit(&list, &disk));
    assert_eq!(apply_hunks_to_files(&list, &disk).unwrap_err().message, message);
}

#[test]
fn an_update_keeps_the_old_text() {
    let disk = files(&[("f.txt", "a b\nc d")]);
    let one = chunk(None, &["c d"], &["e f"], false);
    let update = derive_new_contents_from_chunks("f.txt", &[one], &disk).unwrap();
    assert_eq!(update.original_contents, "a b\nc d");
    assert_eq!(update.new_contents, "a b\ne f\n");
    let all = chunk(None, &["a b", "c d"], &[""], false);
    let update = derive_new_contents_from_chunks("f.txt", &[all], &disk).unwrap();
    assert_eq!(update.new_contents, "");
}

#[test]
fn snapshots_hold_the_first_entry() {
    let mut snapshot = files(&[("a", "1"), ("a", "2")]);
    snapshot.insert("b", Err("denied".to_string()));
    assert_eq!(snapshot.read("a"), Ok("1".to_string()));
    assert_eq!(snapshot.read("b"), Err("denied".to_string()));
    assert_eq!(snapshot.read("c"), Err("No such file or directory (os error 2)".to_string()));
}

#[test]
fn deleted_and_updated_files_are_read() {
    let list = [
        Hunk::AddFile { path: "a".to_string(), contents: String::new() },
        update("u", Some("v"), Vec::new()),
        Hunk::DeleteFile { path: "d".to_string() },
    ];
    assert_eq!(paths_to_read(&list), vec!["u", "d"]);
}

#[test]
fn diffs_have_the_context_that_is_asked_for() {
    let snapshot = files(&[("f.txt", "a1\nb1\nc1\nd1\n")]);
    let chunks = [chunk(None, &["b1"], &["B1"], false)];
    let wide = unified_diff_from_chunks_with_context("f.txt", &chunks, 3, &snapshot).unwrap();
    assert_eq!(wide.content, "a1\nB1\nc1\nd1\n");
    assert_eq!(wide.unified_diff, "@@ -1,4 +1,4 @@\n a1\n-b1\n+B1\n c1\n d1\n");
    let tight = unified_diff_from_chunks_with_context("f.txt", &chunks, 0, &snapshot).unwrap();
    assert_eq!(tight.unified_diff, "@@ -2 +2 @@\n-b1\n+B1\n");
    let derived = derive_new_contents_from_chunks("f.txt", &chunks, &snapshot).unwrap();
    assert_eq!(derived.original_contents, "a1\nb1\nc1\nd1\n");
    assert_eq!(derived.new_contents, wide.content);
    let missing = unified_diff_from_chunks_with_context("g.txt", &chunks, 0, &snapshot);
    assert_eq!(
        missing.unwrap_err().to_text(),
        "Failed to read file to update g.txt: No such file or directory (os error 2)"
    );
    // Where no diff is made, the number of lines does not matter.
    let absent = [chunk(None, &["x1"], &["y1"], false)];
    let refused = unified_diff_from_chunks_with_context("f.txt", &absent, usize::MAX, &snapshot);
    assert_eq!(refused.unwrap_err().to_text(), "Failed to find expected lines in f.txt:\nx1");
}

#[test]
fn nothing_to_do_is_a_failure() {
    let refused = apply_hunks(&[], &FileSnapshot::new()).unwrap_err();
    assert_eq!(refused.stderr, "No files were modified.\n");
    assert_eq!(
        refused.error,
        ApplyPatchError::IoError(IoError {
            context: "No files were modified.".to_string(),
            source: "No files were modified.".to_string(),
        })
    );
    assert_eq!(
        apply_patch("*** Begin Patch\n*** End Patch", &FileSnapshot::new()).unwrap_err().stderr,
        "No files were modified.\n"
    );
}

#[test]
fn a_missing_file_stops_all_changes() {
    let list = [
        Hunk::AddFile { path: "new.txt".to_string(), contents: "x\n".to_string() },
        Hunk::DeleteFile { path: "gone.txt".to_string() },
    ];
    let refused = apply_hunks(&list, &FileSnapshot::new()).unwrap_err();
    assert_eq!(refused.stderr, "Failed to read file gone.txt\n");
    assert_eq!(
        refused.error,
        ApplyPatchError::from_io("No such file or directory (os error 2)")
    );
    assert_eq!(
        refused.error.to_text(),
        "I/O error: No such file or directory (os error 2)"
    );
}

#[test]
fn a_change_that_breaks_a_file_stops_all_changes() {
    let snapshot = files(&[("a.rs", "fn main() {}\n")]);
    let list = [
        Hunk::AddFile { path: "new.txt".to_string(), contents: "x\n".to_string() },
        update("a.rs", None, vec![chunk(None, &["fn main() {}"], &["fn main( {"], false)]),
    ];
    let refused = apply_hunks(&list, &snapshot).unwrap_err();
    assert!(refused.stderr.starts_with(
        "Syntax validation failed for the following changes:\n\
         Error: Syntax Integrity Check Failed\n\
         Path: a.rs\n\
         Stage: syntax_guard\n\
         Tag: APPLY_PATCH_SYNTAX_GUARD\n\
         Language: Rust\n"
    ));
    assert!(refused.stderr.ends_with("after saving a scenario.\n\n\n"));
    match refused.error {
        ApplyPatchError::IoError(e) => {
            assert_eq!(format!("{}\n", e.context), refused.stderr);
            assert_eq!(e.context, e.source);
        }
        other => panic!("unexpected {:?}", other),
    }
}

#[test]
fn a_moved_file_is_removed_and_added() {
    let snapshot = files(&[("a.txt", "one two\n")]);
    let list = [update(
        "a.txt",
        Some("dir/b.txt"),
        vec![chunk(None, &["one two"], &["three"], false)],
    )];
    let commit = apply_hunks_to_files(&list, &snapshot).unwrap();
    assert_eq!(
        commit.operations,
        vec![
            FileOperation::Remove { path: "a.txt".to_string() },
            FileOperation::Create {
                path: "dir/b.txt".to_string(),
                content: "three\n".to_string(),
            },
        ]
    );
    assert_eq!(
        print_summary(&commit.affected),
        "Success. Updated the following files:\nA dir/b.txt\nD a.txt\n"
    );
}

#[test]
fn summaries_list_the_files_by_kind() {
    let affected = AffectedPaths {
        added: vec!["a1".to_string(), "a2".to_string()],
        modified: vec!["m".to_string()],
        deleted: vec!["d".to_string()],
    };
    assert_eq!(
        print_summary(&affected),
        "Success. Updated the following files:\nA a1\nA a2\nM m\nD d\n"
    );
}

#[test]
fn invalid_patches_are_refused_with_the_error() {
    let refused = apply_patch("no patch", &FileSnapshot::new()).unwrap_err();
    assert_eq!(
        refused.stderr,
        "Invalid patch: The first line of the patch must be '*** Begin Patch'\n"
    );
    assert_eq!(
        refused.error,
        ApplyPatchError::ParseError(ParseError::InvalidPatchError(
            "The first line of the patch must be '*** Begin Patch'".to_string()
        ))
    );
    let refused = apply_patch(
        "*** Begin Patch\n*** Frobnicate File: foo\n*** End Patch",
        &FileSnapshot::new(),
    )
    .unwrap_err();
    assert_eq!(
        refused.stderr,
        "Invalid patch hunk on line 2: '*** Frobnicate File: foo' is not a valid hunk header. \
         Valid hunk headers: '*** Add File: {path}', '*** Delete File: {path}', \
         '*** Update File: {path}'\n"
    );
}

#[test]
fn failures_keep_the_words_of_the_file_system() {
    let create = FileOperation::Create { path: "d/a".to_string(), content: String::new() };
    let refused = refuse_operation(&create, OperationStep::Directories, "denied");
    assert_eq!(refused.stderr, "Failed to create parent directories for d/a\n");
    assert_eq!(refused.error, ApplyPatchError::from_io("denied"));
    let plain = refuse(ApplyFailure { message: "because".to_string(), io: None });
    assert_eq!(plain.stderr, "because\n");
    assert_eq!(plain.error.to_text(), "because: because");
}

#[test]
fn errors_have_a_text() {
    let parse = ApplyPatchError::ParseError(ParseError::InvalidHunkError {
        message: "m".to_string(),
        line_number: 12,
    });
    assert_eq!(parse.to_text(), "invalid hunk at line 12, m");
    let patch = ApplyPatchError::ParseError(ParseError::InvalidPatchError("p".to_string()));
    assert_eq!(patch.to_text(), "invalid patch: p");
    assert_eq!(ApplyPatchError::ComputeReplacements("c".to_string()).to_text(), "c");
    assert_eq!(
        ApplyPatchError::ImplicitInvocation.to_text(),
        "patch detected without explicit call to apply_patch. Rerun as [\"apply_patch\", \
         \"<patch>\"]"
    );
}

#[test]
fn an_action_for_one_new_file() {
    let action = ApplyPatchAction::new_add_for_test("/work/dir/f.txt", "hello".to_string());
    assert!(!action.is_empty());
    assert_eq!(action.cwd, "/work/dir");
    assert_eq!(
        action.patch,
        "*** Begin Patch\n*** Update File: f.txt\n@@\n+ hello\n*** End Patch"
    );
    assert_eq!(action.changes().len(), 1);
    assert_eq!(action.changes()[0].0, "/work/dir/f.txt");
    assert_eq!(
        action.changes()[0].1,
        ApplyPatchFileChange::Add { content: "hello".to_string() }
    );
}

/// Applies a patch that adds one file with the given lines.
fn add_file(path: &str, contents: &str) -> String {
    let mut patch = format!("*** Begin Patch\n*** Add File: {}\n", path);
    for line in contents.lines() {
        patch.push('+');
        patch.push_str(line);
        patch.push('\n');
    }
    patch.push_str("*** End Patch\n");
    let applied = apply_patch(&patch, &FileSnapshot::new()).unwrap();
    assert_eq!(applied.stdout, format!("Success. Updated the following files:\nA {}\n", path));
    match &applied.commit.operations[..] {
        [FileOperation::Create { path: created, content }] => {
            assert_eq!(created, path);
            content.clone()
        }
        other => panic!("unexpected {:?}", other),
    }
}

#[test]
fn operators_that_assign_are_kept() {
    let contents = "pub fn bump(values: &mut [i32]) {
    let mut idx = 0usize;
    while idx < values.len() {
        values[idx] += 1;
        idx += 1;
    }
}
pub fn score(mut base: f64) -> f64 {
    base += 0.25;
    base -= 0.05;
    base *= 1.1;
    base
}
";
    assert_eq!(add_file("src/operator_probe.rs", contents), contents);
}

#[test]
fn dashes_between_braces_are_kept() {
    let contents = r#"pub fn build_labels(prefixes: &[&str], tokens: &[&str]) -> Vec<String> {
    let mut out = Vec::new();
    if prefixes.is_empty() || tokens.is_empty() {
        return out;
    }

    let mut seed: u64 = 0xDEADBEEF;
    for idx in 0..prefixes.len() {
        seed = seed
            .wrapping_mul(6364136223846793005)
            .wrapping_add(1442695040888963407);
        let pivot = (seed as usize + idx) % tokens.len();
        let label = format!("{}-{:04}-{}", prefixes[idx], idx, tokens[pivot]);
        out.push(label);
    }

    out
}

pub fn sum_pairs(values: &[i64]) -> i64 {
    if values.len() < 2 {
        return 0;
    }
    let mut total = 0;
    for idx in 0..values.len() - 1 {
        total += values[idx] + values[(idx + 1) % values.len()];
    }
    total
}
"#;
    assert_eq!(add_file("src/brace_operator_probe.rs", contents), contents);
}

#[test]
fn only_named_files_are_touched() {
    let snapshot = files(&[("a.txt", "one two\n"), ("b.txt", "keep\n"), ("c.txt", "gone\n")]);
    let patch = "*** Begin Patch\n\
                 *** Add File: n.txt\n\
                 +x\n\
                 *** Delete File: c.txt\n\
                 *** Update File: a.txt\n\
                 *** Move to: m.txt\n\
                 @@\n\
                 -one two\n\
                 +three\n\
                 *** End Patch";
    let applied = apply_patch(patch, &snapshot).unwrap();
    let paths: Vec<&str> = applied
        .commit
        .operations
        .iter()
        .map(|op| match op {
            FileOperation::Create { path, .. } => path.as_str(),
            FileOperation::Overwrite { path, .. } => path.as_str(),
            FileOperation::Remove { path } => path.as_str(),
        })
        .collect();
    assert_eq!(paths, vec!["n.txt", "c.txt", "a.txt", "m.txt"]);
    assert_eq!(
        applied.stdout,
        "Success. Updated the following files:\nA n.txt\nA m.txt\nD c.txt\nD a.txt\n"
    );
}
