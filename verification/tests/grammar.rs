use apply_patch::parser::{
    check_patch_boundaries_lenient, check_patch_boundaries_strict,
    check_start_and_end_lines_strict, normalize_patch_text, parse_one_hunk, parse_patch,
    parse_patch_text, parse_update_file_chunk, Hunk, ParseError, ParseMode, UpdateFileChunk,
};

fn text(s: &str) -> Vec<char> {
    s.chars().collect()
}

fn lines(list: &[&str]) -> Vec<Vec<char>> {
    list.iter().map(|s| text(s)).collect()
}

fn strict(patch: &str) -> Result<Vec<Hunk>, ParseError> {
    parse_patch_text(patch, ParseMode::Strict).map(|args| args.hunks)
}

fn hunk_error(message: &str, line_number: usize) -> ParseError {
    ParseError::InvalidHunkError { message: message.to_string(), line_number }
}

fn patch_error(message: &str) -> ParseError {
    ParseError::InvalidPatchError(message.to_string())
}

fn strings(list: &[&str]) -> Vec<String> {
    list.iter().map(|s| s.to_string()).collect()
}

#[test]
fn a_written_patch_is_read() {
    let patch = "*** Begin Patch\n\
                 *** Add File: dir/new.txt\n\
                 +one\n\
                 +\n\
                 *** Delete File: old.txt\n\
                 *** Update File: a.txt\n\
                 *** Move to: b.txt\n\
                 @@ section\n kept\n-gone\n+come\n*** End of File\n\
                 *** Update File: c.txt\n\
                 -x\n+y\n\
                 @@\n z\n\
                 *** End Patch";
    let args = parse_patch(patch).unwrap();
    assert_eq!(args.patch, patch);
    assert_eq!(args.workdir, None);
    assert_eq!(
        args.hunks,
        vec![
            Hunk::AddFile {
                path: "dir/new.txt".to_string(),
                contents: "one\n\n".to_string(),
            },
            Hunk::DeleteFile { path: "old.txt".to_string() },
            Hunk::UpdateFile {
                path: "a.txt".to_string(),
                move_path: Some("b.txt".to_string()),
                chunks: vec![UpdateFileChunk {
                    change_context: Some("section".to_string()),
                    old_lines: strings(&["kept", "gone"]),
                    new_lines: strings(&["kept", "come"]),
                    is_end_of_file: true,
                }],
            },
            Hunk::UpdateFile {
                path: "c.txt".to_string(),
                move_path: None,
                chunks: vec![
                    UpdateFileChunk {
                        change_context: None,
                        old_lines: strings(&["x"]),
                        new_lines: strings(&["y"]),
                        is_end_of_file: false,
                    },
                    UpdateFileChunk {
                        change_context: None,
                        old_lines: strings(&["z"]),
                        new_lines: strings(&["z"]),
                        is_end_of_file: false,
                    },
                ],
            },
        ]
    );
    // The text that a patch carries is the same patch, in both modes.
    assert_eq!(parse_patch_text(&args.patch, ParseMode::Strict).unwrap(), args);
}

#[test]
fn markers_may_stand_between_white_space() {
    let hunks = strict("\n  *** Begin Patch  \n  *** Delete File: a b \n\t*** End Patch\n\n");
    assert_eq!(hunks, Ok(vec![Hunk::DeleteFile { path: "a b".to_string() }]));
}

#[test]
fn the_boundaries_of_a_patch() {
    let first = patch_error("The first line of the patch must be '*** Begin Patch'");
    let last = patch_error("The last line of the patch must be '*** End Patch'");
    assert_eq!(strict("bad"), Err(patch_error(
        "The first line of the patch must be '*** Begin Patch'"
    )));
    assert_eq!(strict("*** Begin Patch\nbad"), Err(patch_error(
        "The last line of the patch must be '*** End Patch'"
    )));
    assert_eq!(check_patch_boundaries_strict(&[]), Err(last));
    let begin = text("*** Begin Patch");
    let end = text(" *** End Patch");
    assert_eq!(check_start_and_end_lines_strict(Some(&begin), Some(&end)), Ok(()));
    assert_eq!(check_start_and_end_lines_strict(Some(&end), Some(&begin)), Err(first));
}

#[test]
fn here_documents_are_stripped_in_lenient_mode() {
    let body = "*** Begin Patch\n*** Delete File: a\n*** End Patch";
    for open in ["<<EOF", "<<'EOF'", "<<\"EOF\""] {
        let patch = format!("{}\n{}\nEOF\n", open, body);
        let args = parse_patch(&patch).unwrap();
        assert_eq!(args.patch, body);
        assert_eq!(args.hunks, vec![Hunk::DeleteFile { path: "a".to_string() }]);
        assert_eq!(
            strict(&patch),
            Err(patch_error("The first line of the patch must be '*** Begin Patch'"))
        );
    }
    // What stands inside is trimmed.
    let patch = format!("<<EOF\n\n  {}  \n \nEOF", body);
    assert_eq!(parse_patch(&patch).unwrap().patch, body);
    let e = || patch_error("as it was");
    let short = lines(&["<<EOF", "*** Begin Patch", "EOF"]);
    assert_eq!(check_patch_boundaries_lenient(&short, e()), Err(e()));
    let open = lines(&["<<EOF", "*** Begin Patch", "x", "EOF"]);
    assert_eq!(
        check_patch_boundaries_lenient(&open, e()),
        Err(patch_error("The last line of the patch must be '*** End Patch'"))
    );
}

#[test]
fn escaped_line_feeds_in_one_line_are_real_ones() {
    let patch = "*** Begin Patch\\r\\n*** Delete File: a\\n*** End Patch\n";
    assert_eq!(strict(patch), Ok(vec![Hunk::DeleteFile { path: "a".to_string() }]));
    assert_eq!(normalize_patch_text(&text("a\\nb\n\n")), text("a\nb"));
    assert_eq!(normalize_patch_text(&text("a\\nb\nc")), text("a\\nb\nc"));
    assert_eq!(normalize_patch_text(&text("plain\n")), text("plain\n"));
}

#[test]
fn chunks_that_cannot_be_read() {
    let read = |list: &[&str], allow: bool| {
        parse_update_file_chunk(&lines(list), 7, allow).map(|(chunk, n)| (chunk.new_lines, n))
    };
    assert_eq!(
        read(&[], true),
        Err(hunk_error("Update hunk does not contain any lines", 7))
    );
    assert_eq!(
        read(&["bad", "+x"], false),
        Err(hunk_error("Expected @@ marker, got: 'bad'", 7))
    );
    assert_eq!(read(&["@@"], false), Err(hunk_error("Update hunk empty", 8)));
    assert_eq!(
        read(&["@@", "*** End of File"], false),
        Err(hunk_error("Update hunk empty", 8))
    );
    assert_eq!(
        read(&["@@", "bad"], false),
        Err(hunk_error("Unexpected line: 'bad'", 8))
    );
    assert_eq!(read(&["@@", "+x", "", "bad"], false), Ok((strings(&["x", ""]), 3)));
    assert_eq!(read(&["+x", "*** End of File", "+y"], true), Ok((strings(&["x"]), 2)));
}

#[test]
fn hunks_that_cannot_be_read() {
    let read = |list: &[&str]| parse_one_hunk(&lines(list), 2);
    assert_eq!(
        read(&["bad"]),
        Err(hunk_error(
            "'bad' is not a valid hunk header. Valid hunk headers: '*** Add File: {path}', \
             '*** Delete File: {path}', '*** Update File: {path}'",
            2
        ))
    );
    assert_eq!(
        read(&["*** Add File: a", "+x", "y"]),
        Ok((Hunk::AddFile { path: "a".to_string(), contents: "x\n".to_string() }, 2))
    );
}

#[test]
fn an_update_hunk_may_have_no_changes() {
    let update = |path: &str, move_path: Option<&str>| Hunk::UpdateFile {
        path: path.to_string(),
        move_path: move_path.map(String::from),
        chunks: Vec::new(),
    };
    let read = |list: &[&str]| parse_one_hunk(&lines(list), 2);
    assert_eq!(
        read(&["*** Update File: a", "*** Move to: b"]),
        Ok((update("a", Some("b")), 2))
    );
    assert_eq!(read(&["*** Update File: a.txt"]), Ok((update("a.txt", None), 1)));
    assert_eq!(
        read(&["*** Update File: a.txt", "*** Move to: b.txt", " ", "*** Delete File: c"]),
        Ok((update("a.txt", Some("b.txt")), 3))
    );
    let patch = "*** Begin Patch\n*** Update File: b\n*** Delete File: a\n*** End Patch";
    let hunks = vec![update("b", None), Hunk::DeleteFile { path: "a".to_string() }];
    assert_eq!(strict(patch).as_ref(), Ok(&hunks));
    assert_eq!(parse_patch(patch).unwrap().hunks, hunks);
}

#[test]
fn only_the_first_chunk_may_lack_its_context() {
    assert_eq!(
        strict("*** Begin Patch\n*** Update File: a\n@@\n+x\n*** End of File\n+y\n*** End Patch"),
        Err(hunk_error("Expected @@ marker, got: '+y'", 6))
    );
}

#[test]
fn paths_are_seen_from_a_directory() {
    let relative = Hunk::DeleteFile { path: "sub/a".to_string() };
    assert_eq!(relative.resolve_path("/work"), "/work/sub/a");
    let absolute = Hunk::AddFile { path: "/a".to_string(), contents: String::new() };
    assert_eq!(absolute.resolve_path("/work"), "/a");
    let update =
        Hunk::UpdateFile { path: "u".to_string(), move_path: None, chunks: Vec::new() };
    assert_eq!(update.resolve_path("/"), "/u");
}

#[test]
fn copies_hold_the_same() {
    let hunk = Hunk::UpdateFile {
        path: "u".to_string(),
        move_path: Some("v".to_string()),
        chunks: vec![UpdateFileChunk {
            change_context: None,
            old_lines: strings(&["a"]),
            new_lines: Vec::new(),
            is_end_of_file: true,
        }],
    };
    assert_eq!(hunk.clone(), hunk);
    let e = hunk_error("m", 3);
    assert_eq!(e.clone(), e);
}
