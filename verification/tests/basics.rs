use apply_patch::bytes::{byte_count, slice_bytes, text_byte_count};
use apply_patch::language::{language_adapter_for_path, SupportedLanguage};
use apply_patch::lines::{join_lines, split_lines, split_pieces};
use apply_patch::path::{extension, file_name, is_absolute, join, parent};
use apply_patch::text::{
    chars_of, contains, decimal_text, ends_with, find, has_char, is_ascii_digit, is_ascii_letter,
    is_ascii_whitespace, is_blank, is_whitespace, replace, rfind_char, starts_with, string_of,
    trim, trim_end, trim_start,
};
use std::path::Path;

fn text(s: &str) -> Vec<char> {
    s.chars().collect()
}

fn shown(s: &[char]) -> String {
    s.iter().collect()
}

const SAMPLES: [&str; 12] = [
    "",
    "a",
    " a ",
    "\n",
    "a\n",
    "a\r\nb\n\nc",
    "\r\n\r\n",
    "a\rb\n",
    "\u{a0}x\u{3000}",
    "dash \u{2013} dash",
    "tab\tand space ",
    "x\r\r\n",
];

#[test]
fn white_space_is_that_of_unicode() {
    for n in 0..=0x10FFFFu32 {
        if let Some(c) = char::from_u32(n) {
            assert_eq!(is_whitespace(c), c.is_whitespace(), "{:?}", c);
            assert_eq!(is_ascii_whitespace(c), c.is_ascii_whitespace(), "{:?}", c);
            assert_eq!(is_ascii_digit(c), c.is_ascii_digit(), "{:?}", c);
            assert_eq!(is_ascii_letter(c), c.is_ascii_alphabetic(), "{:?}", c);
        }
    }
}

#[test]
fn texts_are_trimmed_and_searched() {
    for s in SAMPLES {
        let t = text(s);
        assert_eq!(shown(trim(&t)), s.trim());
        assert_eq!(shown(trim_start(&t)), s.trim_start());
        assert_eq!(shown(trim_end(&t)), s.trim_end());
        assert_eq!(is_blank(&t), s.trim().is_empty());
        assert_eq!(contains(&t, "\r\n"), s.contains("\r\n"));
        assert_eq!(starts_with(&t, "a"), s.starts_with('a'));
        assert_eq!(ends_with(&t, "\n"), s.ends_with('\n'));
        assert_eq!(has_char(&t, 'b'), s.contains('b'));
        assert_eq!(chars_of(s), t);
        assert_eq!(string_of(&t), s);
    }
    assert_eq!(find(&text("abcabc"), "ca"), Some(2));
    assert_eq!(find(&text("abc"), "ac"), None);
    assert_eq!(find(&text("abc"), ""), Some(0));
    assert_eq!(rfind_char(&text("a/b/c"), '/'), Some(3));
    assert_eq!(rfind_char(&text("abc"), '/'), None);
    assert_eq!(shown(&replace(&text("a--b---c"), "--", '+')), "a--b---c".replace("--", "+"));
}

#[test]
fn numbers_are_written_in_decimal() {
    assert_eq!(shown(&decimal_text(0)), "0");
    assert_eq!(shown(&decimal_text(907)), "907");
    assert_eq!(shown(&decimal_text(u64::MAX as u128)), u64::MAX.to_string());
}

#[test]
fn texts_are_split_into_lines() {
    for s in SAMPLES {
        let lines: Vec<String> = split_lines(&text(s)).iter().map(|l| shown(l)).collect();
        let expected: Vec<String> = s.lines().map(String::from).collect();
        assert_eq!(lines, expected, "{:?}", s);
        let pieces: Vec<String> = split_pieces(&text(s)).iter().map(|l| shown(l)).collect();
        let expected: Vec<String> = s.split('\n').map(String::from).collect();
        assert_eq!(pieces, expected, "{:?}", s);
    }
}

#[test]
fn joining_pieces_restores_a_text() {
    for s in SAMPLES {
        assert_eq!(shown(&join_lines(&split_pieces(&text(s)))), s);
    }
}

#[test]
fn bytes_are_those_of_utf_8() {
    let s = "a\u{e9}\u{4e2d}\u{1f600}z";
    assert_eq!(byte_count(s), s.len());
    assert_eq!(text_byte_count(&text(s)), s.len());
    for from in 0..=s.len() + 1 {
        for to in 0..=s.len() + 1 {
            assert_eq!(slice_bytes(s, from, to), s.get(from..to), "{}..{}", from, to);
        }
    }
}

#[test]
fn paths_are_taken_apart() {
    let paths = [
        "/", "/a", "/a/", "/a/b.txt", "a", "a/b", "a//b", "./a", "a/.", "..", "a/..", ".hidden",
        "a.tar.gz", "dir.d/file", "", "/a/b/", "x.", ".", "a/./b", "a/b/.",
    ];
    for p in paths {
        let std_path = Path::new(p);
        assert_eq!(is_absolute(p), std_path.is_absolute(), "{:?}", p);
        assert_eq!(
            file_name(p),
            std_path.file_name().map(|n| n.to_str().unwrap().to_string()),
            "{:?}",
            p
        );
        assert_eq!(
            extension(p).map(|e| shown(&e)),
            std_path.extension().map(|n| n.to_str().unwrap().to_string()),
            "{:?}",
            p
        );
        for q in paths {
            assert_eq!(
                join(p, q),
                std_path.join(q).to_str().unwrap(),
                "{:?} {:?}",
                p,
                q
            );
        }
    }
}

#[test]
fn absolute_paths_have_parents() {
    for p in ["/a/b.txt", "/a", "/a/b/c", "/a//b", "/a/b/", "/a/./b/."] {
        assert_eq!(parent(p), Path::new(p).parent().unwrap().to_str().unwrap(), "{:?}", p);
    }
}

#[test]
fn languages_go_by_the_extension() {
    for (path, guarded, anchored) in [
        ("a.rs", SupportedLanguage::Rust, Some(SupportedLanguage::Rust)),
        ("dir/a.py", SupportedLanguage::Python, Some(SupportedLanguage::Python)),
        ("a.js", SupportedLanguage::JavaScript, Some(SupportedLanguage::JavaScript)),
        ("a.jsx", SupportedLanguage::JavaScript, Some(SupportedLanguage::JavaScript)),
        ("a.ts", SupportedLanguage::TypeScript, Some(SupportedLanguage::TypeScript)),
        ("a.tsx", SupportedLanguage::TypeScriptTsx, Some(SupportedLanguage::TypeScriptTsx)),
        ("a.txt", SupportedLanguage::Unknown, None),
        ("rs", SupportedLanguage::Unknown, None),
        (".rs", SupportedLanguage::Unknown, None),
    ] {
        assert_eq!(SupportedLanguage::from_path(path), guarded, "{}", path);
        assert_eq!(language_adapter_for_path(path), anchored, "{}", path);
    }
}
