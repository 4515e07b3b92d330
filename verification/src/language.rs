//! Languages with a grammar.
use vstd::prelude::*;

use crate::path::{
    extension, extension_of, is_front, is_part, law_extension_follows_the_last_dot,
    law_name_without_dot_has_no_extension,
};
use crate::text::text_is;

verus! {

/// The languages that are parsed.
#[derive(Clone, Copy, Debug, PartialEq, Eq, Structural)]
pub enum SupportedLanguage {
    Rust,
    Python,
    JavaScript,
    TypeScript,
    TypeScriptTsx,
    Unknown,
}

/// The lower-case form of an ASCII letter; another character stays.
pub open spec fn lower_char(c: char) -> char {
    if 'A' <= c <= 'Z' {
        (c as u32 + 32) as char
    } else {
        c
    }
}

pub open spec fn lowered(s: Seq<char>) -> Seq<char> {
    Seq::new(s.len(), |i: int| lower_char(s[i]))
}

/// The language of a file with a given extension in lower case.
pub open spec fn language_of_extension(ext: Seq<char>) -> SupportedLanguage {
    if ext == "rs"@ {
        SupportedLanguage::Rust
    } else if ext == "py"@ {
        SupportedLanguage::Python
    } else if ext == "js"@ || ext == "jsx"@ || ext == "mjs"@ || ext == "cjs"@ {
        SupportedLanguage::JavaScript
    } else if ext == "ts"@ {
        SupportedLanguage::TypeScript
    } else if ext == "tsx"@ {
        SupportedLanguage::TypeScriptTsx
    } else {
        SupportedLanguage::Unknown
    }
}

/// The language of a file.
pub open spec fn language_of(path: Seq<char>) -> SupportedLanguage {
    match extension_of(path) {
        Some(ext) => language_of_extension(lowered(ext)),
        None => SupportedLanguage::Unknown,
    }
}

/// The language whose grammar is used to find scopes in a file. Module files of
/// JavaScript have none.
pub open spec fn anchor_language_of(path: Seq<char>) -> Option<SupportedLanguage> {
    match extension_of(path) {
        None => None,
        Some(ext) => {
            let low = lowered(ext);
            if low == "mjs"@ || low == "cjs"@ || language_of_extension(low)
                == SupportedLanguage::Unknown {
                None
            } else {
                Some(language_of_extension(low))
            }
        },
    }
}

fn to_lower(c: char) -> (r: char)
    ensures
        r == lower_char(c),
{
    match c {
        'A' => 'a',
        'B' => 'b',
        'C' => 'c',
        'D' => 'd',
        'E' => 'e',
        'F' => 'f',
        'G' => 'g',
        'H' => 'h',
        'I' => 'i',
        'J' => 'j',
        'K' => 'k',
        'L' => 'l',
        'M' => 'm',
        'N' => 'n',
        'O' => 'o',
        'P' => 'p',
        'Q' => 'q',
        'R' => 'r',
        'S' => 's',
        'T' => 't',
        'U' => 'u',
        'V' => 'v',
        'W' => 'w',
        'X' => 'x',
        'Y' => 'y',
        'Z' => 'z',
        _ => c,
    }
}

fn to_lowercase(s: &[char]) -> (r: Vec<char>)
    ensures
        r@ == lowered(s@),
{
    let mut out: Vec<char> = Vec::new();
    let mut i: usize = 0;
    while i < s.len()
        invariant
            i <= s@.len(),
            out@ == lowered(s@).take(i as int),
        decreases s@.len() - i,
    {
        out.push(to_lower(s[i]));
        i += 1;
        assert(out@ =~= lowered(s@).take(i as int));
    }
    assert(out@ =~= lowered(s@));
    out
}

fn from_extension(ext: &[char]) -> (r: SupportedLanguage)
    ensures
        r == language_of_extension(ext@),
{
    if text_is(ext, "rs") {
        SupportedLanguage::Rust
    } else if text_is(ext, "py") {
        SupportedLanguage::Python
    } else if text_is(ext, "js") || text_is(ext, "jsx") || text_is(ext, "mjs") || text_is(
        ext,
        "cjs",
    ) {
        SupportedLanguage::JavaScript
    } else if text_is(ext, "ts") {
        SupportedLanguage::TypeScript
    } else if text_is(ext, "tsx") {
        SupportedLanguage::TypeScriptTsx
    } else {
        SupportedLanguage::Unknown
    }
}

impl SupportedLanguage {
    /// The language of a file, by its extension.
    pub fn from_path(path: &str) -> (r: SupportedLanguage)
        ensures
            r == language_of(path@),
    {
        match extension(path) {
            Some(ext) => from_extension(to_lowercase(ext.as_slice()).as_slice()),
            None => SupportedLanguage::Unknown,
        }
    }
}

/// The language whose grammar is used to find scopes in a file.
pub fn language_adapter_for_path(path: &str) -> (r: Option<SupportedLanguage>)
    ensures
        r == anchor_language_of(path@),
{
    match extension(path) {
        None => None,
        Some(ext) => {
            let low: Vec<char> = to_lowercase(ext.as_slice());
            let language: SupportedLanguage = from_extension(low.as_slice());
            if text_is(low.as_slice(), "mjs") || text_is(low.as_slice(), "cjs") || language
                == SupportedLanguage::Unknown {
                None
            } else {
                Some(language)
            }
        },
    }
}

// ---------------------------------------------------------------------------
// Which file is in which language
// ---------------------------------------------------------------------------
/// The texts are the same but for upper-case letters in the first one.
pub open spec fn same_letters(a: Seq<char>, low: Seq<char>) -> bool {
    &&& a.len() == low.len()
    &&& forall|i: int|
        0 <= i < a.len() ==> (#[trigger] a[i]) == low[i] || ('A' <= a[i] <= 'Z' && a[i] as u32 + 32
            == low[i] as u32)
}

proof fn lemma_same_letters(a: Seq<char>, low: Seq<char>)
    requires
        forall|i: int| 0 <= i < low.len() ==> 'a' <= #[trigger] low[i] <= 'z',
    ensures
        same_letters(a, low) <==> lowered(a) == low,
{
    if same_letters(a, low) {
        assert(lowered(a) =~= low);
    }
    if lowered(a) == low {
        assert forall|i: int| 0 <= i < a.len() implies (#[trigger] a[i]) == low[i] || ('A' <= a[i]
            <= 'Z' && a[i] as u32 + 32 == low[i] as u32) by {
            assert(lowered(a)[i] == low[i]);
        }
    }
}

/// The language of a file goes by what stands behind the last dot of its name, in upper or
/// lower case.
pub proof fn law_language_goes_by_extension(front: Seq<char>, stem: Seq<char>, ext: Seq<char>)
    requires
        is_front(front),
        stem.len() > 0,
        !stem.contains('/'),
        !ext.contains('/'),
        !ext.contains('.'),
        stem + seq!['.'] + ext != seq!['.', '.'],
    ensures
        ({
            let path = front + (stem + seq!['.'] + ext);
            let language = language_of(path);
            let anchor = anchor_language_of(path);
            &&& language == SupportedLanguage::Rust <==> same_letters(ext, seq!['r', 's'])
            &&& language == SupportedLanguage::Python <==> same_letters(ext, seq!['p', 'y'])
            &&& language == SupportedLanguage::JavaScript <==> (same_letters(ext, seq!['j', 's'])
                || same_letters(ext, seq!['j', 's', 'x']) || same_letters(
                ext,
                seq!['m', 'j', 's'],
            ) || same_letters(ext, seq!['c', 'j', 's']))
            &&& language == SupportedLanguage::TypeScript <==> same_letters(ext, seq!['t', 's'])
            &&& language == SupportedLanguage::TypeScriptTsx <==> same_letters(
                ext,
                seq!['t', 's', 'x'],
            )
            &&& anchor is None <==> language == SupportedLanguage::Unknown || same_letters(
                ext,
                seq!['m', 'j', 's'],
            ) || same_letters(ext, seq!['c', 'j', 's'])
            &&& anchor is Some ==> anchor == Some(language)
        }),
{
    law_extension_follows_the_last_dot(front, stem, ext);
    reveal_strlit("rs");
    reveal_strlit("py");
    reveal_strlit("js");
    reveal_strlit("jsx");
    reveal_strlit("mjs");
    reveal_strlit("cjs");
    reveal_strlit("ts");
    reveal_strlit("tsx");
    assert("rs"@ =~= seq!['r', 's']);
    assert("py"@ =~= seq!['p', 'y']);
    assert("js"@ =~= seq!['j', 's']);
    assert("jsx"@ =~= seq!['j', 's', 'x']);
    assert("mjs"@ =~= seq!['m', 'j', 's']);
    assert("cjs"@ =~= seq!['c', 'j', 's']);
    assert("ts"@ =~= seq!['t', 's']);
    assert("tsx"@ =~= seq!['t', 's', 'x']);
    lemma_same_letters(ext, "rs"@);
    lemma_same_letters(ext, "py"@);
    lemma_same_letters(ext, "js"@);
    lemma_same_letters(ext, "jsx"@);
    lemma_same_letters(ext, "mjs"@);
    lemma_same_letters(ext, "cjs"@);
    lemma_same_letters(ext, "ts"@);
    lemma_same_letters(ext, "tsx"@);
    assert("rs"@[0] == 'r' && "py"@[0] == 'p' && "js"@[0] == 'j' && "ts"@[0] == 't');
    assert("jsx"@[0] == 'j' && "mjs"@[0] == 'm' && "cjs"@[0] == 'c' && "tsx"@[0] == 't');
}

/// A file without an extension is in no known language.
pub proof fn law_file_without_extension_is_unknown(front: Seq<char>, name: Seq<char>)
    requires
        is_front(front),
        is_part(name),
        !name.contains('.'),
    ensures
        language_of(front + name) == SupportedLanguage::Unknown,
        anchor_language_of(front + name) is None,
{
    law_name_without_dot_has_no_extension(front, name);
}

} // verus!
