//! Paths with `/` between their components.
use vstd::prelude::*;

use crate::text::{
    append_text, chars_of, last_char_index, lemma_last_before, rfind_char, span, string_of,
};

verus! {

pub open spec fn absolute(path: Seq<char>) -> bool {
    path.len() > 0 && path[0] == '/'
}

/// `path` as seen from `base`: an absolute path stands for itself.
pub open spec fn joined_path(base: Seq<char>, path: Seq<char>) -> Seq<char> {
    if absolute(path) {
        path
    } else if base.len() == 0 || base.last() == '/' {
        base + path
    } else {
        base + seq!['/'] + path
    }
}

/// Where the component that ends at `n` starts.
pub open spec fn component_start(path: Seq<char>, n: int) -> int
    decreases n,
{
    if n <= 0 || path[n - 1] == '/' {
        n
    } else {
        component_start(path, n - 1)
    }
}

/// Where the last component of `path.take(n)` stands that is neither empty nor `.`.
pub open spec fn last_span(path: Seq<char>, n: int) -> Option<(int, int)>
    decreases n,
    via last_span_decreases
{
    let start = component_start(path, n);
    if n <= 0 {
        None
    } else if start == n {
        last_span(path, n - 1)
    } else if path.subrange(start, n) == seq!['.'] {
        last_span(path, start)
    } else {
        Some((start, n))
    }
}

#[via_fn]
proof fn last_span_decreases(path: Seq<char>, n: int) {
    if n > 0 {
        lemma_component_start(path, n);
    }
}

/// The last component of a path that is neither empty nor `.`.
pub open spec fn last_component(path: Seq<char>) -> Option<Seq<char>> {
    match last_span(path, path.len() as int) {
        Some((start, end)) => Some(path.subrange(start, end)),
        None => None,
    }
}

/// An absolute path without its last component.
pub open spec fn parent_of(path: Seq<char>) -> Seq<char> {
    match last_span(path, path.len() as int) {
        None => path,
        Some((start, _)) => match last_span(path, start) {
            Some((_, end)) => path.take(end),
            None => path.take(1),
        },
    }
}

/// The file name of a path: its last component, unless that is `..`.
pub open spec fn file_name_of(path: Seq<char>) -> Option<Seq<char>> {
    match last_component(path) {
        Some(part) => if part == seq!['.', '.'] {
            None
        } else {
            Some(part)
        },
        None => None,
    }
}

/// What follows the last dot of a file name, if the dot is not its first character.
pub open spec fn extension_of(path: Seq<char>) -> Option<Seq<char>> {
    match file_name_of(path) {
        None => None,
        Some(name) => match last_char_index(name, '.') {
            Some(i) => if i > 0 {
                Some(name.skip(i + 1))
            } else {
                None
            },
            None => None,
        },
    }
}

proof fn lemma_component_start(path: Seq<char>, n: int)
    requires
        0 <= n,
    ensures
        0 <= component_start(path, n) <= n,
    decreases n,
{
    if n > 0 && path[n - 1] != '/' {
        lemma_component_start(path, n - 1);
    }
}

/// Whether a path starts at the root.
pub fn is_absolute(path: &str) -> (r: bool)
    ensures
        r == absolute(path@),
{
    let p: Vec<char> = chars_of(path);
    p.len() > 0 && p[0] == '/'
}

/// The path as seen from a directory.
pub fn join(base: &str, path: &str) -> (r: String)
    ensures
        r@ == joined_path(base@, path@),
{
    let p: Vec<char> = chars_of(path);
    if p.len() > 0 && p[0] == '/' {
        return string_of(p.as_slice());
    }
    let mut out: Vec<char> = chars_of(base);
    if out.len() > 0 && out[out.len() - 1] != '/' {
        out.push('/');
        assert(out@ =~= base@ + seq!['/']);
    }
    append_text(&mut out, p.as_slice());
    string_of(out.as_slice())
}

fn find_component_start(path: &[char], n: usize) -> (r: usize)
    requires
        n <= path@.len(),
    ensures
        r == component_start(path@, n as int),
        r <= n,
{
    let mut i: usize = n;
    while i > 0 && path[i - 1] != '/'
        invariant
            i <= n <= path@.len(),
            component_start(path@, n as int) == component_start(path@, i as int),
        decreases i,
    {
        i -= 1;
    }
    i
}

fn find_last_span(path: &[char], from: usize) -> (r: Option<(usize, usize)>)
    requires
        from <= path@.len(),
    ensures
        match r {
            Some((start, end)) => last_span(path@, from as int) == Some((start as int, end as int))
                && start < end <= from,
            None => last_span(path@, from as int) is None,
        },
{
    let mut n: usize = from;
    while n > 0
        invariant
            n <= from <= path@.len(),
            last_span(path@, from as int) == last_span(path@, n as int),
        decreases n,
    {
        let start: usize = find_component_start(path, n);
        if start == n {
            n -= 1;
        } else {
            let part: &[char] = span(path, start, n);
            if part.len() == 1 && part[0] == '.' {
                assert(part@ =~= seq!['.']);
                n = start;
            } else {
                assert(part@ != seq!['.']);
                return Some((start, n));
            }
        }
    }
    None
}

fn find_file_name(path: &[char]) -> (r: Option<&[char]>)
    ensures
        match r {
            Some(name) => file_name_of(path@) == Some(name@),
            None => file_name_of(path@) is None,
        },
{
    match find_last_span(path, path.len()) {
        None => None,
        Some((start, end)) => {
            let part: &[char] = span(path, start, end);
            if part.len() == 2 && part[0] == '.' && part[1] == '.' {
                assert(part@ =~= seq!['.', '.']);
                None
            } else {
                assert(part@ != seq!['.', '.']);
                Some(part)
            }
        },
    }
}

/// An absolute path without its last component.
pub fn parent(path: &str) -> (r: String)
    requires
        absolute(path@),
    ensures
        r@ == parent_of(path@),
{
    let p: Vec<char> = chars_of(path);
    match find_last_span(p.as_slice(), p.len()) {
        None => string_of(p.as_slice()),
        Some((start, _)) => match find_last_span(p.as_slice(), start) {
            Some((_, end)) => {
                let out: &[char] = span(p.as_slice(), 0, end);
                assert(out@ =~= path@.take(end as int));
                string_of(out)
            },
            None => {
                let out: &[char] = span(p.as_slice(), 0, 1);
                assert(out@ =~= path@.take(1));
                string_of(out)
            },
        },
    }
}

/// The file name of a path.
pub fn file_name(path: &str) -> (r: Option<String>)
    ensures
        match r {
            Some(name) => file_name_of(path@) == Some(name@),
            None => file_name_of(path@) is None,
        },
{
    let p: Vec<char> = chars_of(path);
    match find_file_name(p.as_slice()) {
        Some(name) => Some(string_of(name)),
        None => None,
    }
}

/// The extension of the file name of a path.
pub fn extension(path: &str) -> (r: Option<Vec<char>>)
    ensures
        match r {
            Some(ext) => extension_of(path@) == Some(ext@),
            None => extension_of(path@) is None,
        },
{
    let p: Vec<char> = chars_of(path);
    match find_file_name(p.as_slice()) {
        None => None,
        Some(name) => match rfind_char(name, '.') {
            Some(i) => {
                proof {
                    lemma_last_before(name@, '.', name@.len() as int);
                }
                if i > 0 {
                    let total: usize = name.len();
                    let mut out: Vec<char> = Vec::new();
                    append_text(&mut out, span(name, i + 1, total));
                    assert(out@ =~= name@.skip(i + 1));
                    Some(out)
                } else {
                    None
                }
            },
            None => None,
        },
    }
}

// ---------------------------------------------------------------------------
// Names and directories
// ---------------------------------------------------------------------------
/// A component of a path that stands for itself.
pub open spec fn is_part(part: Seq<char>) -> bool {
    part.len() > 0 && !part.contains('/') && part != seq!['.']
}

/// A text that a component may follow: nothing, or one with a `/` at its end.
pub open spec fn is_front(front: Seq<char>) -> bool {
    front.len() == 0 || front.last() == '/'
}

proof fn lemma_part_start(front: Seq<char>, part: Seq<char>, rest: Seq<char>, n: int)
    requires
        is_front(front),
        !part.contains('/'),
        0 <= n <= part.len(),
    ensures
        component_start(front + part + rest, front.len() + n) == front.len(),
    decreases n,
{
    let path = front + part + rest;
    if n > 0 {
        lemma_part_start(front, part, rest, n - 1);
        assert(path[front.len() + n - 1] == part[n - 1]);
        assert(part.contains(part[n - 1]));
    } else if front.len() > 0 {
        assert(path[front.len() - 1] == front.last());
    }
}

/// A component is found where it stands, whatever follows it.
proof fn lemma_part_span(front: Seq<char>, part: Seq<char>, rest: Seq<char>)
    requires
        is_front(front),
        is_part(part),
    ensures
        last_span(front + part + rest, (front + part).len() as int) == Some(
            (front.len() as int, (front + part).len() as int),
        ),
{
    let path = front + part + rest;
    let n = (front + part).len() as int;
    lemma_part_start(front, part, rest, part.len() as int);
    assert(path.subrange(front.len() as int, n) =~= part);
}

/// A name at the end of a path is its file name, and that of the path with `/` or `/.`
/// behind it; `..` is none.
pub proof fn law_file_name_ends_the_path(front: Seq<char>, name: Seq<char>)
    requires
        is_front(front),
        is_part(name),
    ensures
        ({
            let found = if name == seq!['.', '.'] {
                None
            } else {
                Some(name)
            };
            &&& file_name_of(front + name) == found
            &&& file_name_of(front + name + seq!['/']) == found
            &&& file_name_of(front + name + seq!['/', '.']) == found
        }),
{
    let n = (front + name).len() as int;
    let empty = Seq::<char>::empty();
    assert(front + name + empty =~= front + name);
    lemma_part_span(front, name, empty);
    assert((front + name).subrange(front.len() as int, n) =~= name);
    let slash = front + name + seq!['/'];
    lemma_part_span(front, name, seq!['/']);
    assert(slash[n] == '/');
    assert(slash.subrange(front.len() as int, n) =~= name);
    assert(last_span(slash, n + 1) == last_span(slash, n));
    let dot = front + name + seq!['/', '.'];
    lemma_part_span(front, name, seq!['/', '.']);
    assert(dot[n] == '/' && dot[n + 1] == '.');
    assert(component_start(dot, n + 1) == n + 1);
    assert(component_start(dot, n + 2) == n + 1);
    assert(dot.subrange(n + 1, n + 2) =~= seq!['.']);
    assert(last_span(dot, n + 1) == last_span(dot, n));
    assert(last_span(dot, n + 2) == last_span(dot, n + 1));
    assert(dot.subrange(front.len() as int, n) =~= name);
}

/// The extension is what stands behind the last dot of the file name; a dot at its start
/// starts none.
pub proof fn law_extension_follows_the_last_dot(
    front: Seq<char>,
    stem: Seq<char>,
    extension: Seq<char>,
)
    requires
        is_front(front),
        !stem.contains('/'),
        !extension.contains('/'),
        !extension.contains('.'),
        stem + seq!['.'] + extension != seq!['.'],
        stem + seq!['.'] + extension != seq!['.', '.'],
    ensures
        extension_of(front + (stem + seq!['.'] + extension)) == if stem.len() > 0 {
            Some(extension)
        } else {
            None
        },
{
    let name = stem + seq!['.'] + extension;
    assert(!name.contains('/')) by {
        if name.contains('/') {
            let i = choose|i: int| 0 <= i < name.len() && name[i] == '/';
            if i < stem.len() {
                assert(stem[i] == '/');
            } else {
                assert(i > stem.len());
                assert(extension[i - stem.len() - 1] == '/');
            }
        }
    }
    law_file_name_ends_the_path(front, name);
    lemma_last_before(name, '.', name.len() as int);
    assert(name[stem.len() as int] == '.');
    let i = last_char_index(name, '.')->0;
    if i > stem.len() {
        assert(extension[i - stem.len() - 1] == '.');
    }
    assert(name.skip(stem.len() as int + 1) =~= extension);
}

/// A file name without a dot has no extension.
pub proof fn law_name_without_dot_has_no_extension(front: Seq<char>, name: Seq<char>)
    requires
        is_front(front),
        is_part(name),
        !name.contains('.'),
    ensures
        extension_of(front + name) is None,
{
    law_file_name_ends_the_path(front, name);
    lemma_last_before(name, '.', name.len() as int);
}

/// A name that is looked up in a directory is the file name of the path, and the directory
/// is its parent; so is the root.
pub proof fn law_joined_path_is_in_its_directory(
    front: Seq<char>,
    directory: Seq<char>,
    name: Seq<char>,
)
    requires
        absolute(front),
        is_front(front),
        is_part(directory),
        is_part(name),
        name != seq!['.', '.'],
    ensures
        file_name_of(joined_path(front + directory, name)) == Some(name),
        parent_of(joined_path(front + directory, name)) == front + directory,
        file_name_of(joined_path(seq!['/'], name)) == Some(name),
        parent_of(joined_path(seq!['/'], name)) == seq!['/'],
{
    let base = front + directory;
    let n = base.len() as int;
    assert(name.contains(name[0]));
    assert(base.last() == directory.last());
    assert(directory.contains(directory.last()));
    let outer = base + seq!['/'];
    let path = joined_path(base, name);
    assert(path =~= outer + name);
    law_file_name_ends_the_path(outer, name);
    let empty = Seq::<char>::empty();
    assert(outer + name + empty =~= path);
    lemma_part_span(outer, name, empty);
    let rest = seq!['/'] + name;
    assert(front + directory + rest =~= path);
    lemma_part_span(front, directory, rest);
    assert(path[n] == '/');
    assert(component_start(path, n + 1) == n + 1);
    assert(last_span(path, n + 1) == last_span(path, n));
    assert(path.take(n) =~= base);
    let top = joined_path(seq!['/'], name);
    assert(top =~= seq!['/'] + name);
    law_file_name_ends_the_path(seq!['/'], name);
    assert(seq!['/'] + name + empty =~= top);
    lemma_part_span(seq!['/'], name, empty);
    assert(top[0] == '/');
    assert(component_start(top, 1) == 1);
    assert(last_span(top, 1) == last_span(top, 0));
    assert(top.take(1) =~= seq!['/']);
}

/// An absolute path stands for itself, wherever it is looked up.
pub proof fn law_absolute_path_stands_for_itself(base: Seq<char>, path: Seq<char>)
    ensures
        joined_path(base, seq!['/'] + path) == seq!['/'] + path,
{
}

} // verus!
