//! The new contents of a file: where the chunks of a patch go, and what stands there
//! afterwards.
use vstd::prelude::*;
use vstd::slice::slice_subrange;

use crate::anchor_finder::{capped, finder_for, scope_of, AnchorFinder, FinderModel};
use crate::error::{ApplyErrorModel, ApplyPatchError};
use crate::indent::{
    corrected, correct_indentation_impl, is_moved, law_corrected_lines_are_moved,
};
use crate::lines::{
    copy_texts, join_lines, joined, lemma_texts_push, piece_seq, split_pieces, texts, texts_of,
};
use crate::parser::{chunk_models, option_text, ChunkModel, UpdateFileChunk};
use crate::seek_sequence::{
    is_found_at, law_exact_match_comes_first, law_match_starts_at_or_after_start,
    law_search_finds_the_pattern, matches_block, seek, seek_texts, solids, Strictness,
};
use crate::text::{append_str, append_text, chars_of, is_blank, is_blank_text, string_of};

verus! {

// ---------------------------------------------------------------------------
// Places
// ---------------------------------------------------------------------------
/// Lines to put in the place of others.
#[verifier::ext_equal]
pub ghost struct ReplacementModel {
    pub start: int,
    pub old_len: int,
    pub new_lines: Seq<Seq<char>>,
}

/// Where a chunk goes: the lines that it replaces, the lines that it puts there
/// before their indentation is corrected, and where the search for the next chunk
/// starts.
#[verifier::ext_equal]
pub ghost struct PlaceModel {
    pub start: int,
    pub pattern: Seq<Seq<char>>,
    pub new_lines: Seq<Seq<char>>,
    pub next: int,
}

/// The list without its last line, if that is empty.
pub open spec fn without_last_empty(list: Seq<Seq<char>>) -> Seq<Seq<char>> {
    if list.len() > 0 && list.last().len() == 0 {
        list.drop_last()
    } else {
        list
    }
}

/// Where lines without a place go: to the end, before an empty last line.
pub open spec fn insertion_index(lines: Seq<Seq<char>>) -> int {
    without_last_empty(lines).len() as int
}

/// Where the search for a chunk starts: behind its context line.
pub open spec fn search_start(
    lines: Seq<Seq<char>>,
    context: Option<Seq<char>>,
    line_index: int,
) -> Option<int> {
    match context {
        None => Some(line_index),
        Some(line) => match seek(lines, seq![line], line_index, false) {
            Some(i) => Some(capped(i + 1)),
            None => None,
        },
    }
}

/// Where a chunk's lines stand, at or after `start`. Those of a chunk that ends the
/// file reach its end.
pub open spec fn chunk_lines_at(
    lines: Seq<Seq<char>>,
    pattern: Seq<Seq<char>>,
    start: int,
    eof: bool,
) -> Option<int> {
    match seek(lines, pattern, start, eof) {
        Some(i) => if eof && i + pattern.len() < lines.len() {
            None
        } else {
            Some(i)
        },
        None => None,
    }
}

/// The place of a chunk with old lines. Where these are not found and end with an
/// empty line, they are looked for without it.
pub open spec fn located(lines: Seq<Seq<char>>, chunk: ChunkModel, start: int) -> Option<
    PlaceModel,
> {
    let old = chunk.old_lines;
    match chunk_lines_at(lines, old, start, chunk.is_end_of_file) {
        Some(i) => Some(
            PlaceModel {
                start: i,
                pattern: old,
                new_lines: chunk.new_lines,
                next: capped(i + old.len()),
            },
        ),
        None => if old.len() > 0 && old.last().len() == 0 {
            let shorter = old.drop_last();
            match chunk_lines_at(lines, shorter, start, chunk.is_end_of_file) {
                Some(i) => Some(
                    PlaceModel {
                        start: i,
                        pattern: shorter,
                        new_lines: without_last_empty(chunk.new_lines),
                        next: capped(i + shorter.len()),
                    },
                ),
                None => None,
            }
        } else {
            None
        },
    }
}

/// The place of a chunk, or why it has none.
pub open spec fn chunk_place(
    lines: Seq<Seq<char>>,
    path: Seq<char>,
    chunk: ChunkModel,
    line_index: int,
) -> Result<PlaceModel, Seq<char>> {
    match search_start(lines, chunk.change_context, line_index) {
        None => Err(
            "Failed to find context '"@ + chunk.change_context->0 + "' in "@ + path,
        ),
        Some(start) => if chunk.old_lines.len() == 0 {
            Ok(
                PlaceModel {
                    start: insertion_index(lines),
                    pattern: Seq::empty(),
                    new_lines: chunk.new_lines,
                    next: start,
                },
            )
        } else {
            match located(lines, chunk, start) {
                Some(place) => Ok(place),
                None => Err(
                    "Failed to find expected lines in "@ + path + ":\n"@ + joined(chunk.old_lines),
                ),
            }
        },
    }
}

/// The first line at or after `i` that is not blank.
pub open spec fn solid_line_from(lines: Seq<Seq<char>>, i: int) -> Option<Seq<char>>
    decreases lines.len() - i,
{
    if i < 0 || i >= lines.len() {
        None
    } else if !is_blank_text(lines[i]) {
        Some(lines[i])
    } else {
        solid_line_from(lines, i + 1)
    }
}

/// The new lines of a place, moved to the column of the scope that its old lines
/// belong to.
pub open spec fn place_lines(finder: FinderModel, place: PlaceModel) -> Seq<Seq<char>> {
    match solid_line_from(place.pattern, 0) {
        None => place.new_lines,
        Some(line) => match scope_of(finder, line, Some(place.start)) {
            Some(scope) => corrected(place.new_lines, scope.start_column as nat),
            None => place.new_lines,
        },
    }
}

pub open spec fn place_replacement(finder: FinderModel, place: PlaceModel) -> ReplacementModel {
    ReplacementModel {
        start: place.start,
        old_len: place.pattern.len() as int,
        new_lines: place_lines(finder, place),
    }
}

/// Where the search for the chunk behind the first `n` starts, if these have places.
pub open spec fn index_after(
    lines: Seq<Seq<char>>,
    path: Seq<char>,
    chunks: Seq<ChunkModel>,
    n: int,
) -> Option<int>
    decreases n,
{
    if n <= 0 {
        Some(0)
    } else {
        match index_after(lines, path, chunks, n - 1) {
            None => None,
            Some(index) => match chunk_place(lines, path, chunks[n - 1], index) {
                Ok(place) => Some(place.next),
                Err(_) => None,
            },
        }
    }
}

/// The replacements for the first `n` chunks, or why one has no place.
pub open spec fn plan(
    lines: Seq<Seq<char>>,
    finder: FinderModel,
    path: Seq<char>,
    chunks: Seq<ChunkModel>,
    n: int,
) -> Result<(int, Seq<ReplacementModel>), Seq<char>>
    decreases n,
{
    if n <= 0 {
        Ok((0, Seq::empty()))
    } else {
        match plan(lines, finder, path, chunks, n - 1) {
            Err(e) => Err(e),
            Ok((index, list)) => match chunk_place(lines, path, chunks[n - 1], index) {
                Err(e) => Err(e),
                Ok(place) => Ok((place.next, list.push(place_replacement(finder, place)))),
            },
        }
    }
}

/// The chunk behind the first `n` goes to a place inside the file or puts no lines
/// there.
pub open spec fn chunk_fits(
    lines: Seq<Seq<char>>,
    path: Seq<char>,
    chunks: Seq<ChunkModel>,
    n: int,
) -> bool {
    match index_after(lines, path, chunks, n) {
        None => true,
        Some(index) => match chunk_place(lines, path, chunks[n], index) {
            Err(_) => true,
            Ok(place) => place.start <= lines.len() || place.new_lines.len() == 0,
        },
    }
}

/// Where every chunk has a place, none puts lines behind the end of the file. (A
/// pattern of blank lines is found at any place, even there.)
pub open spec fn chunks_fit(
    lines: Seq<Seq<char>>,
    path: Seq<char>,
    chunks: Seq<ChunkModel>,
) -> bool {
    index_after(lines, path, chunks, chunks.len() as int) is Some ==> forall|n: int|
        0 <= n < chunks.len() ==> #[trigger] chunk_fits(lines, path, chunks, n)
}

// ---------------------------------------------------------------------------
// Order
// ---------------------------------------------------------------------------
/// The first of the replacements from `i` on that starts behind `start`.
pub open spec fn slot_from(list: Seq<ReplacementModel>, start: int, i: int) -> int
    decreases list.len() - i,
{
    if 0 <= i < list.len() && list[i].start <= start {
        slot_from(list, start, i + 1)
    } else {
        i
    }
}

/// The first `n` replacements by where they start; those that start at the same line
/// keep their order.
pub open spec fn in_order(list: Seq<ReplacementModel>, n: int) -> Seq<ReplacementModel>
    decreases n,
{
    if n <= 0 {
        Seq::empty()
    } else {
        let sorted = in_order(list, n - 1);
        sorted.insert(slot_from(sorted, list[n - 1].start, 0), list[n - 1])
    }
}

pub open spec fn ascending_starts(list: Seq<ReplacementModel>) -> bool {
    forall|i: int, j: int| 0 <= i <= j < list.len() ==> list[i].start <= list[j].start
}

/// Every replacement starts inside the file or puts no lines there.
pub open spec fn replacements_fit(list: Seq<ReplacementModel>, len: int) -> bool {
    forall|i: int|
        0 <= i < list.len() ==> 0 <= (#[trigger] list[i]).start && list[i].old_len >= 0 && (
        list[i].start <= len || list[i].new_lines.len() == 0)
}

proof fn lemma_slot(list: Seq<ReplacementModel>, start: int, i: int)
    requires
        0 <= i <= list.len(),
    ensures
        i <= slot_from(list, start, i) <= list.len(),
        forall|k: int| i <= k < slot_from(list, start, i) ==> (#[trigger] list[k]).start <= start,
        slot_from(list, start, i) < list.len() ==> list[slot_from(list, start, i)].start > start,
    decreases list.len() - i,
{
    if i < list.len() && list[i].start <= start {
        lemma_slot(list, start, i + 1);
    }
}

proof fn lemma_insert_in_order(list: Seq<ReplacementModel>, r: ReplacementModel)
    requires
        ascending_starts(list),
    ensures
        ascending_starts(list.insert(slot_from(list, r.start, 0), r)),
{
    lemma_slot(list, r.start, 0);
    let p = slot_from(list, r.start, 0);
    let out = list.insert(p, r);
    assert forall|i: int, j: int| 0 <= i <= j < out.len() implies out[i].start <= out[j].start by {
        if i < p {
            assert(out[i] == list[i]);
        } else if i > p {
            assert(out[i] == list[i - 1]);
        }
        if j < p {
            assert(out[j] == list[j]);
        } else if j > p {
            assert(out[j] == list[j - 1]);
            assert(list[p].start <= list[j - 1].start);
        }
    }
}

/// Replacements in order start one behind the other, none is lost and none added.
pub proof fn law_order_keeps_replacements(list: Seq<ReplacementModel>, n: int)
    requires
        0 <= n <= list.len(),
    ensures
        ascending_starts(in_order(list, n)),
        in_order(list, n).to_multiset() == list.take(n).to_multiset(),
        in_order(list, n).len() == n,
    decreases n,
{
    broadcast use vstd::seq_lib::group_to_multiset_ensures;

    if n > 0 {
        law_order_keeps_replacements(list, n - 1);
        let sorted = in_order(list, n - 1);
        let r = list[n - 1];
        lemma_insert_in_order(sorted, r);
        lemma_slot(sorted, r.start, 0);
        let p = slot_from(sorted, r.start, 0);
        vstd::seq_lib::to_multiset_insert(sorted, p, r);
        assert(list.take(n) =~= list.take(n - 1).push(r));
        vstd::seq_lib::to_multiset_build(list.take(n - 1), r);
    } else {
        assert(list.take(0) =~= Seq::<ReplacementModel>::empty());
    }
}

proof fn lemma_order_fits(list: Seq<ReplacementModel>, n: int, len: int)
    requires
        0 <= n <= list.len(),
        replacements_fit(list, len),
    ensures
        replacements_fit(in_order(list, n), len),
    decreases n,
{
    if n > 0 {
        lemma_order_fits(list, n - 1, len);
        let sorted = in_order(list, n - 1);
        let r = list[n - 1];
        lemma_slot(sorted, r.start, 0);
        let p = slot_from(sorted, r.start, 0);
        let out = sorted.insert(p, r);
        assert forall|i: int| 0 <= i < out.len() implies 0 <= (#[trigger] out[i]).start
            && out[i].old_len >= 0 && (out[i].start <= len || out[i].new_lines.len() == 0) by {
            if i < p {
                assert(out[i] == sorted[i]);
            } else if i > p {
                assert(out[i] == sorted[i - 1]);
            } else {
                assert(out[i] == list[n - 1]);
            }
        }
    }
}

// ---------------------------------------------------------------------------
// Replacing
// ---------------------------------------------------------------------------
/// The lines with one replacement made.
pub open spec fn replaced_lines(lines: Seq<Seq<char>>, r: ReplacementModel) -> Seq<Seq<char>> {
    if r.start > lines.len() {
        lines
    } else {
        let end = if r.start + r.old_len < lines.len() {
            r.start + r.old_len
        } else {
            lines.len() as int
        };
        lines.take(r.start) + r.new_lines + lines.skip(end)
    }
}

/// The lines with the first `n` replacements made, the last one first.
pub open spec fn with_replacements(
    lines: Seq<Seq<char>>,
    list: Seq<ReplacementModel>,
    n: int,
) -> Seq<Seq<char>>
    decreases n,
{
    if n <= 0 {
        lines
    } else {
        with_replacements(replaced_lines(lines, list[n - 1]), list, n - 1)
    }
}

/// Each of the first `n` replacements starts inside the lines when its turn comes, the
/// last one first, or puts no lines there.
pub open spec fn fit_in_turn(
    lines: Seq<Seq<char>>,
    list: Seq<ReplacementModel>,
    n: int,
) -> bool
    decreases n,
{
    n <= 0 || {
        &&& list[n - 1].start <= lines.len() || list[n - 1].new_lines.len() == 0
        &&& fit_in_turn(replaced_lines(lines, list[n - 1]), list, n - 1)
    }
}

/// The lines of a file: the pieces between its line feeds, without the empty one
/// behind a final line feed.
pub open spec fn file_lines(contents: Seq<char>) -> Seq<Seq<char>> {
    without_last_empty(piece_seq(contents))
}

/// The text of a file with the given lines: it ends with a line feed.
pub open spec fn file_text(lines: Seq<Seq<char>>) -> Seq<char> {
    if lines.len() > 0 && lines.last().len() == 0 {
        joined(lines)
    } else {
        joined(lines.push(Seq::empty()))
    }
}

/// The replacements for all chunks, in order.
pub open spec fn ordered_plan(
    lines: Seq<Seq<char>>,
    finder: FinderModel,
    path: Seq<char>,
    chunks: Seq<ChunkModel>,
) -> Result<Seq<ReplacementModel>, Seq<char>> {
    match plan(lines, finder, path, chunks, chunks.len() as int) {
        Ok((_, list)) => Ok(in_order(list, list.len() as int)),
        Err(e) => Err(e),
    }
}

/// The contents of a file once the chunks of a patch have been applied, as `finder`
/// sees the file, or why they cannot be.
pub open spec fn new_contents_with(
    contents: Seq<char>,
    finder: FinderModel,
    path: Seq<char>,
    chunks: Seq<ChunkModel>,
) -> Result<Seq<char>, Seq<char>> {
    let lines = file_lines(contents);
    match ordered_plan(lines, finder, path, chunks) {
        Ok(list) => Ok(file_text(with_replacements(lines, list, list.len() as int))),
        Err(e) => Err(e),
    }
}

/// The contents of a file once the chunks of a patch have been applied, or why they
/// cannot be.
pub open spec fn new_contents(path: Seq<char>, contents: Seq<char>, chunks: Seq<ChunkModel>) -> Result<
    Seq<char>,
    Seq<char>,
> {
    new_contents_with(
        contents,
        finder_for(path, contents, piece_seq(contents).len() as int),
        path,
        chunks,
    )
}

/// Where every chunk has a place in the file with these contents, none puts lines
/// behind its end.
pub open spec fn contents_fit(path: Seq<char>, contents: Seq<char>, chunks: Seq<ChunkModel>) -> bool {
    chunks_fit(file_lines(contents), path, chunks)
}

// ---------------------------------------------------------------------------
// Finding the places
// ---------------------------------------------------------------------------
/// Lines to put in the place of others.
#[derive(Debug)]
pub struct Replacement {
    /// The first line to replace.
    pub start: usize,
    /// How many lines to replace.
    pub old_len: usize,
    pub new_lines: Vec<Vec<char>>,
}

impl View for Replacement {
    type V = ReplacementModel;

    open spec fn view(&self) -> ReplacementModel {
        ReplacementModel {
            start: self.start as int,
            old_len: self.old_len as int,
            new_lines: texts(self.new_lines@),
        }
    }
}

pub open spec fn replacement_models(v: Seq<Replacement>) -> Seq<ReplacementModel> {
    Seq::new(v.len(), |i: int| v[i]@)
}

struct Place {
    start: usize,
    pattern: Vec<Vec<char>>,
    new_lines: Vec<Vec<char>>,
    next: usize,
}

spec fn place_model(p: Place) -> PlaceModel {
    PlaceModel {
        start: p.start as int,
        pattern: texts(p.pattern@),
        new_lines: texts(p.new_lines@),
        next: p.next as int,
    }
}

fn capped_sum(a: usize, b: usize) -> (r: usize)
    ensures
        r == capped(a + b),
{
    if a <= usize::MAX - b {
        a + b
    } else {
        usize::MAX
    }
}

fn drop_last_empty(list: &[Vec<char>]) -> (r: &[Vec<char>])
    ensures
        texts(r@) == without_last_empty(texts(list@)),
{
    let n: usize = list.len();
    if n > 0 && list[n - 1].len() == 0 {
        let out: &[Vec<char>] = slice_subrange(list, 0, n - 1);
        assert(texts(list@).last() == list@[n - 1]@);
        assert(texts(out@) =~= texts(list@).drop_last());
        out
    } else {
        if n > 0 {
            assert(texts(list@).last() == list@[n - 1]@);
        }
        list
    }
}

fn find_chunk_lines(lines: &[Vec<char>], pattern: &[Vec<char>], start: usize, eof: bool) -> (r:
    Option<usize>)
    ensures
        match r {
            Some(i) => chunk_lines_at(texts(lines@), texts(pattern@), start as int, eof) == Some(
                i as int,
            ),
            None => chunk_lines_at(texts(lines@), texts(pattern@), start as int, eof) is None,
        },
{
    let total: usize = lines.len();
    let n: usize = pattern.len();
    match seek_texts(lines, pattern, start, eof) {
        Some(i) => if eof && n < total && i < total - n {
            None
        } else {
            Some(i)
        },
        None => None,
    }
}

fn locate(lines: &[Vec<char>], old: &[Vec<char>], new_lines: &[Vec<char>], start: usize, eof: bool, Ghost(
    chunk,
): Ghost<ChunkModel>) -> (r: Option<Place>)
    requires
        chunk.old_lines == texts(old@),
        chunk.new_lines == texts(new_lines@),
        chunk.is_end_of_file == eof,
    ensures
        match r {
            Some(p) => located(texts(lines@), chunk, start as int) == Some(place_model(p)),
            None => located(texts(lines@), chunk, start as int) is None,
        },
{
    match find_chunk_lines(lines, old, start, eof) {
        Some(i) => {
            return Some(
                Place {
                    start: i,
                    pattern: copy_texts(old),
                    new_lines: copy_texts(new_lines),
                    next: capped_sum(i, old.len()),
                },
            );
        },
        None => {},
    }
    let n: usize = old.len();
    if n > 0 {
        assert(texts(old@).last() == old@[n - 1]@);
        if old[n - 1].len() == 0 {
            let shorter: &[Vec<char>] = slice_subrange(old, 0, n - 1);
            assert(texts(shorter@) =~= texts(old@).drop_last());
            match find_chunk_lines(lines, shorter, start, eof) {
                Some(i) => {
                    return Some(
                        Place {
                            start: i,
                            pattern: copy_texts(shorter),
                            new_lines: copy_texts(drop_last_empty(new_lines)),
                            next: capped_sum(i, shorter.len()),
                        },
                    );
                },
                None => {},
            }
        }
    }
    None
}

fn find_search_start(lines: &[Vec<char>], context: &Option<String>, line_index: usize) -> (r: Option<
    usize,
>)
    ensures
        match r {
            Some(i) => search_start(texts(lines@), option_text(*context), line_index as int)
                == Some(i as int),
            None => search_start(texts(lines@), option_text(*context), line_index as int) is None,
        },
{
    match context {
        None => Some(line_index),
        Some(line) => {
            let mut pattern: Vec<Vec<char>> = Vec::new();
            pattern.push(chars_of(line.as_str()));
            assert(texts(pattern@) =~= seq![line@]);
            match seek_texts(lines, pattern.as_slice(), line_index, false) {
                Some(i) => Some(capped_sum(i, 1)),
                None => None,
            }
        },
    }
}

fn find_place(lines: &[Vec<char>], path: &str, chunk: &UpdateFileChunk, line_index: usize) -> (r:
    Result<Place, String>)
    ensures
        match r {
            Ok(p) => chunk_place(texts(lines@), path@, chunk@, line_index as int) == Ok::<
                PlaceModel,
                Seq<char>,
            >(place_model(p)),
            Err(e) => chunk_place(texts(lines@), path@, chunk@, line_index as int) == Err::<
                PlaceModel,
                Seq<char>,
            >(e@),
        },
{
    let start: usize = match find_search_start(lines, &chunk.change_context, line_index) {
        Some(i) => i,
        None => {
            let mut out: Vec<char> = chars_of("Failed to find context '");
            match &chunk.change_context {
                Some(line) => {
                    append_str(&mut out, line.as_str());
                },
                None => {},
            }
            append_str(&mut out, "' in ");
            append_str(&mut out, path);
            return Err(string_of(out.as_slice()));
        },
    };
    let old: Vec<Vec<char>> = texts_of(chunk.old_lines.as_slice());
    let new_lines: Vec<Vec<char>> = texts_of(chunk.new_lines.as_slice());
    if old.len() == 0 {
        let pattern: Vec<Vec<char>> = Vec::new();
        assert(texts(pattern@) =~= Seq::<Seq<char>>::empty());
        assert(chunk@.old_lines.len() == 0);
        return Ok(
            Place { start: drop_last_empty(lines).len(), pattern, new_lines, next: start },
        );
    }
    match locate(
        lines,
        old.as_slice(),
        new_lines.as_slice(),
        start,
        chunk.is_end_of_file,
        Ghost(chunk@),
    ) {
        Some(place) => Ok(place),
        None => {
            let mut out: Vec<char> = chars_of("Failed to find expected lines in ");
            append_str(&mut out, path);
            append_str(&mut out, ":\n");
            append_text(&mut out, join_lines(old.as_slice()).as_slice());
            Err(string_of(out.as_slice()))
        },
    }
}

fn find_solid_line(lines: &[Vec<char>]) -> (r: Option<String>)
    ensures
        match r {
            Some(t) => solid_line_from(texts(lines@), 0) == Some(t@),
            None => solid_line_from(texts(lines@), 0) is None,
        },
{
    let ghost all = texts(lines@);
    let mut i: usize = 0;
    while i < lines.len()
        invariant
            i <= lines@.len(),
            all == texts(lines@),
            solid_line_from(all, 0) == solid_line_from(all, i as int),
        decreases lines@.len() - i,
    {
        assert(all[i as int] == lines@[i as int]@);
        if !is_blank(lines[i].as_slice()) {
            return Some(string_of(lines[i].as_slice()));
        }
        i += 1;
    }
    None
}

fn make_replacement(place: Place, anchor_finder: &AnchorFinder<'_>) -> (r: Replacement)
    ensures
        r@ == place_replacement(anchor_finder@, place_model(place)),
{
    let old_len: usize = place.pattern.len();
    let new_lines: Vec<Vec<char>> = match find_solid_line(place.pattern.as_slice()) {
        None => place.new_lines,
        Some(line) => match anchor_finder.scope_for_context_with_hint(
            line.as_str(),
            Some(place.start),
        ) {
            Some(scope) => correct_indentation_impl(
                place.new_lines.as_slice(),
                scope.start_column,
            ),
            None => place.new_lines,
        },
    };
    Replacement { start: place.start, old_len, new_lines }
}

fn find_slot(list: &[Replacement], start: usize) -> (r: usize)
    ensures
        r == slot_from(replacement_models(list@), start as int, 0),
        r <= list@.len(),
{
    let ghost all = replacement_models(list@);
    let mut i: usize = 0;
    while i < list.len() && list[i].start <= start
        invariant
            i <= list@.len(),
            all == replacement_models(list@),
            slot_from(all, start as int, 0) == slot_from(all, start as int, i as int),
        decreases list@.len() - i,
    {
        i += 1;
    }
    i
}

/// The outcome of the search for places.
pub open spec fn plan_outcome(r: Result<Vec<Replacement>, ApplyPatchError>) -> Result<
    Seq<ReplacementModel>,
    ApplyErrorModel,
> {
    match r {
        Ok(list) => Ok(replacement_models(list@)),
        Err(e) => Err(e@),
    }
}

/// An outcome whose error is the message of an apply error.
pub open spec fn as_apply_error<T>(r: Result<T, Seq<char>>) -> Result<T, ApplyErrorModel> {
    match r {
        Ok(t) => Ok(t),
        Err(e) => Err(ApplyErrorModel::ComputeReplacements(e)),
    }
}

/// The replacements that the chunks of a patch ask for, in order.
pub fn compute_replacements(
    original_lines: &[Vec<char>],
    path: &str,
    chunks: &[UpdateFileChunk],
    anchor_finder: &AnchorFinder<'_>,
) -> (r: Result<Vec<Replacement>, ApplyPatchError>)
    ensures
        plan_outcome(r) == as_apply_error(
            ordered_plan(texts(original_lines@), anchor_finder@, path@, chunk_models(chunks@)),
        ),
{
    let ghost lines = texts(original_lines@);
    let ghost models = chunk_models(chunks@);
    let ghost mut list = Seq::<ReplacementModel>::empty();
    let mut sorted: Vec<Replacement> = Vec::new();
    let mut index: usize = 0;
    let mut i: usize = 0;
    assert(replacement_models(sorted@) =~= Seq::<ReplacementModel>::empty());
    while i < chunks.len()
        invariant
            i <= chunks@.len(),
            lines == texts(original_lines@),
            models == chunk_models(chunks@),
            plan(lines, anchor_finder@, path@, models, i as int) == Ok::<
                (int, Seq<ReplacementModel>),
                Seq<char>,
            >((index as int, list)),
            list.len() == i,
            replacement_models(sorted@) == in_order(list, list.len() as int),
        decreases chunks@.len() - i,
    {
        assert(models[i as int] == chunks@[i as int]@);
        match find_place(original_lines, path, &chunks[i], index) {
            Err(e) => {
                proof {
                    lemma_plan_fails(
                        lines,
                        anchor_finder@,
                        path@,
                        models,
                        i + 1,
                        models.len() as int,
                    );
                }
                return Err(ApplyPatchError::ComputeReplacements(e));
            },
            Ok(place) => {
                index = place.next;
                let r: Replacement = make_replacement(place, anchor_finder);
                let slot: usize = find_slot(sorted.as_slice(), r.start);
                let ghost before = sorted@;
                proof {
                    let longer = list.push(r@);
                    lemma_order_prefix(list, r@, list.len() as int);
                    assert(longer[list.len() as int] == r@);
                    list = longer;
                }
                sorted.insert(slot, r);
                assert(replacement_models(sorted@) =~= replacement_models(before).insert(
                    slot as int,
                    r@,
                ));
            },
        }
        i += 1;
    }
    Ok(sorted)
}

proof fn lemma_plan_fails(
    lines: Seq<Seq<char>>,
    finder: FinderModel,
    path: Seq<char>,
    chunks: Seq<ChunkModel>,
    k: int,
    n: int,
)
    requires
        0 <= k <= n,
        plan(lines, finder, path, chunks, k) is Err,
    ensures
        plan(lines, finder, path, chunks, n) == plan(lines, finder, path, chunks, k),
    decreases n,
{
    if k < n {
        lemma_plan_fails(lines, finder, path, chunks, k, n - 1);
    }
}

proof fn lemma_order_prefix(list: Seq<ReplacementModel>, r: ReplacementModel, n: int)
    requires
        0 <= n <= list.len(),
    ensures
        in_order(list.push(r), n) == in_order(list, n),
    decreases n,
{
    if n > 0 {
        lemma_order_prefix(list, r, n - 1);
        assert(list.push(r)[n - 1] == list[n - 1]);
    }
}

// ---------------------------------------------------------------------------
// Making the replacements
// ---------------------------------------------------------------------------
fn replace_lines(lines: &mut Vec<Vec<char>>, r: &Replacement)
    requires
        r.start <= old(lines)@.len() || r.new_lines@.len() == 0,
    ensures
        texts(final(lines)@) == replaced_lines(texts(old(lines)@), r@),
{
    let n: usize = lines.len();
    if r.start > n {
        return;
    }
    let end: usize = if r.old_len < n - r.start {
        r.start + r.old_len
    } else {
        n
    };
    let mut out: Vec<Vec<char>> = copy_texts(slice_subrange(lines.as_slice(), 0, r.start));
    let mut middle: Vec<Vec<char>> = copy_texts(r.new_lines.as_slice());
    let mut rest: Vec<Vec<char>> = copy_texts(slice_subrange(lines.as_slice(), end, n));
    let ghost a = texts(lines@).take(r.start as int);
    let ghost b = texts(r.new_lines@);
    let ghost c = texts(lines@).skip(end as int);
    assert(texts(out@) =~= a);
    assert(texts(middle@) =~= b);
    assert(texts(rest@) =~= c);
    let ghost out1 = out@;
    let ghost mid1 = middle@;
    out.append(&mut middle);
    assert(texts(out@) =~= texts(out1) + texts(mid1));
    let ghost out2 = out@;
    let ghost rest1 = rest@;
    out.append(&mut rest);
    assert(texts(out@) =~= texts(out2) + texts(rest1));
    assert(texts(out@) =~= a + b + c);
    *lines = out;
}

/// Makes the replacements, the last one first, so that the places of the others stay
/// as they are.
pub fn apply_replacements(lines: Vec<Vec<char>>, replacements: &[Replacement]) -> (r: Vec<Vec<char>>)
    requires
        fit_in_turn(
            texts(lines@),
            replacement_models(replacements@),
            replacements@.len() as int,
        ),
    ensures
        texts(r@) == with_replacements(
            texts(lines@),
            replacement_models(replacements@),
            replacements@.len() as int,
        ),
{
    let ghost list = replacement_models(replacements@);
    let ghost whole = with_replacements(texts(lines@), list, list.len() as int);
    let mut out: Vec<Vec<char>> = lines;
    let mut n: usize = replacements.len();
    while n > 0
        invariant
            n <= replacements@.len(),
            list == replacement_models(replacements@),
            fit_in_turn(texts(out@), list, n as int),
            with_replacements(texts(out@), list, n as int) == whole,
        decreases n,
    {
        let r: &Replacement = &replacements[n - 1];
        assert(list[n - 1] == r@);
        assert(texts(out@).len() == out@.len());
        replace_lines(&mut out, r);
        n -= 1;
    }
    out
}

proof fn lemma_fit_in_turn(lines: Seq<Seq<char>>, list: Seq<ReplacementModel>, n: int)
    requires
        0 <= n <= list.len(),
        ascending_starts(list),
        forall|i: int|
            0 <= i < n ==> 0 <= (#[trigger] list[i]).start && list[i].old_len >= 0 && (
            list[i].start <= lines.len() || list[i].new_lines.len() == 0),
    ensures
        fit_in_turn(lines, list, n),
    decreases n,
{
    if n > 0 {
        let next = replaced_lines(lines, list[n - 1]);
        assert forall|i: int| 0 <= i < n - 1 implies (#[trigger] list[i]).start <= next.len()
            || list[i].new_lines.len() == 0 by {
            assert(list[i].start <= list[n - 1].start);
        }
        lemma_fit_in_turn(next, list, n - 1);
    }
}

pub(crate) proof fn lemma_plan_has_index(
    lines: Seq<Seq<char>>,
    finder: FinderModel,
    path: Seq<char>,
    chunks: Seq<ChunkModel>,
    n: int,
)
    requires
        0 <= n,
    ensures
        match plan(lines, finder, path, chunks, n) {
            Ok((index, _)) => index_after(lines, path, chunks, n) == Some(index),
            Err(_) => index_after(lines, path, chunks, n) is None,
        },
    decreases n,
{
    if n > 0 {
        lemma_plan_has_index(lines, finder, path, chunks, n - 1);
    }
}

proof fn lemma_plan_fits(
    lines: Seq<Seq<char>>,
    finder: FinderModel,
    path: Seq<char>,
    chunks: Seq<ChunkModel>,
    n: int,
)
    requires
        0 <= n <= chunks.len(),
        forall|k: int| 0 <= k < n ==> #[trigger] chunk_fits(lines, path, chunks, k),
        plan(lines, finder, path, chunks, n) is Ok,
    ensures
        ({
            let (index, list) = plan(lines, finder, path, chunks, n)->Ok_0;
            &&& index_after(lines, path, chunks, n) == Some(index)
            &&& list.len() == n
            &&& forall|i: int|
                0 <= i < list.len() ==> (#[trigger] list[i]).start <= lines.len()
                    || list[i].new_lines.len() == 0
        }),
    decreases n,
{
    if n > 0 {
        lemma_plan_fits(lines, finder, path, chunks, n - 1);
        let (index, list) = plan(lines, finder, path, chunks, n - 1)->Ok_0;
        assert(chunk_fits(lines, path, chunks, n - 1));
        let place = chunk_place(lines, path, chunks[n - 1], index)->Ok_0;
        let r = place_replacement(finder, place);
        assert(r.new_lines.len() == place.new_lines.len());
        let longer = list.push(r);
        assert forall|i: int| 0 <= i < longer.len() implies (#[trigger] longer[i]).start
            <= lines.len() || longer[i].new_lines.len() == 0 by {
            if i < list.len() {
                assert(longer[i] == list[i]);
            }
        }
    }
}

/// The outcome of applying chunks.
pub open spec fn contents_outcome(r: Result<String, ApplyPatchError>) -> Result<
    Seq<char>,
    ApplyErrorModel,
> {
    match r {
        Ok(t) => Ok(t@),
        Err(e) => Err(e@),
    }
}

/// Applies the chunks of a patch to the contents of a file that `anchor_finder` looks
/// at.
pub fn apply_chunks_with(
    path: &str,
    contents: &str,
    chunks: &[UpdateFileChunk],
    anchor_finder: &AnchorFinder<'_>,
) -> (r: Result<String, ApplyPatchError>)
    requires
        contents_fit(path@, contents@, chunk_models(chunks@)),
    ensures
        contents_outcome(r) == as_apply_error(
            new_contents_with(contents@, anchor_finder@, path@, chunk_models(chunks@)),
        ),
{
    let pieces: Vec<Vec<char>> = split_pieces(chars_of(contents).as_slice());
    let lines: Vec<Vec<char>> = copy_texts(drop_last_empty(pieces.as_slice()));
    let ghost models = chunk_models(chunks@);
    let ghost shown = file_lines(contents@);
    assert(texts(lines@) == shown);
    assert(texts(lines@).len() == lines@.len());
    let list: Vec<Replacement> = match compute_replacements(
        lines.as_slice(),
        path,
        chunks,
        anchor_finder,
    ) {
        Ok(list) => list,
        Err(e) => {
            return Err(e);
        },
    };
    proof {
        let n = models.len() as int;
        lemma_plan_has_index(shown, anchor_finder@, path@, models, n);
        lemma_plan_fits(shown, anchor_finder@, path@, models, n);
        let (_, unsorted) = plan(shown, anchor_finder@, path@, models, n)->Ok_0;
        lemma_plan_starts(shown, anchor_finder@, path@, models, n);
        law_order_keeps_replacements(unsorted, unsorted.len() as int);
        lemma_order_fits(unsorted, unsorted.len() as int, shown.len() as int);
        let ordered = in_order(unsorted, unsorted.len() as int);
        lemma_fit_in_turn(shown, ordered, ordered.len() as int);
    }
    let mut out: Vec<Vec<char>> = apply_replacements(lines, list.as_slice());
    let ghost replaced = texts(out@);
    let n: usize = out.len();
    if n > 0 {
        assert(replaced.last() == out@[n - 1]@);
    }
    if !(n > 0 && out[n - 1].len() == 0) {
        let empty: Vec<char> = Vec::new();
        proof {
            lemma_texts_push(out@, empty);
            assert(empty@ =~= Seq::<char>::empty());
        }
        out.push(empty);
    }
    Ok(string_of(join_lines(out.as_slice()).as_slice()))
}

proof fn lemma_plan_starts(
    lines: Seq<Seq<char>>,
    finder: FinderModel,
    path: Seq<char>,
    chunks: Seq<ChunkModel>,
    n: int,
)
    requires
        0 <= n <= chunks.len(),
        plan(lines, finder, path, chunks, n) is Ok,
    ensures
        ({
            let (index, list) = plan(lines, finder, path, chunks, n)->Ok_0;
            &&& index >= 0
            &&& forall|i: int|
                0 <= i < list.len() ==> (#[trigger] list[i]).start >= 0 && list[i].old_len >= 0
        }),
    decreases n,
{
    if n > 0 {
        lemma_plan_starts(lines, finder, path, chunks, n - 1);
        let (index, list) = plan(lines, finder, path, chunks, n - 1)->Ok_0;
        lemma_place_start(lines, path, chunks[n - 1], index);
    }
}

proof fn lemma_place_start(lines: Seq<Seq<char>>, path: Seq<char>, chunk: ChunkModel, index: int)
    requires
        index >= 0,
    ensures
        chunk_place(lines, path, chunk, index) matches Ok(place) ==> place.start >= 0 && place.next
            >= 0,
{
    match chunk.change_context {
        Some(line) => {
            law_match_starts_at_or_after_start(lines, seq![line], index, false);
        },
        None => {},
    }
    match search_start(lines, chunk.change_context, index) {
        Some(start) => {
            law_match_starts_at_or_after_start(lines, chunk.old_lines, start, chunk.is_end_of_file);
            if chunk.old_lines.len() > 0 {
                law_match_starts_at_or_after_start(
                    lines,
                    chunk.old_lines.drop_last(),
                    start,
                    chunk.is_end_of_file,
                );
            }
        },
        None => {},
    }
}

/// Applies the chunks of a patch to the contents of a file.
pub fn apply_chunks(path: &str, contents: &str, chunks: &[UpdateFileChunk]) -> (r: Result<
    String,
    ApplyPatchError,
>)
    requires
        contents_fit(path@, contents@, chunk_models(chunks@)),
    ensures
        contents_outcome(r) == as_apply_error(
            new_contents(path@, contents@, chunk_models(chunks@)),
        ),
{
    let pieces: Vec<Vec<char>> = split_pieces(chars_of(contents).as_slice());
    assert(texts(pieces@).len() == pieces@.len());
    let finder: AnchorFinder<'_> = AnchorFinder::new(path, contents, pieces.len());
    apply_chunks_with(path, contents, chunks, &finder)
}

/// Whether no chunk puts lines behind the end of a file with these contents, if every
/// chunk has a place there.
pub fn do_contents_fit(path: &str, contents: &str, chunks: &[UpdateFileChunk]) -> (r: bool)
    ensures
        r == contents_fit(path@, contents@, chunk_models(chunks@)),
{
    let pieces: Vec<Vec<char>> = split_pieces(chars_of(contents).as_slice());
    let lines: &[Vec<char>] = drop_last_empty(pieces.as_slice());
    let ghost shown = texts(lines@);
    let ghost models = chunk_models(chunks@);
    assert(shown.len() == lines@.len());
    let ghost mut beyond: int = 0;
    let mut fits: bool = true;
    let mut index: usize = 0;
    let mut i: usize = 0;
    while i < chunks.len()
        invariant
            i <= chunks@.len(),
            shown == texts(lines@),
            shown == file_lines(contents@),
            shown.len() == lines@.len(),
            models == chunk_models(chunks@),
            index_after(shown, path@, models, i as int) == Some(index as int),
            fits ==> forall|n: int| 0 <= n < i ==> #[trigger] chunk_fits(shown, path@, models, n),
            !fits ==> 0 <= beyond < i && !chunk_fits(shown, path@, models, beyond),
        decreases chunks@.len() - i,
    {
        assert(models[i as int] == chunks@[i as int]@);
        match find_place(lines, path, &chunks[i], index) {
            Ok(place) => {
                if place.start > lines.len() && place.new_lines.len() > 0 {
                    proof {
                        beyond = i as int;
                    }
                    fits = false;
                }
                index = place.next;
            },
            Err(_) => {
                proof {
                    lemma_no_index(shown, path@, models, i + 1, models.len() as int);
                }
                return true;
            },
        }
        i += 1;
    }
    fits
}

proof fn lemma_no_index(
    lines: Seq<Seq<char>>,
    path: Seq<char>,
    chunks: Seq<ChunkModel>,
    k: int,
    n: int,
)
    requires
        0 <= k <= n,
        index_after(lines, path, chunks, k) is None,
    ensures
        index_after(lines, path, chunks, n) is None,
    decreases n,
{
    if k < n {
        lemma_no_index(lines, path, chunks, k, n - 1);
    }
}

// ---------------------------------------------------------------------------
// Laws
// ---------------------------------------------------------------------------
/// A replacement inside the file changes its own lines alone: those before it stay
/// where they are, those behind it move together, and the new lines stand between
/// them.
pub proof fn law_replacement_leaves_other_lines(lines: Seq<Seq<char>>, r: ReplacementModel)
    requires
        0 <= r.start,
        0 <= r.old_len,
        r.start + r.old_len <= lines.len(),
    ensures
        ({
            let out = replaced_lines(lines, r);
            &&& out.len() == lines.len() - r.old_len + r.new_lines.len()
            &&& out.take(r.start) == lines.take(r.start)
            &&& out.subrange(r.start, r.start + r.new_lines.len()) == r.new_lines
            &&& out.skip(r.start + r.new_lines.len()) == lines.skip(r.start + r.old_len)
        }),
{
    let out = replaced_lines(lines, r);
    assert(out.take(r.start) =~= lines.take(r.start));
    assert(out.subrange(r.start, r.start + r.new_lines.len()) =~= r.new_lines);
    assert(out.skip(r.start + r.new_lines.len()) =~= lines.skip(r.start + r.old_len));
}

/// No replacement touches the lines before the first one.
pub proof fn law_lines_before_the_first_replacement_stay(
    lines: Seq<Seq<char>>,
    list: Seq<ReplacementModel>,
    n: int,
    limit: int,
)
    requires
        0 <= n <= list.len(),
        0 <= limit <= lines.len(),
        forall|i: int| 0 <= i < n ==> limit <= (#[trigger] list[i]).start && list[i].old_len >= 0,
    ensures
        with_replacements(lines, list, n).len() >= limit,
        with_replacements(lines, list, n).take(limit) == lines.take(limit),
    decreases n,
{
    if n > 0 {
        let next = replaced_lines(lines, list[n - 1]);
        assert(next.take(limit) =~= lines.take(limit));
        law_lines_before_the_first_replacement_stay(next, list, n - 1, limit);
    }
}

/// Replacements of separate lines do not touch the lines behind the last one.
pub proof fn law_lines_behind_the_last_replacement_stay(
    lines: Seq<Seq<char>>,
    list: Seq<ReplacementModel>,
    n: int,
    limit: int,
)
    requires
        0 <= n <= list.len(),
        0 <= limit <= lines.len(),
        forall|i: int|
            0 <= i < n ==> 0 <= (#[trigger] list[i]).start && 0 <= list[i].old_len && list[i].start
                + list[i].old_len <= limit,
        forall|i: int, j: int|
            0 <= i < j < n ==> (#[trigger] list[i]).start + list[i].old_len <= (
            #[trigger] list[j]).start,
    ensures
        ({
            let out = with_replacements(lines, list, n);
            let rest = lines.len() - limit;
            out.len() >= rest && out.skip(out.len() - rest) == lines.skip(limit)
        }),
    decreases n,
{
    if n > 0 {
        let r = list[n - 1];
        let next = replaced_lines(lines, r);
        law_replacement_leaves_other_lines(lines, r);
        law_lines_behind_the_last_replacement_stay(next, list, n - 1, r.start);
        let out = with_replacements(lines, list, n);
        let rest = lines.len() - limit;
        let moved = next.len() - r.start;
        assert(out.skip(out.len() - moved) == next.skip(r.start));
        assert(out.skip(out.len() - rest) =~= lines.skip(limit)) by {
            assert forall|k: int| 0 <= k < rest implies out.skip(out.len() - rest)[k]
                == lines.skip(limit)[k] by {
                let j = moved - rest + k;
                assert(out.skip(out.len() - moved)[j] == next.skip(r.start)[j]);
                let m = limit - r.start - r.old_len + k;
                assert(next.skip(r.start + r.new_lines.len())[m] == lines.skip(
                    r.start + r.old_len,
                )[m]);
            }
        }
    } else {
        assert(lines.skip(lines.len() - (lines.len() - limit)) =~= lines.skip(limit));
    }
}

/// The old lines of a chunk are found behind its context line.
pub proof fn law_old_lines_follow_the_context(
    lines: Seq<Seq<char>>,
    path: Seq<char>,
    chunk: ChunkModel,
    line_index: int,
)
    requires
        chunk.change_context is Some,
        chunk.old_lines.len() > 0,
        0 <= line_index,
        chunk_place(lines, path, chunk, line_index) is Ok,
        seek(lines, seq![chunk.change_context->0], line_index, false)->0 < usize::MAX,
    ensures
        ({
            let context = seek(lines, seq![chunk.change_context->0], line_index, false);
            context is Some && line_index <= context->0 < chunk_place(
                lines,
                path,
                chunk,
                line_index,
            )->Ok_0.start
        }),
{
    law_match_starts_at_or_after_start(lines, seq![chunk.change_context->0], line_index, false);
    let start = search_start(lines, chunk.change_context, line_index)->0;
    let eof = chunk.is_end_of_file;
    law_match_starts_at_or_after_start(lines, chunk.old_lines, start, eof);
    law_match_starts_at_or_after_start(lines, chunk.old_lines.drop_last(), start, eof);
}

/// The old lines of a chunk that ends the file reach the end of the file.
pub proof fn law_end_of_file_lines_reach_the_end(
    lines: Seq<Seq<char>>,
    path: Seq<char>,
    chunk: ChunkModel,
    line_index: int,
)
    requires
        chunk.is_end_of_file,
        chunk.old_lines.len() > 0,
        chunk_place(lines, path, chunk, line_index) is Ok,
    ensures
        ({
            let place = chunk_place(lines, path, chunk, line_index)->Ok_0;
            place.start + place.pattern.len() >= lines.len()
        }),
{
}

/// A chunk without a context whose old lines stand in the file as they are replaces
/// the first such place: the new lines, in the indentation of their scope, come
/// there, and every other line of the file stays.
pub proof fn law_first_exact_place_is_replaced(
    contents: Seq<char>,
    finder: FinderModel,
    path: Seq<char>,
    chunk: ChunkModel,
    i: int,
)
    requires
        chunk.change_context is None,
        !chunk.is_end_of_file,
        chunk.old_lines.len() > 0,
        0 <= i,
        i + chunk.old_lines.len() <= file_lines(contents).len(),
        file_lines(contents).subrange(i, i + chunk.old_lines.len()) == chunk.old_lines,
        forall|m: int|
            0 <= m < i ==> #[trigger] file_lines(contents).subrange(m, m + chunk.old_lines.len())
                != chunk.old_lines,
    ensures
        ({
            let lines = file_lines(contents);
            let place = PlaceModel {
                start: i,
                pattern: chunk.old_lines,
                new_lines: chunk.new_lines,
                next: capped(i + chunk.old_lines.len()),
            };
            new_contents_with(contents, finder, path, seq![chunk]) == Ok::<Seq<char>, Seq<char>>(
                file_text(
                    lines.take(i) + place_lines(finder, place) + lines.skip(
                        i + chunk.old_lines.len(),
                    ),
                ),
            )
        }),
{
    let lines = file_lines(contents);
    let old = chunk.old_lines;
    assert(matches_block(Strictness::Exact, lines, old, i)) by {
        assert forall|j: int| 0 <= j < old.len() implies #[trigger] lines[i + j] == old[j] by {
            assert(lines.subrange(i, i + old.len())[j] == lines[i + j]);
        }
    }
    law_exact_match_comes_first(lines, old, 0, i);
    assert(seek(lines, old, 0, false) == Some(i));
    let place = chunk_place(lines, path, chunk, 0)->Ok_0;
    lemma_single_plan(lines, finder, path, chunk);
    assert(replaced_lines(lines, place_replacement(finder, place)) == lines.take(i) + place_lines(
        finder,
        place,
    ) + lines.skip(i + old.len()));
}

/// The plan for one chunk is its replacement.
proof fn lemma_single_plan(
    lines: Seq<Seq<char>>,
    finder: FinderModel,
    path: Seq<char>,
    chunk: ChunkModel,
)
    requires
        chunk_place(lines, path, chunk, 0) is Ok,
    ensures
        ({
            let r = place_replacement(finder, chunk_place(lines, path, chunk, 0)->Ok_0);
            &&& ordered_plan(lines, finder, path, seq![chunk]) == Ok::<
                Seq<ReplacementModel>,
                Seq<char>,
            >(seq![r])
            &&& with_replacements(lines, seq![r], 1) == replaced_lines(lines, r)
        }),
{
    let place = chunk_place(lines, path, chunk, 0)->Ok_0;
    let r = place_replacement(finder, place);
    let chunks = seq![chunk];
    assert(chunks[0] == chunk);
    assert(plan(lines, finder, path, chunks, 0) == Ok::<
        (int, Seq<ReplacementModel>),
        Seq<char>,
    >((0, Seq::empty())));
    assert(plan(lines, finder, path, chunks, 1) == Ok::<(int, Seq<ReplacementModel>), Seq<char>>(
        (place.next, Seq::<ReplacementModel>::empty().push(r)),
    ));
    let list = Seq::<ReplacementModel>::empty().push(r);
    assert(list =~= seq![r]);
    assert(in_order(list, 0) =~= Seq::<ReplacementModel>::empty());
    assert(in_order(list, 1) =~= seq![r]);
    assert(with_replacements(replaced_lines(lines, r), seq![r], 0) == replaced_lines(lines, r));
}

/// The new contents of a file are empty or end with a line feed.
pub proof fn law_new_contents_end_with_a_line_feed(lines: Seq<Seq<char>>)
    ensures
        file_text(lines).len() == 0 || file_text(lines).last() == '\n',
{
    let list = if lines.len() > 0 && lines.last().len() == 0 {
        lines
    } else {
        lines.push(Seq::empty())
    };
    assert(list.last().len() == 0);
    if list.len() > 1 {
        assert(joined(list) =~= joined(list.drop_last()).push('\n'));
    }
}

/// The lines that are put in the place of `old_lines` at line `start`: those of the
/// patch as they are where no scope is found for the first old line that is not blank,
/// else those of the patch moved to the column of that scope.
pub open spec fn stand_in_place(
    finder: FinderModel,
    start: int,
    old_lines: Seq<Seq<char>>,
    new_lines: Seq<Seq<char>>,
    put: Seq<Seq<char>>,
) -> bool {
    &&& (forall|k: int| 0 <= k < old_lines.len() ==> is_blank_text(#[trigger] old_lines[k])) ==> put
        == new_lines
    &&& forall|k: int|
        0 <= k < old_lines.len() && !is_blank_text(#[trigger] old_lines[k]) && (forall|m: int|
            0 <= m < k ==> is_blank_text(#[trigger] old_lines[m])) ==> match scope_of(
            finder,
            old_lines[k],
            Some(start),
        ) {
            None => put == new_lines,
            Some(scope) => scope.start_column >= 0 ==> is_moved(
                new_lines,
                put,
                scope.start_column,
            ),
        }
}

proof fn lemma_solid_line_from(lines: Seq<Seq<char>>, i: int)
    requires
        0 <= i <= lines.len(),
    ensures
        match solid_line_from(lines, i) {
            Some(line) => exists|k: int|
                i <= k < lines.len() && line == #[trigger] lines[k] && !is_blank_text(lines[k]) && (
                forall|m: int| i <= m < k ==> is_blank_text(#[trigger] lines[m])),
            None => forall|m: int| i <= m < lines.len() ==> is_blank_text(#[trigger] lines[m]),
        },
    decreases lines.len() - i,
{
    if i < lines.len() {
        if is_blank_text(lines[i]) {
            lemma_solid_line_from(lines, i + 1);
        } else {
            assert(lines[i] == solid_line_from(lines, i)->0);
        }
    }
}

proof fn lemma_place_lines(finder: FinderModel, place: PlaceModel)
    ensures
        stand_in_place(
            finder,
            place.start,
            place.pattern,
            place.new_lines,
            place_lines(finder, place),
        ),
{
    let old = place.pattern;
    lemma_solid_line_from(old, 0);
    match solid_line_from(old, 0) {
        None => {},
        Some(line) => {
            let first = choose|k: int|
                0 <= k < old.len() && line == #[trigger] old[k] && !is_blank_text(old[k]) && (
                forall|m: int| 0 <= m < k ==> is_blank_text(#[trigger] old[m]));
            assert forall|k: int|
                0 <= k < old.len() && !is_blank_text(#[trigger] old[k]) && (forall|m: int|
                    0 <= m < k ==> is_blank_text(#[trigger] old[m])) implies old[k] == line by {
                assert(is_blank_text(old[first]) || !(first < k));
                assert(is_blank_text(old[k]) || !(k < first));
            }
            match scope_of(finder, line, Some(place.start)) {
                Some(scope) => {
                    law_corrected_lines_are_moved(place.new_lines, scope.start_column as nat);
                },
                None => {},
            }
        },
    }
}

/// The replacement puts `new_lines` in the place of `old_lines`: these stand where it
/// starts, or the new lines go to the end of the file (before an empty last line) where
/// there are no old ones.
pub open spec fn is_put(
    lines: Seq<Seq<char>>,
    finder: FinderModel,
    r: ReplacementModel,
    old_lines: Seq<Seq<char>>,
    new_lines: Seq<Seq<char>>,
) -> bool {
    &&& r.old_len == old_lines.len()
    &&& solids(old_lines).len() > 0 ==> is_found_at(lines, old_lines, r.start)
    &&& stand_in_place(finder, r.start, old_lines, new_lines, r.new_lines)
}

/// Every chunk puts its new lines into the file where its old lines stand: the lines of
/// the patch as they are where no scope is found for the first old line that is not
/// blank, else moved to the column of that scope. Where the old lines end with an empty
/// one, that may be left out, and the new lines then lose theirs. Without old lines the
/// new ones go to the end of the file.
pub proof fn law_chunks_put_their_new_lines(
    lines: Seq<Seq<char>>,
    finder: FinderModel,
    path: Seq<char>,
    chunks: Seq<ChunkModel>,
    n: int,
    k: int,
)
    requires
        0 <= k < n <= chunks.len(),
        plan(lines, finder, path, chunks, n) is Ok,
    ensures
        ({
            let list = plan(lines, finder, path, chunks, n)->Ok_0.1;
            let old_lines = chunks[k].old_lines;
            let new_lines = chunks[k].new_lines;
            &&& list.len() == n
            &&& {
                ||| is_put(lines, finder, list[k], old_lines, new_lines)
                ||| {
                    &&& old_lines.len() > 0 && old_lines.last().len() == 0
                    &&& is_put(
                        lines,
                        finder,
                        list[k],
                        old_lines.drop_last(),
                        if new_lines.len() > 0 && new_lines.last().len() == 0 {
                            new_lines.drop_last()
                        } else {
                            new_lines
                        },
                    )
                }
            }
            &&& old_lines.len() == 0 ==> list[k].start == if lines.len() > 0 && lines.last().len()
                == 0 {
                lines.len() - 1
            } else {
                lines.len() as int
            }
        }),
    decreases n,
{
    if n > k + 1 {
        law_chunks_put_their_new_lines(lines, finder, path, chunks, n - 1, k);
    } else {
        lemma_plan_len(lines, finder, path, chunks, n - 1);
        lemma_plan_starts(lines, finder, path, chunks, n - 1);
        let (index, _) = plan(lines, finder, path, chunks, n - 1)->Ok_0;
        let chunk = chunks[k];
        let place = chunk_place(lines, path, chunk, index)->Ok_0;
        lemma_place_lines(finder, place);
        lemma_place_is_found(lines, path, chunk, index);
    }
}

proof fn lemma_place_is_found(
    lines: Seq<Seq<char>>,
    path: Seq<char>,
    chunk: ChunkModel,
    index: int,
)
    requires
        index >= 0,
        chunk_place(lines, path, chunk, index) is Ok,
    ensures
        ({
            let place = chunk_place(lines, path, chunk, index)->Ok_0;
            solids(place.pattern).len() > 0 ==> is_found_at(lines, place.pattern, place.start)
        }),
{
    let eof = chunk.is_end_of_file;
    if let Some(line) = chunk.change_context {
        law_match_starts_at_or_after_start(lines, seq![line], index, false);
    }
    let start = search_start(lines, chunk.change_context, index)->0;
    assert(start >= 0);
    if chunk.old_lines.len() == 0 {
        reveal(Seq::filter);
    } else {
        if solids(chunk.old_lines).len() > 0 {
            law_search_finds_the_pattern(lines, chunk.old_lines, start, eof);
        }
        if solids(chunk.old_lines.drop_last()).len() > 0 {
            law_search_finds_the_pattern(lines, chunk.old_lines.drop_last(), start, eof);
        }
    }
}

proof fn lemma_plan_len(
    lines: Seq<Seq<char>>,
    finder: FinderModel,
    path: Seq<char>,
    chunks: Seq<ChunkModel>,
    n: int,
)
    requires
        0 <= n,
        plan(lines, finder, path, chunks, n) is Ok,
    ensures
        plan(lines, finder, path, chunks, n)->Ok_0.1.len() == n,
    decreases n,
{
    if n > 0 {
        lemma_plan_len(lines, finder, path, chunks, n - 1);
    }
}

/// The lines with the first `n` replacements in their places: between any two of them
/// stand the lines of the file that neither replaces.
pub open spec fn woven(lines: Seq<Seq<char>>, list: Seq<ReplacementModel>, n: int) -> Seq<Seq<char>>
    decreases n,
{
    if n <= 0 {
        lines
    } else {
        let r = list[n - 1];
        woven(lines.take(r.start), list, n - 1) + r.new_lines + lines.skip(r.start + r.old_len)
    }
}

/// Replacements inside the file, none of which reaches into the next one.
pub open spec fn are_separate(list: Seq<ReplacementModel>, n: int, len: int) -> bool {
    &&& forall|i: int|
        0 <= i < n ==> 0 <= (#[trigger] list[i]).start && 0 <= list[i].old_len && list[i].start
            + list[i].old_len <= len
    &&& forall|i: int, j: int|
        0 <= i < j < n ==> (#[trigger] list[i]).start + list[i].old_len <= (
        #[trigger] list[j]).start
}

/// Separate replacements are all made: every one puts its lines in the place of its
/// old ones, and every other line of the file stays.
pub proof fn law_separate_replacements_are_all_made(
    lines: Seq<Seq<char>>,
    list: Seq<ReplacementModel>,
    n: int,
)
    requires
        0 <= n <= list.len(),
        are_separate(list, n, lines.len() as int),
    ensures
        with_replacements(lines, list, n) == woven(lines, list, n),
    decreases n,
{
    if n > 0 {
        let r = list[n - 1];
        let front = lines.take(r.start);
        let rest = r.new_lines + lines.skip(r.start + r.old_len);
        assert(are_separate(list, n - 1, front.len() as int));
        law_separate_replacements_are_all_made(front, list, n - 1);
        lemma_replacements_in_front(front, rest, list, n - 1);
        assert(replaced_lines(lines, r) =~= front + rest);
        assert(woven(lines, list, n) =~= woven(front, list, n - 1) + rest);
    }
}

/// Replacements in the front part of the lines leave the rest behind them.
proof fn lemma_replacements_in_front(
    front: Seq<Seq<char>>,
    rest: Seq<Seq<char>>,
    list: Seq<ReplacementModel>,
    n: int,
)
    requires
        0 <= n <= list.len(),
        are_separate(list, n, front.len() as int),
    ensures
        with_replacements(front + rest, list, n) == with_replacements(front, list, n) + rest,
    decreases n,
{
    if n > 0 {
        let r = list[n - 1];
        let next = replaced_lines(front, r);
        assert(replaced_lines(front + rest, r) =~= next + rest);
        let head = front.take(r.start);
        let tail = r.new_lines + front.skip(r.start + r.old_len);
        assert(next =~= head + tail);
        assert(are_separate(list, n - 1, head.len() as int));
        lemma_replacements_in_front(head, tail, list, n - 1);
        lemma_replacements_in_front(head, tail + rest, list, n - 1);
        assert(head + tail + rest =~= head + (tail + rest));
        assert(next + rest =~= head + (tail + rest));
        assert(with_replacements(head, list, n - 1) + tail + rest =~= with_replacements(
            head,
            list,
            n - 1,
        ) + (tail + rest));
    }
}

/// A single chunk without a context whose old lines stand in the file as they are, and
/// for the first solid one of which no scope is found, puts its new lines there as the
/// patch has them.
pub proof fn law_new_lines_without_a_scope_are_left_alone(
    contents: Seq<char>,
    finder: FinderModel,
    path: Seq<char>,
    chunk: ChunkModel,
    i: int,
)
    requires
        chunk.change_context is None,
        !chunk.is_end_of_file,
        chunk.old_lines.len() > 0,
        0 <= i,
        i + chunk.old_lines.len() <= file_lines(contents).len(),
        file_lines(contents).subrange(i, i + chunk.old_lines.len()) == chunk.old_lines,
        forall|m: int|
            0 <= m < i ==> #[trigger] file_lines(contents).subrange(m, m + chunk.old_lines.len())
                != chunk.old_lines,
        forall|k: int|
            0 <= k < chunk.old_lines.len() && !is_blank_text(#[trigger] chunk.old_lines[k])
                ==> scope_of(finder, chunk.old_lines[k], Some(i)) is None,
    ensures
        new_contents_with(contents, finder, path, seq![chunk]) == Ok::<Seq<char>, Seq<char>>(
            file_text(
                file_lines(contents).take(i) + chunk.new_lines + file_lines(contents).skip(
                    i + chunk.old_lines.len(),
                ),
            ),
        ),
{
    law_first_exact_place_is_replaced(contents, finder, path, chunk, i);
    let place = PlaceModel {
        start: i,
        pattern: chunk.old_lines,
        new_lines: chunk.new_lines,
        next: capped(i + chunk.old_lines.len()),
    };
    lemma_place_lines(finder, place);
    lemma_solid_line_from(chunk.old_lines, 0);
}

proof fn lemma_plan_index(
    lines: Seq<Seq<char>>,
    finder: FinderModel,
    path: Seq<char>,
    chunks: Seq<ChunkModel>,
    n: int,
    k: int,
)
    requires
        0 <= k < n <= chunks.len(),
        plan(lines, finder, path, chunks, n) is Ok,
        chunks[k].old_lines.len() > 0,
    ensures
        ({
            let (index, list) = plan(lines, finder, path, chunks, n)->Ok_0;
            list.len() == n && index >= capped(list[k].start + list[k].old_len)
        }),
    decreases n,
{
    lemma_plan_len(lines, finder, path, chunks, n - 1);
    lemma_plan_starts(lines, finder, path, chunks, n - 1);
    let (index, list) = plan(lines, finder, path, chunks, n - 1)->Ok_0;
    lemma_place_behind(lines, path, chunks[n - 1], index);
    if k < n - 1 {
        lemma_plan_index(lines, finder, path, chunks, n - 1, k);
    }
}

/// A chunk is looked for from the given line on, and the next one behind it.
proof fn lemma_place_behind(lines: Seq<Seq<char>>, path: Seq<char>, chunk: ChunkModel, index: int)
    requires
        index >= 0,
    ensures
        chunk_place(lines, path, chunk, index) matches Ok(place) ==> place.next >= capped(index)
            && (chunk.old_lines.len() > 0 ==> place.start >= capped(index) && place.next == capped(
            place.start + place.pattern.len(),
        )),
{
    if let Some(line) = chunk.change_context {
        law_match_starts_at_or_after_start(lines, seq![line], index, false);
    }
    if let Some(start) = search_start(lines, chunk.change_context, index) {
        assert(start >= capped(index));
        law_match_starts_at_or_after_start(lines, chunk.old_lines, start, chunk.is_end_of_file);
        if chunk.old_lines.len() > 0 {
            law_match_starts_at_or_after_start(
                lines,
                chunk.old_lines.drop_last(),
                start,
                chunk.is_end_of_file,
            );
        }
    }
}

/// The chunks of a hunk come one behind the other: the old lines of a chunk stand behind
/// those of every chunk before it.
pub proof fn law_chunks_come_one_behind_the_other(
    lines: Seq<Seq<char>>,
    finder: FinderModel,
    path: Seq<char>,
    chunks: Seq<ChunkModel>,
    n: int,
    j: int,
    k: int,
)
    requires
        0 <= j < k < n <= chunks.len(),
        plan(lines, finder, path, chunks, n) is Ok,
        chunks[j].old_lines.len() > 0,
        chunks[k].old_lines.len() > 0,
    ensures
        ({
            let list = plan(lines, finder, path, chunks, n)->Ok_0.1;
            &&& list.len() == n
            &&& list[j].start + list[j].old_len <= usize::MAX ==> list[j].start + list[j].old_len
                <= list[k].start
        }),
    decreases n,
{
    lemma_plan_len(lines, finder, path, chunks, n - 1);
    if k < n - 1 {
        law_chunks_come_one_behind_the_other(lines, finder, path, chunks, n - 1, j, k);
    } else {
        lemma_plan_index(lines, finder, path, chunks, n - 1, j);
        lemma_plan_starts(lines, finder, path, chunks, n - 1);
        let (index, _) = plan(lines, finder, path, chunks, n - 1)->Ok_0;
        lemma_place_behind(lines, path, chunks[k], index);
    }
}

} // verus!
