//! The map parser: from the tile-code text and the passability mask to one
//! flat, index-aligned sequence of tile records.

use crate::text::{chars_of, is_separator, parse_code, separates, token_code};
use crate::tile::{record_of_code, TileRecord};
use vstd::prelude::*;
use vstd::slice::slice_subrange;

verus! {

/// The length of the longest prefix of a text that holds no separator.
pub open spec fn run_length(text: Seq<char>) -> nat
    decreases text.len(),
{
    if text.len() == 0 || separates(text[0]) {
        0
    } else {
        1 + run_length(text.skip(1))
    }
}

/// The tokens of a text: its maximal runs of characters that are not
/// separators, in the order in which they stand. Line ends are separators
/// like any other, so the tokens of a grid come out row by row.
pub open spec fn tokens(text: Seq<char>) -> Seq<Seq<char>>
    decreases text.len(),
    via tokens_decreases
{
    if text.len() == 0 {
        Seq::empty()
    } else if separates(text[0]) {
        tokens(text.skip(1))
    } else {
        let n = run_length(text) as int;
        seq![text.take(n)] + tokens(text.skip(n))
    }
}

#[via_fn]
proof fn tokens_decreases(text: Seq<char>) {
    lemma_run_length_bounds(text);
}

/// A run is no longer than its text, and not empty where the text starts
/// with a character that is no separator.
pub proof fn lemma_run_length_bounds(text: Seq<char>)
    ensures
        run_length(text) <= text.len(),
        text.len() > 0 && !separates(text[0]) ==> run_length(text) >= 1,
    decreases text.len(),
{
    if text.len() > 0 && !separates(text[0]) {
        lemma_run_length_bounds(text.skip(1));
    }
}

/// A stretch of characters without a separator that ends at a separator or
/// at the end of the text is the run at the start of the text.
pub proof fn lemma_run_length_is(text: Seq<char>, k: int)
    requires
        0 <= k <= text.len(),
        forall|j: int| 0 <= j < k ==> !separates(#[trigger] text[j]),
        k == text.len() || separates(text[k]),
    ensures
        run_length(text) == k,
    decreases k,
{
    if k > 0 {
        let rest = text.skip(1);
        assert forall|j: int| 0 <= j < k - 1 implies !separates(#[trigger] rest[j]) by {
            assert(rest[j] == text[j + 1]);
        }
        lemma_run_length_is(rest, k - 1);
    }
}

/// The tokens of a text are runs: none is empty, and none holds a
/// separator.
pub proof fn lemma_tokens_are_runs(text: Seq<char>, i: int)
    requires
        0 <= i < tokens(text).len(),
    ensures
        tokens(text)[i].len() > 0,
        forall|j: int| 0 <= j < tokens(text)[i].len() ==> !separates(#[trigger] tokens(text)[i][j]),
    decreases text.len(),
{
    if text.len() > 0 {
        if separates(text[0]) {
            lemma_tokens_are_runs(text.skip(1), i);
        } else {
            lemma_run_length_bounds(text);
            let n = run_length(text) as int;
            if i == 0 {
                lemma_run_is_clean(text, n);
            } else {
                lemma_tokens_are_runs(text.skip(n), i - 1);
            }
        }
    }
}

/// No character of the run at the start of a text is a separator.
pub proof fn lemma_run_is_clean(text: Seq<char>, n: int)
    requires
        n == run_length(text),
    ensures
        n <= text.len(),
        forall|j: int| 0 <= j < n ==> !separates(#[trigger] text[j]),
    decreases text.len(),
{
    if text.len() > 0 && !separates(text[0]) {
        let rest = text.skip(1);
        lemma_run_is_clean(rest, n - 1);
        assert forall|j: int| 0 <= j < n implies !separates(#[trigger] text[j]) by {
            if j > 0 {
                assert(text[j] == rest[j - 1]);
            }
        }
    }
}

/// Why a pair of map sources was not loaded.
#[derive(Clone, Copy, Debug, PartialEq, Eq, Structural)]
pub enum LoadError {
    /// The token with this ordinal, counted from zero over the whole
    /// tile-code text, is no base-16 unsigned byte.
    MalformedToken { index: usize },
    /// The passability mask does not hold one cell for each tile code.
    MaskLengthMismatch { tiles: usize, cells: usize },
}

/// Whether the first `n` tokens all denote a tile code.
pub open spec fn codes_readable(toks: Seq<Seq<char>>, n: int) -> bool {
    forall|i: int| 0 <= i < n ==> (#[trigger] token_code(toks[i])) is Some
}

/// The records that a sequence of well-formed tokens stands for, none of
/// them blocked yet.
pub open spec fn open_records(toks: Seq<Seq<char>>) -> Seq<TileRecord> {
    Seq::new(toks.len(), |i: int| record_of_code(token_code(toks[i]).unwrap(), false))
}

/// The index one past the token that starts at `start`.
fn token_end(chars: &[char], start: usize) -> (end: usize)
    requires
        start < chars.len(),
        !separates(chars[start as int]),
    ensures
        start < end <= chars.len(),
        end - start == run_length(chars@.skip(start as int)),
{
    let mut end: usize = start + 1;
    while end < chars.len() && !is_separator(chars[end])
        invariant
            start < end <= chars.len(),
            forall|j: int| start <= j < end ==> !separates(#[trigger] chars[j]),
        decreases chars.len() - end,
    {
        end += 1;
    }
    proof {
        let rest = chars@.skip(start as int);
        assert forall|j: int| 0 <= j < end - start implies !separates(#[trigger] rest[j]) by {
            assert(rest[j] == chars[start + j]);
        }
        lemma_run_length_is(rest, end - start);
    }
    end
}

/// Reads the tile-code text: one record for each token, in source order,
/// classified and not blocked. The first token that is no base-16 unsigned
/// byte aborts the reading.
pub fn parse_tile_codes(codes: &str) -> (result: Result<Vec<TileRecord>, LoadError>)
    ensures
        result is Ok <==> codes_readable(tokens(codes@), tokens(codes@).len() as int),
        match result {
            Ok(tiles) => {
                &&& codes_readable(tokens(codes@), tokens(codes@).len() as int)
                &&& tiles@ == open_records(tokens(codes@))
            },
            Err(LoadError::MalformedToken { index }) => {
                &&& index < tokens(codes@).len()
                &&& codes_readable(tokens(codes@), index as int)
                &&& token_code(tokens(codes@)[index as int]) is None
            },
            Err(LoadError::MaskLengthMismatch { .. }) => false,
        },
{
    let chars = chars_of(codes);
    let text = chars.as_slice();
    let n: usize = text.len();
    let mut tiles: Vec<TileRecord> = Vec::new();
    let ghost mut done: Seq<Seq<char>> = Seq::empty();
    let mut i: usize = 0;
    proof {
        assert(text@.skip(0) == text@);
        assert(done + tokens(text@) == tokens(text@));
    }
    while i < n
        invariant
            i <= n,
            n == text.len(),
            text@ == codes@,
            tokens(text@) == done + tokens(text@.skip(i as int)),
            tiles@ == open_records(done),
            codes_readable(done, done.len() as int),
        decreases n - i,
    {
        let ghost rest = text@.skip(i as int);
        if is_separator(text[i]) {
            assert(rest.skip(1) == text@.skip(i + 1));
            i += 1;
        } else {
            let end = token_end(text, i);
            let ghost token = text@.subrange(i as int, end as int);
            proof {
                assert(rest.take(end - i) == token);
                assert(rest.skip(end - i) == text@.skip(end as int));
                assert(done + (seq![token] + tokens(text@.skip(end as int))) == done.push(token)
                    + tokens(text@.skip(end as int)));
            }
            match parse_code(slice_subrange(text, i, end)) {
                Some(code) => {
                    tiles.push(TileRecord::new(code, false));
                    proof {
                        done = done.push(token);
                        assert(tiles@ == open_records(done));
                    }
                },
                None => {
                    proof {
                        let toks = tokens(text@);
                        assert(toks[done.len() as int] == token);
                        assert forall|k: int| 0 <= k < done.len() implies (#[trigger] token_code(
                            toks[k],
                        )) is Some by {
                            assert(toks[k] == done[k]);
                        }
                    }
                    return Err(LoadError::MalformedToken { index: tiles.len() });
                },
            }
            i = end;
        }
    }
    assert(done + tokens(text@.skip(i as int)) == done);
    Ok(tiles)
}

/// Whether the character at position `i` of a mask text belongs to a line
/// end: a line feed, or a carriage return that a line feed follows. Line ends
/// are the units in which the mask is read, not cells of it.
pub open spec fn ends_line(text: Seq<char>, i: int) -> bool {
    text[i] == '\n' || (text[i] == '\r' && i + 1 < text.len() && text[i + 1] == '\n')
}

/// The cells among the first `n` characters of a mask text.
pub open spec fn mask_cells_upto(text: Seq<char>, n: int) -> Seq<char>
    decreases n,
{
    if n <= 0 {
        Seq::empty()
    } else {
        let before = mask_cells_upto(text, n - 1);
        if ends_line(text, n - 1) {
            before
        } else {
            before.push(text[n - 1])
        }
    }
}

/// The cells of a mask text: its characters without the line ends, as one
/// contiguous stream.
pub open spec fn mask_cells(text: Seq<char>) -> Seq<char> {
    mask_cells_upto(text, text.len() as int)
}

/// Whether a mask character marks its cell as blocked.
pub open spec fn cell_blocks(c: char) -> bool {
    c == 'X'
}

/// Whether a mask character is one of the two that the mask is made of.
pub open spec fn cell_recognized(c: char) -> bool {
    c == 'X' || c == '.'
}

/// A mask character that is neither `X` nor `.`. Its cell is left open.
#[derive(Clone, Copy, Debug, PartialEq, Eq)]
pub struct MaskAnomaly {
    /// The cell's position in the mask, which is the index of its tile.
    pub cell: usize,
    /// The character found there.
    pub found: char,
}

/// The anomalies among the first `n` cells, in order.
pub open spec fn anomalies_upto(cells: Seq<char>, n: int) -> Seq<MaskAnomaly>
    decreases n,
{
    if n <= 0 {
        Seq::empty()
    } else {
        let before = anomalies_upto(cells, n - 1);
        if cell_recognized(cells[n - 1]) {
            before
        } else {
            before.push(MaskAnomaly { cell: (n - 1) as usize, found: cells[n - 1] })
        }
    }
}

/// The number of cells that meet a tile: the shorter of the two lengths.
pub open spec fn paired(tiles: int, cells: int) -> int {
    if cells < tiles {
        cells
    } else {
        tiles
    }
}

/// The records after the mask is laid over them: each record that has a
/// cell is blocked exactly if the cell says so, and the records past the end
/// of the mask are as they were. Cells past the last record change nothing.
pub open spec fn masked(tiles: Seq<TileRecord>, cells: Seq<char>) -> Seq<TileRecord> {
    Seq::new(
        tiles.len(),
        |i: int|
            if i < cells.len() {
                TileRecord {
                    code: tiles[i].code,
                    blocked: cell_blocks(cells[i]),
                    object: tiles[i].object,
                    biome: tiles[i].biome,
                }
            } else {
                tiles[i]
            },
    )
}

/// What laying a mask over the records found.
#[derive(Clone, Debug, PartialEq, Eq)]
pub struct MaskReport {
    /// The number of cells in the mask.
    pub cells: usize,
    /// The unrecognized characters among the cells that met a tile.
    pub anomalies: Vec<MaskAnomaly>,
}

/// Lays the passability mask over the records. The cells are taken in
/// order, across line ends, and the cell with index `i` decides whether the
/// record with index `i` is blocked: `X` blocks, `.` and every other
/// character leave it open. A character that is neither is reported, and
/// its cell still counts.
pub fn apply_blocking_mask(tiles: &mut Vec<TileRecord>, mask: &str) -> (report: MaskReport)
    ensures
        final(tiles)@ == masked(old(tiles)@, mask_cells(mask@)),
        report.cells == mask_cells(mask@).len(),
        report.anomalies@ == anomalies_upto(
            mask_cells(mask@),
            paired(old(tiles)@.len() as int, mask_cells(mask@).len() as int),
        ),
{
    let chars = chars_of(mask);
    let text = chars.as_slice();
    let n: usize = text.len();
    let count: usize = tiles.len();
    let mut anomalies: Vec<MaskAnomaly> = Vec::new();
    let mut seen: usize = 0;
    let mut i: usize = 0;
    while i < n
        invariant
            i <= n,
            n == text.len(),
            text@ == mask@,
            count == old(tiles)@.len(),
            seen <= i,
            seen == mask_cells_upto(text@, i as int).len(),
            tiles@ == masked(old(tiles)@, mask_cells_upto(text@, i as int)),
            anomalies@ == anomalies_upto(
                mask_cells_upto(text@, i as int),
                paired(count as int, seen as int),
            ),
        decreases n - i,
    {
        let c = text[i];
        let ghost cells = mask_cells_upto(text@, i as int);
        let line_end = c == '\n' || (c == '\r' && i + 1 < n && text[i + 1] == '\n');
        if !line_end {
            let ghost grown = cells.push(c);
            assert(mask_cells_upto(text@, i + 1) == grown);
            if seen < count {
                let old_record = tiles[seen];
                tiles.set(
                    seen,
                    TileRecord {
                        code: old_record.code,
                        blocked: c == 'X',
                        object: old_record.object,
                        biome: old_record.biome,
                    },
                );
                if c != 'X' && c != '.' {
                    anomalies.push(MaskAnomaly { cell: seen, found: c });
                }
                proof {
                    lemma_anomalies_prefix(cells, grown, seen as int);
                }
            } else {
                proof {
                    lemma_anomalies_prefix(cells, grown, count as int);
                }
            }
            assert(tiles@ == masked(old(tiles)@, grown));
            seen += 1;
        }
        i += 1;
    }
    MaskReport { cells: seen, anomalies }
}

/// The anomalies among the first `n` cells depend on those cells alone.
pub proof fn lemma_anomalies_prefix(shorter: Seq<char>, longer: Seq<char>, n: int)
    requires
        n <= shorter.len() <= longer.len(),
        forall|i: int| 0 <= i < shorter.len() ==> shorter[i] == longer[i],
    ensures
        anomalies_upto(shorter, n) == anomalies_upto(longer, n),
    decreases n,
{
    if n > 0 {
        lemma_anomalies_prefix(shorter, longer, n - 1);
    }
}

/// What to make of a mask that does not hold one cell for each tile code.
#[derive(Clone, Copy, Debug, PartialEq, Eq, Structural)]
pub enum MaskPolicy {
    /// Accept it: tiles past the end of the mask stay open, and cells past
    /// the last tile are ignored.
    Tolerant,
    /// Refuse it with `LoadError::MaskLengthMismatch`.
    Strict,
}

/// A loaded map.
#[derive(Clone, Debug, PartialEq, Eq)]
pub struct Overworld {
    /// One record for each tile code, in source order.
    pub tiles: Vec<TileRecord>,
    /// The unrecognized mask characters, each left open.
    pub anomalies: Vec<MaskAnomaly>,
}

/// The tiles that a pair of sources with readable codes describes.
pub open spec fn loaded_tiles(codes: Seq<char>, mask: Seq<char>) -> Seq<TileRecord> {
    masked(open_records(tokens(codes)), mask_cells(mask))
}

/// Whether a pair of sources loads under a policy: every token of the
/// tile-code text is readable, and under the strict policy the mask holds
/// one cell for each token.
pub open spec fn loads(codes: Seq<char>, mask: Seq<char>, policy: MaskPolicy) -> bool {
    &&& codes_readable(tokens(codes), tokens(codes).len() as int)
    &&& policy == MaskPolicy::Strict ==> mask_cells(mask).len() == tokens(codes).len()
}

/// Loads the overworld from its two sources: the tile-code text gives one
/// record per token, and the passability mask then decides which of them
/// are blocked. A malformed token is fatal. An unrecognized mask character
/// is not: its tile is left open, and the character is reported.
pub fn load_overworld(codes: &str, mask: &str, policy: MaskPolicy) -> (result: Result<
    Overworld,
    LoadError,
>)
    ensures
        result is Ok <==> loads(codes@, mask@, policy),
        match result {
            Ok(map) => {
                &&& map.tiles@ == loaded_tiles(codes@, mask@)
                &&& map.tiles@.len() == tokens(codes@).len()
                &&& map.anomalies@ == anomalies_upto(
                    mask_cells(mask@),
                    paired(tokens(codes@).len() as int, mask_cells(mask@).len() as int),
                )
            },
            Err(LoadError::MalformedToken { index }) => {
                &&& index < tokens(codes@).len()
                &&& codes_readable(tokens(codes@), index as int)
                &&& token_code(tokens(codes@)[index as int]) is None
            },
            Err(LoadError::MaskLengthMismatch { tiles, cells }) => {
                &&& codes_readable(tokens(codes@), tokens(codes@).len() as int)
                &&& policy == MaskPolicy::Strict
                &&& tiles == tokens(codes@).len()
                &&& cells == mask_cells(mask@).len()
                &&& tiles != cells
            },
        },
{
    let mut tiles = match parse_tile_codes(codes) {
        Ok(tiles) => tiles,
        Err(error) => {
            return Err(error);
        },
    };
    let report = apply_blocking_mask(&mut tiles, mask);
    match policy {
        MaskPolicy::Strict => {
            if report.cells != tiles.len() {
                return Err(
                    LoadError::MaskLengthMismatch { tiles: tiles.len(), cells: report.cells },
                );
            }
        },
        MaskPolicy::Tolerant => {},
    }
    Ok(Overworld { tiles, anomalies: report.anomalies })
}

/// Two sources that agree load under either policy. Where every token of
/// the tile-code text is readable and the mask holds one cell for each of
/// the `n` tokens, there are exactly `n` records, in source order: the
/// record with index `i` carries the code of token `i`, classified, and is
/// blocked exactly if cell `i` is an `X`.
pub proof fn lemma_matching_sources_load(codes: Seq<char>, mask: Seq<char>, policy: MaskPolicy)
    requires
        codes_readable(tokens(codes), tokens(codes).len() as int),
        mask_cells(mask).len() == tokens(codes).len(),
    ensures
        loads(codes, mask, policy),
        loaded_tiles(codes, mask).len() == tokens(codes).len(),
        forall|i: int|
            0 <= i < tokens(codes).len() ==> #[trigger] loaded_tiles(codes, mask)[i]
                == record_of_code(
                token_code(tokens(codes)[i]).unwrap(),
                mask_cells(mask)[i] == 'X',
            ),
{
}

/// Whatever the mask, the records come one for each token and in source
/// order, and the mask changes nothing of a record but whether it is
/// blocked.
pub proof fn lemma_records_in_source_order(codes: Seq<char>, mask: Seq<char>, i: int)
    requires
        codes_readable(tokens(codes), tokens(codes).len() as int),
        0 <= i < tokens(codes).len(),
    ensures
        loaded_tiles(codes, mask).len() == tokens(codes).len(),
        loaded_tiles(codes, mask)[i] == record_of_code(
            token_code(tokens(codes)[i]).unwrap(),
            i < mask_cells(mask).len() && mask_cells(mask)[i] == 'X',
        ),
        loaded_tiles(codes, mask)[i].well_formed(),
{
}

} // verus!
