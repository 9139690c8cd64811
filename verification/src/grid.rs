//! The two map sources as grids of lines, and the law that ties the parser
//! to the coordinate mapper: the parser lays the records down line after
//! line, and the mapper's formula reads a cell back from where its line and
//! its place in the line put it.

use crate::layout::{
    cell_at, index_of, lemma_index_in_range, lemma_index_round_trip, MapLayout, RoomCoordinate,
    TileCoordinate,
};
use crate::parser::{
    codes_readable, ends_line, lemma_run_length_bounds, loaded_tiles, mask_cells,
    mask_cells_upto, run_length, tokens,
};
use crate::text::{separates, token_code};
use crate::tile::record_of_code;
use vstd::prelude::*;

verus! {

/// The text made of the given lines, each closed by a line feed.
pub open spec fn join_lines(lines: Seq<Seq<char>>) -> Seq<char>
    decreases lines.len(),
{
    if lines.len() == 0 {
        Seq::empty()
    } else {
        join_lines(lines.drop_last()) + lines.last() + seq!['\n']
    }
}

/// Whether every line holds exactly `width` tokens.
pub open spec fn lines_hold(lines: Seq<Seq<char>>, width: int) -> bool {
    forall|r: int| 0 <= r < lines.len() ==> (#[trigger] tokens(lines[r])).len() == width
}

/// The run at the start of a text ends at the first separator, whatever
/// follows it.
pub proof fn lemma_run_length_stops(head: Seq<char>, stop: char, tail: Seq<char>)
    requires
        separates(stop),
    ensures
        run_length(head + seq![stop] + tail) == run_length(head),
    decreases head.len(),
{
    let text = head + seq![stop] + tail;
    if head.len() == 0 {
        assert(text[0] == stop);
    } else {
        assert(text[0] == head[0]);
        if !separates(head[0]) {
            assert(text.skip(1) == head.skip(1) + seq![stop] + tail);
            lemma_run_length_stops(head.skip(1), stop, tail);
        }
    }
}

/// The tokens of two texts with a separator between them are the tokens of
/// the first and then the tokens of the second: no token runs across a
/// separator.
pub proof fn lemma_tokens_split(head: Seq<char>, stop: char, tail: Seq<char>)
    requires
        separates(stop),
    ensures
        tokens(head + seq![stop] + tail) == tokens(head) + tokens(tail),
    decreases head.len(),
{
    let text = head + seq![stop] + tail;
    if head.len() == 0 {
        assert(text[0] == stop);
        assert(text.skip(1) == tail);
        assert(tokens(head) + tokens(tail) == tokens(tail));
    } else {
        assert(text[0] == head[0]);
        if separates(head[0]) {
            assert(text.skip(1) == head.skip(1) + seq![stop] + tail);
            lemma_tokens_split(head.skip(1), stop, tail);
        } else {
            lemma_run_length_stops(head, stop, tail);
            lemma_run_length_bounds(head);
            let n = run_length(head) as int;
            assert(text.take(n) == head.take(n));
            assert(text.skip(n) == head.skip(n) + seq![stop] + tail);
            lemma_tokens_split(head.skip(n), stop, tail);
            assert(seq![head.take(n)] + (tokens(head.skip(n)) + tokens(tail)) == seq![
                head.take(n),
            ] + tokens(head.skip(n)) + tokens(tail));
        }
    }
}

/// Adding a line to a text adds the line's tokens after the text's tokens.
pub proof fn lemma_tokens_of_lines(lines: Seq<Seq<char>>)
    requires
        lines.len() > 0,
    ensures
        tokens(join_lines(lines)) == tokens(join_lines(lines.drop_last())) + tokens(lines.last()),
    decreases lines.len(),
{
    let before = join_lines(lines.drop_last());
    let line = lines.last();
    let none = Seq::<char>::empty();
    lemma_tokens_split(line, '\n', none);
    assert(line + seq!['\n'] + none == line + seq!['\n']);
    assert(tokens(line) + tokens(none) == tokens(line));
    if lines.len() == 1 {
        assert(before == none);
        assert(before + line + seq!['\n'] == line + seq!['\n']);
        assert(tokens(before) + tokens(line) == tokens(line));
    } else {
        let earlier = join_lines(lines.drop_last().drop_last()) + lines.drop_last().last();
        assert(before == earlier + seq!['\n']);
        lemma_tokens_split(earlier, '\n', none);
        assert(earlier + seq!['\n'] + none == before);
        assert(tokens(earlier) + tokens(none) == tokens(earlier));
        lemma_tokens_split(earlier, '\n', line + seq!['\n']);
        assert(earlier + seq!['\n'] + (line + seq!['\n']) == before + line + seq!['\n']);
    }
}

/// In a text of lines that each hold `width` tokens, the token with ordinal
/// `col` of the line with ordinal `row` is the token with ordinal
/// `row * width + col` of the text: the text flattens the grid row by row.
pub proof fn lemma_tokens_row_major(lines: Seq<Seq<char>>, width: int, row: int, col: int)
    requires
        lines_hold(lines, width),
        0 <= row < lines.len(),
        0 <= col < width,
    ensures
        tokens(join_lines(lines)).len() == lines.len() * width,
        0 <= row * width + col < lines.len() * width,
        tokens(join_lines(lines))[row * width + col] == tokens(lines[row])[col],
    decreases lines.len(),
{
    let shorter = lines.drop_last();
    let last = lines.len() - 1;
    lemma_tokens_of_lines(lines);
    lemma_tokens_count(shorter, width);
    assert(tokens(lines[last]).len() == width);
    assert(lines.len() * width == last * width + width) by (nonlinear_arith)
        requires
            last == lines.len() - 1,
    ;
    assert(0 <= row * width) by (nonlinear_arith)
        requires
            0 <= row,
            0 <= width,
    ;
    if row == last {
    } else {
        assert(lines_hold(shorter, width)) by {
            assert forall|r: int| 0 <= r < shorter.len() implies (#[trigger] tokens(
                shorter[r],
            )).len() == width by {
                assert(shorter[r] == lines[r]);
            }
        }
        lemma_tokens_row_major(shorter, width, row, col);
        assert(shorter[row] == lines[row]);
        assert(row * width + col < last * width);
    }
}

/// A text of lines that each hold `width` tokens holds `width` tokens for
/// each line.
pub proof fn lemma_tokens_count(lines: Seq<Seq<char>>, width: int)
    requires
        forall|r: int| 0 <= r < lines.len() ==> (#[trigger] tokens(lines[r])).len() == width,
    ensures
        tokens(join_lines(lines)).len() == lines.len() * width,
    decreases lines.len(),
{
    if lines.len() == 0 {
        assert(lines.len() * width == 0) by (nonlinear_arith)
            requires
                lines.len() == 0,
        ;
    } else {
        let shorter = lines.drop_last();
        assert forall|r: int| 0 <= r < shorter.len() implies (#[trigger] tokens(
            shorter[r],
        )).len() == width by {
            assert(shorter[r] == lines[r]);
        }
        lemma_tokens_count(shorter, width);
        lemma_tokens_of_lines(lines);
        assert(tokens(lines[lines.len() - 1]).len() == width);
        assert(lines.len() * width == (lines.len() - 1) * width + width) by (nonlinear_arith);
    }
}

/// Whether a mask line is made of cells alone: it holds no line feed and no
/// carriage return.
pub open spec fn cells_only(line: Seq<char>) -> bool {
    forall|j: int| 0 <= j < line.len() ==> #[trigger] line[j] != '\n' && line[j] != '\r'
}

/// Whether every mask line holds exactly `width` characters, all of them
/// cells.
pub open spec fn mask_lines_hold(lines: Seq<Seq<char>>, width: int) -> bool {
    forall|r: int|
        0 <= r < lines.len() ==> (#[trigger] lines[r]).len() == width && cells_only(lines[r])
}

/// The cells of a text that holds no carriage return are not changed by
/// what follows the text.
pub proof fn lemma_mask_cells_joined(head: Seq<char>, tail: Seq<char>, k: int)
    requires
        forall|j: int| 0 <= j < head.len() ==> #[trigger] head[j] != '\r',
        0 <= k <= tail.len(),
    ensures
        mask_cells_upto(head + tail, head.len() + k) == mask_cells(head) + mask_cells_upto(tail, k),
    decreases head.len() + k,
{
    let text = head + tail;
    if k > 0 {
        lemma_mask_cells_joined(head, tail, k - 1);
        assert(text[head.len() + k - 1] == tail[k - 1]);
        if k < tail.len() {
            assert(text[head.len() + k] == tail[k]);
        }
        assert(ends_line(text, head.len() + k - 1) == ends_line(tail, k - 1));
        let before = mask_cells(head) + mask_cells_upto(tail, k - 1);
        assert(before.push(tail[k - 1]) == mask_cells(head) + mask_cells_upto(tail, k - 1).push(
            tail[k - 1],
        ));
    } else {
        lemma_mask_cells_prefix(head, tail, head.len() as int);
        assert(mask_cells(head) + mask_cells_upto(tail, 0) == mask_cells(head));
    }
}

/// The cells among the first characters of a text that holds no carriage
/// return there are not changed by what follows the text.
pub proof fn lemma_mask_cells_prefix(head: Seq<char>, tail: Seq<char>, n: int)
    requires
        0 <= n <= head.len(),
        forall|j: int| 0 <= j < n ==> #[trigger] head[j] != '\r',
    ensures
        mask_cells_upto(head + tail, n) == mask_cells_upto(head, n),
    decreases n,
{
    if n > 0 {
        lemma_mask_cells_prefix(head, tail, n - 1);
        assert((head + tail)[n - 1] == head[n - 1]);
        assert(head[n - 1] != '\r');
    }
}

/// A line made of cells alone is its own cells.
pub proof fn lemma_cells_of_line(line: Seq<char>, n: int)
    requires
        cells_only(line),
        0 <= n <= line.len(),
    ensures
        mask_cells_upto(line, n) == line.take(n),
    decreases n,
{
    if n > 0 {
        lemma_cells_of_line(line, n - 1);
        assert(line[n - 1] != '\n' && line[n - 1] != '\r');
        assert(line.take(n - 1).push(line[n - 1]) == line.take(n));
    } else {
        assert(line.take(0) == Seq::<char>::empty());
    }
}

/// A text of lines made of cells alone holds no carriage return.
pub proof fn lemma_joined_lines_clean(lines: Seq<Seq<char>>)
    requires
        forall|r: int| 0 <= r < lines.len() ==> cells_only(#[trigger] lines[r]),
    ensures
        forall|j: int| 0 <= j < join_lines(lines).len() ==> #[trigger] join_lines(lines)[j] != '\r',
    decreases lines.len(),
{
    if lines.len() > 0 {
        let shorter = lines.drop_last();
        assert forall|r: int| 0 <= r < shorter.len() implies cells_only(#[trigger] shorter[r]) by {
            assert(shorter[r] == lines[r]);
        }
        lemma_joined_lines_clean(shorter);
        let before = join_lines(shorter);
        let line = lines.last();
        let text = join_lines(lines);
        assert(cells_only(lines[lines.len() - 1]));
        assert forall|j: int| 0 <= j < text.len() implies #[trigger] text[j] != '\r' by {
            if j < before.len() {
                assert(text[j] == before[j]);
            } else if j < before.len() + line.len() {
                assert(text[j] == line[j - before.len()]);
            } else {
                assert(text[j] == '\n');
            }
        }
    }
}

/// In a mask of lines that each hold `width` cells, the cell with ordinal
/// `col` of the line with ordinal `row` is the cell with ordinal
/// `row * width + col` of the mask: the cell stream runs on across the
/// line ends.
pub proof fn lemma_cells_row_major(lines: Seq<Seq<char>>, width: int, row: int, col: int)
    requires
        mask_lines_hold(lines, width),
        0 <= row < lines.len(),
        0 <= col < width,
    ensures
        mask_cells(join_lines(lines)).len() == lines.len() * width,
        0 <= row * width + col < lines.len() * width,
        mask_cells(join_lines(lines))[row * width + col] == lines[row][col],
    decreases lines.len(),
{
    let shorter = lines.drop_last();
    let last = lines.len() - 1;
    lemma_cells_count(lines, width);
    lemma_cells_count(shorter, width);
    lemma_cells_of_lines(lines);
    assert(lines[last].len() == width);
    assert(lines.len() * width == last * width + width) by (nonlinear_arith)
        requires
            last == lines.len() - 1,
    ;
    assert(0 <= row * width) by (nonlinear_arith)
        requires
            0 <= row,
            0 <= width,
    ;
    if row != last {
        assert(mask_lines_hold(shorter, width)) by {
            assert forall|r: int| 0 <= r < shorter.len() implies (#[trigger] shorter[r]).len()
                == width && cells_only(shorter[r]) by {
                assert(shorter[r] == lines[r]);
            }
        }
        lemma_cells_row_major(shorter, width, row, col);
        assert(shorter[row] == lines[row]);
        assert(row * width + col < last * width);
    }
}

/// Adding a line of cells to a mask adds the line after the mask's cells.
pub proof fn lemma_cells_of_lines(lines: Seq<Seq<char>>)
    requires
        lines.len() > 0,
        forall|r: int| 0 <= r < lines.len() ==> cells_only(#[trigger] lines[r]),
    ensures
        mask_cells(join_lines(lines)) == mask_cells(join_lines(lines.drop_last())) + lines.last(),
{
    let shorter = lines.drop_last();
    let before = join_lines(shorter);
    let line = lines.last();
    let closed = line + seq!['\n'];
    assert forall|r: int| 0 <= r < shorter.len() implies cells_only(#[trigger] shorter[r]) by {
        assert(shorter[r] == lines[r]);
    }
    lemma_joined_lines_clean(shorter);
    assert(cells_only(lines[lines.len() - 1]));
    assert(join_lines(lines) == before + closed);
    lemma_mask_cells_joined(before, closed, closed.len() as int);
    lemma_mask_cells_joined(line, seq!['\n'], 1);
    lemma_cells_of_line(line, line.len() as int);
    assert(line.take(line.len() as int) == line);
    assert(mask_cells_upto(seq!['\n'], 1) == Seq::<char>::empty()) by {
        reveal_with_fuel(mask_cells_upto, 2);
    }
    assert(line + Seq::<char>::empty() == line);
}

/// A mask of lines that each hold `width` cells holds `width` cells for
/// each line.
pub proof fn lemma_cells_count(lines: Seq<Seq<char>>, width: int)
    requires
        mask_lines_hold(lines, width),
    ensures
        mask_cells(join_lines(lines)).len() == lines.len() * width,
    decreases lines.len(),
{
    if lines.len() == 0 {
        assert(lines.len() * width == 0) by (nonlinear_arith)
            requires
                lines.len() == 0,
        ;
    } else {
        let shorter = lines.drop_last();
        assert forall|r: int| 0 <= r < shorter.len() implies (#[trigger] shorter[r]).len()
            == width && cells_only(shorter[r]) by {
            assert(shorter[r] == lines[r]);
        }
        lemma_cells_count(shorter, width);
        lemma_cells_of_lines(lines);
        assert(lines[lines.len() - 1].len() == width);
        assert(lines.len() * width == (lines.len() - 1) * width + width) by (nonlinear_arith);
    }
}

/// The index law between the parser and the mapper. Take a tile-code text
/// of as many lines as the map has tile rows, each holding as many tokens as
/// the map has tile columns, all of them readable, and a mask of as many
/// lines, each holding as many cells. Then for every room and tile of the
/// map, the record at the mapper's flat index is the record written at that
/// cell: its code is that of the token in the line of the cell's map row, at
/// the place of its map column, and it is blocked exactly if the mask
/// character at the same line and place is an `X`. And the flat index
/// leads back to the same room and tile.
pub proof fn lemma_cell_recovered(
    layout: MapLayout,
    code_lines: Seq<Seq<char>>,
    mask_lines: Seq<Seq<char>>,
    room: RoomCoordinate,
    tile: TileCoordinate,
)
    requires
        code_lines.len() == layout.map_rows(),
        lines_hold(code_lines, layout.map_cols()),
        codes_readable(
            tokens(join_lines(code_lines)),
            tokens(join_lines(code_lines)).len() as int,
        ),
        mask_lines.len() == layout.map_rows(),
        mask_lines_hold(mask_lines, layout.map_cols()),
        layout.contains(room, tile),
    ensures
        loaded_tiles(join_lines(code_lines), join_lines(mask_lines)).len() == layout.tile_count(),
        0 <= index_of(layout, room, tile) < layout.tile_count(),
        token_code(tokens(code_lines[room.row * 11 + tile.row])[room.col * 16 + tile.col]) is Some,
        loaded_tiles(join_lines(code_lines), join_lines(mask_lines))[index_of(layout, room, tile)]
            == record_of_code(
            token_code(
                tokens(code_lines[room.row * 11 + tile.row])[room.col * 16 + tile.col],
            ).unwrap(),
            mask_lines[room.row * 11 + tile.row][room.col * 16 + tile.col] == 'X',
        ),
        cell_at(layout, index_of(layout, room, tile)) == (room, tile),
{
    let row = room.row * 11 + tile.row;
    let col = room.col * 16 + tile.col;
    let index = index_of(layout, room, tile);
    lemma_tokens_row_major(code_lines, layout.map_cols(), row, col);
    lemma_cells_row_major(mask_lines, layout.map_cols(), row, col);
    lemma_index_in_range(layout, room, tile);
    lemma_index_round_trip(layout, room, tile);
    let toks = tokens(join_lines(code_lines));
    assert(index == row * layout.map_cols() + col);
    assert(token_code(toks[index]) is Some);
}

} // verus!
