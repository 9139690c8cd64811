//! The room and tile coordinate mapper: how a position in the flat tile
//! sequence relates to a room, a tile within the room, and a point in world
//! space.
//!
//! The map is a grid of rooms, each room a grid of 16 by 11 tiles. The tile
//! sequence holds the whole map row by row, so one map row runs through all
//! the rooms of a room row before the next map row starts.

use vstd::arithmetic::div_mod::{lemma_fundamental_div_mod, lemma_fundamental_div_mod_converse};
use vstd::arithmetic::mul::{lemma_mul_inequality, lemma_mul_is_commutative};
use vstd::prelude::*;

verus! {

/// The number of tile columns in a room.
pub const TILE_COLS_PER_ROOM: u16 = 16;

/// The number of tile rows in a room.
pub const TILE_ROWS_PER_ROOM: u16 = 11;

/// The number of tiles in a room.
pub const TILES_PER_ROOM: u16 = 176;

/// The number of room columns of the overworld.
pub const OVERWORLD_ROOM_COLS: u16 = 16;

/// The number of room rows of the overworld.
pub const OVERWORLD_ROOM_ROWS: u16 = 8;

/// How far above the first tile row a room's origin lies, in half world
/// units. The ground model of a room is built around this point.
pub const HALF_DEPTH_OFFSET: i32 = 10;

/// The size of the room grid of a map.
#[derive(Clone, Copy, Debug, PartialEq, Eq, Structural)]
pub struct MapLayout {
    /// The number of rooms side by side.
    pub room_cols: u16,
    /// The number of rooms one below the other.
    pub room_rows: u16,
}

/// A room of the map.
#[derive(Clone, Copy, Debug, PartialEq, Eq, Structural)]
pub struct RoomCoordinate {
    pub col: u16,
    pub row: u16,
}

/// A tile, by its place within its room.
#[derive(Clone, Copy, Debug, PartialEq, Eq, Structural)]
pub struct TileCoordinate {
    pub col: u16,
    pub row: u16,
}

/// A point in world space. Each coordinate counts half world units: the
/// centre of a tile lies half a unit off the grid lines, and in halves it is
/// still a whole number.
#[derive(Clone, Copy, Debug, PartialEq, Eq, Structural)]
pub struct WorldPoint {
    pub x: i32,
    pub y: i32,
    pub z: i32,
}

impl TileCoordinate {
    /// Whether the tile lies within the 16 by 11 tiles of a room.
    pub open spec fn in_room(self) -> bool {
        self.col < 16 && self.row < 11
    }
}

impl MapLayout {
    /// The number of tile columns of the whole map: the length of a map row.
    pub open spec fn map_cols(self) -> int {
        self.room_cols * 16
    }

    /// The number of tile rows of the whole map.
    pub open spec fn map_rows(self) -> int {
        self.room_rows * 11
    }

    /// The number of tiles of the whole map.
    pub open spec fn tile_count(self) -> int {
        self.map_rows() * self.map_cols()
    }

    /// The number of rooms.
    pub open spec fn room_count(self) -> int {
        self.room_rows * self.room_cols
    }

    /// Whether the room lies within the room grid.
    pub open spec fn contains_room(self, room: RoomCoordinate) -> bool {
        room.col < self.room_cols && room.row < self.room_rows
    }

    /// Whether the room lies within the room grid and the tile within the
    /// room.
    pub open spec fn contains(self, room: RoomCoordinate, tile: TileCoordinate) -> bool {
        self.contains_room(room) && tile.in_room()
    }
}

/// The index at which row-major order puts the cell in map row `row` and map
/// column `col`. This is the order in which the parser lays the tile codes
/// down: line after line, and each line from left to right.
pub open spec fn row_major_index(layout: MapLayout, row: int, col: int) -> int {
    row * layout.map_cols() + col
}

/// The flat index of a tile of a room.
pub open spec fn index_of(layout: MapLayout, room: RoomCoordinate, tile: TileCoordinate) -> int {
    (room.row * 11 + tile.row) * (layout.room_cols * 16) + room.col * 16 + tile.col
}

/// The room and the tile that a flat index denotes.
pub open spec fn cell_at(layout: MapLayout, index: int) -> (RoomCoordinate, TileCoordinate) {
    let row = index / layout.map_cols();
    let col = index % layout.map_cols();
    (
        RoomCoordinate { col: (col / 16) as u16, row: (row / 11) as u16 },
        TileCoordinate { col: (col % 16) as u16, row: (row % 11) as u16 },
    )
}

/// Where a room's origin lies: the rooms are 16 units wide and 11 deep, the
/// room grid is centred on the x axis, and the ground is flat.
pub open spec fn room_origin_of(layout: MapLayout, room: RoomCoordinate) -> WorldPoint {
    WorldPoint {
        x: (32 * room.col - 16 * layout.room_cols) as i32,
        y: 0,
        z: (22 * room.row + 10) as i32,
    }
}

/// Where the centre of a tile lies: one unit per tile from the room's left
/// edge, half a unit in, and one unit per tile row from the room's first row.
pub open spec fn tile_origin_of(
    layout: MapLayout,
    room: RoomCoordinate,
    tile: TileCoordinate,
) -> WorldPoint {
    let origin = room_origin_of(layout, room);
    WorldPoint {
        x: (2 * tile.col - 16 + origin.x + 1) as i32,
        y: 0,
        z: (2 * tile.row + origin.z - 10) as i32,
    }
}

impl MapLayout {
    /// The layout of the overworld: 16 by 8 rooms.
    pub fn overworld() -> (layout: MapLayout)
        ensures
            layout == (MapLayout { room_cols: 16, room_rows: 8 }),
            layout.tile_count() == 256 * 88,
    {
        let layout = MapLayout { room_cols: OVERWORLD_ROOM_COLS, room_rows: OVERWORLD_ROOM_ROWS };
        assert(layout.map_rows() * layout.map_cols() == 256 * 88) by (nonlinear_arith)
            requires
                layout.map_rows() == 88,
                layout.map_cols() == 256,
        ;
        layout
    }

    /// The number of tiles that a complete map of this layout holds.
    pub fn tiles(&self) -> (count: u64)
        ensures
            count == self.tile_count(),
    {
        let rows: u64 = self.room_rows as u64 * 11;
        let cols: u64 = self.room_cols as u64 * 16;
        proof {
            lemma_tile_count_fits(*self);
        }
        rows * cols
    }

    /// Whether the room lies within the room grid and the tile within the
    /// room.
    pub fn holds(&self, room: RoomCoordinate, tile: TileCoordinate) -> (inside: bool)
        ensures
            inside == self.contains(room, tile),
    {
        room.col < self.room_cols && room.row < self.room_rows && tile.col < TILE_COLS_PER_ROOM
            && tile.row < TILE_ROWS_PER_ROOM
    }

    /// The flat index of a tile of a room, by the formula alone: nothing is
    /// asked of the coordinates, and those of a cell outside the map give the
    /// index of another cell or of none.
    pub fn flat_index(&self, room: RoomCoordinate, tile: TileCoordinate) -> (index: u64)
        ensures
            index == index_of(*self, room, tile),
    {
        let row: u64 = room.row as u64 * 11 + tile.row as u64;
        let stride: u64 = self.room_cols as u64 * 16;
        assert(row * stride <= 786420 * 1048560) by (nonlinear_arith)
            requires
                row <= 786420,
                stride <= 1048560,
        ;
        row * stride + room.col as u64 * 16 + tile.col as u64
    }

    /// The flat index of a cell of the map; `None` for coordinates outside
    /// the room grid or outside the room.
    pub fn tile_index(&self, room: RoomCoordinate, tile: TileCoordinate) -> (index: Option<u64>)
        ensures
            index == if self.contains(room, tile) {
                Some(index_of(*self, room, tile) as u64)
            } else {
                None
            },
            index matches Some(i) ==> i < self.tile_count(),
    {
        if self.holds(room, tile) {
            proof {
                lemma_index_in_range(*self, room, tile);
            }
            Some(self.flat_index(room, tile))
        } else {
            None
        }
    }

    /// The room and the tile that a flat index denotes; `None` for an index
    /// past the end of the map.
    pub fn locate(&self, index: u64) -> (cell: Option<(RoomCoordinate, TileCoordinate)>)
        ensures
            cell == if index < self.tile_count() {
                Some(cell_at(*self, index as int))
            } else {
                None
            },
            cell matches Some(c) ==> self.contains(c.0, c.1) && index_of(*self, c.0, c.1) == index,
    {
        if index >= self.tiles() {
            return None;
        }
        let stride: u64 = self.room_cols as u64 * 16;
        assert(stride > 0) by {
            if stride == 0 {
                assert(self.tile_count() == 0) by (nonlinear_arith)
                    requires
                        self.map_cols() == 0,
                        self.tile_count() == self.map_rows() * self.map_cols(),
                ;
            }
        }
        let row: u64 = index / stride;
        let col: u64 = index % stride;
        proof {
            lemma_locate_round_trip(*self, index as int);
            lemma_cell_at_bounds(*self, index as int);
        }
        Some(
            (
                RoomCoordinate { col: (col / 16) as u16, row: (row / 11) as u16 },
                TileCoordinate { col: (col % 16) as u16, row: (row % 11) as u16 },
            ),
        )
    }

    /// Where the origin of a room lies in world space.
    pub fn room_origin(&self, room: RoomCoordinate) -> (point: WorldPoint)
        ensures
            point == room_origin_of(*self, room),
            point.x == 32 * room.col - 16 * self.room_cols,
            point.y == 0,
            point.z == 22 * room.row + 10,
    {
        WorldPoint {
            x: 32 * room.col as i32 - 16 * self.room_cols as i32,
            y: 0,
            z: 22 * room.row as i32 + HALF_DEPTH_OFFSET,
        }
    }

    /// Where the centre of a tile lies in world space.
    pub fn tile_origin(&self, room: RoomCoordinate, tile: TileCoordinate) -> (point: WorldPoint)
        ensures
            point == tile_origin_of(*self, room, tile),
            point.x == 2 * tile.col + 32 * room.col - 16 * self.room_cols - 15,
            point.y == 0,
            point.z == 2 * tile.row + 22 * room.row,
    {
        let origin = self.room_origin(room);
        WorldPoint {
            x: 2 * tile.col as i32 - 16 + origin.x + 1,
            y: 0,
            z: 2 * tile.row as i32 + origin.z - HALF_DEPTH_OFFSET,
        }
    }
}

/// No map has more tiles than a 64-bit index can count.
pub proof fn lemma_tile_count_fits(layout: MapLayout)
    ensures
        0 <= layout.tile_count() <= 720885 * 1048560,
{
    let rows = layout.map_rows();
    let cols = layout.map_cols();
    assert(0 <= rows * cols <= 720885 * 1048560) by (nonlinear_arith)
        requires
            0 <= rows <= 720885,
            0 <= cols <= 1048560,
    ;
}

/// The flat index is the row-major index of the cell's map row and map
/// column: the mapper's formula and the parser's fill order are one
/// flattening.
pub proof fn lemma_index_is_row_major(layout: MapLayout, room: RoomCoordinate, tile: TileCoordinate)
    ensures
        index_of(layout, room, tile) == row_major_index(
            layout,
            room.row * 11 + tile.row,
            room.col * 16 + tile.col,
        ),
{
}

/// The flat index of a cell of the map lies within the map.
pub proof fn lemma_index_in_range(layout: MapLayout, room: RoomCoordinate, tile: TileCoordinate)
    requires
        layout.contains(room, tile),
    ensures
        0 <= index_of(layout, room, tile) < layout.tile_count(),
{
    let row = room.row * 11 + tile.row;
    let col = room.col * 16 + tile.col;
    let stride = layout.map_cols();
    assert(row + 1 <= layout.map_rows());
    assert(col < stride);
    assert((row + 1) * stride <= layout.map_rows() * stride) by {
        lemma_mul_inequality(row + 1, layout.map_rows(), stride);
    }
    assert((row + 1) * stride == row * stride + stride) by (nonlinear_arith);
    assert(0 <= row * stride) by (nonlinear_arith)
        requires
            0 <= row,
            0 <= stride,
    ;
}

/// From coordinates to the flat index and back: the cell that the flat
/// index of a cell of the map denotes is that cell.
pub proof fn lemma_index_round_trip(layout: MapLayout, room: RoomCoordinate, tile: TileCoordinate)
    requires
        layout.contains(room, tile),
    ensures
        cell_at(layout, index_of(layout, room, tile)) == (room, tile),
{
    let row = room.row * 11 + tile.row;
    let col = room.col * 16 + tile.col;
    let stride = layout.map_cols();
    let index = index_of(layout, room, tile);
    assert(0 <= col < stride);
    lemma_fundamental_div_mod_converse(index, stride, row, col);
    assert(index / stride == row);
    assert(index % stride == col);
}

/// The cell that a flat index within the map denotes lies within the map.
pub proof fn lemma_cell_at_bounds(layout: MapLayout, index: int)
    requires
        0 <= index < layout.tile_count(),
    ensures
        0 <= index / layout.map_cols() < layout.map_rows(),
        0 <= index % layout.map_cols() < layout.map_cols(),
        layout.contains(cell_at(layout, index).0, cell_at(layout, index).1),
{
    let stride = layout.map_cols();
    let rows = layout.map_rows();
    assert(stride > 0) by {
        if stride == 0 {
            assert(rows * stride == 0) by (nonlinear_arith)
                requires
                    stride == 0,
            ;
        }
    }
    lemma_fundamental_div_mod(index, stride);
    let row = index / stride;
    let col = index % stride;
    assert(0 <= col < stride);
    assert(0 <= row < rows) by (nonlinear_arith)
        requires
            index == stride * row + col,
            0 <= col < stride,
            0 <= index < rows * stride,
            stride > 0,
    ;
}

/// From the flat index to coordinates and back: the flat index of the cell
/// that an index within the map denotes is that index.
pub proof fn lemma_locate_round_trip(layout: MapLayout, index: int)
    requires
        0 <= index < layout.tile_count(),
    ensures
        index_of(layout, cell_at(layout, index).0, cell_at(layout, index).1) == index,
{
    lemma_cell_at_bounds(layout, index);
    let stride = layout.map_cols();
    let row = index / stride;
    let col = index % stride;
    lemma_fundamental_div_mod(index, stride);
    let cell = cell_at(layout, index);
    assert(cell.0.row * 11 + cell.1.row == row);
    assert(cell.0.col * 16 + cell.1.col == col);
    assert(row * stride == stride * row) by {
        lemma_mul_is_commutative(row, stride);
    }
}

/// Two cells of the map with one flat index are one cell.
pub proof fn lemma_index_injective(
    layout: MapLayout,
    room_a: RoomCoordinate,
    tile_a: TileCoordinate,
    room_b: RoomCoordinate,
    tile_b: TileCoordinate,
)
    requires
        layout.contains(room_a, tile_a),
        layout.contains(room_b, tile_b),
        index_of(layout, room_a, tile_a) == index_of(layout, room_b, tile_b),
    ensures
        room_a == room_b,
        tile_a == tile_b,
{
    lemma_index_round_trip(layout, room_a, tile_a);
    lemma_index_round_trip(layout, room_b, tile_b);
}

} // verus!
