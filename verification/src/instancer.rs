//! The world instancer: one sweep over every room and every tile of a map
//! that lists what is to be placed in the world.
//!
//! Each room gets one ground segment at its origin. Each tile that the tile
//! sequence holds and marks as blocked gets one obstacle at its centre,
//! turned about the vertical axis by a yaw drawn at random. A tile whose
//! flat index lies past the end of the tile sequence is skipped and
//! reported: that is expected where the room grid is larger than the tile
//! data, and no error.

use crate::layout::{
    index_of, room_origin_of, tile_origin_of, MapLayout, RoomCoordinate, TileCoordinate,
    WorldPoint, TILE_COLS_PER_ROOM, TILE_ROWS_PER_ROOM,
};
use crate::tile::TileRecord;
use rand::Rng;
use vstd::prelude::*;

verus! {

/// The number of steps into which a full turn is divided. A yaw is a count
/// of such steps: `yaw / YAW_STEPS` of a full turn, which in radians is an
/// angle from zero up to, and not including, two pi.
pub const YAW_STEPS: u32 = 0x100_0000;

/// The asset that a placement instantiates.
#[derive(Clone, Copy, Debug, PartialEq, Eq, Structural)]
pub enum Asset {
    /// The ground segment of one room.
    Ground,
    /// The solid obstacle of one blocked tile.
    Obstacle,
}

/// An instruction to place an asset in the world.
#[derive(Clone, Copy, Debug, PartialEq, Eq, Structural)]
pub struct WorldPlacement {
    pub asset: Asset,
    /// Where the asset goes, in half world units.
    pub position: WorldPoint,
    /// The turn about the vertical axis, in steps of which `YAW_STEPS` make
    /// a full turn.
    pub yaw: u32,
}

/// A tile that the sweep passed over because the tile sequence does not
/// hold it.
#[derive(Clone, Copy, Debug, PartialEq, Eq, Structural)]
pub struct SkippedCell {
    pub room: RoomCoordinate,
    pub tile: TileCoordinate,
    /// The flat index that the coordinates give.
    pub index: u64,
}

/// What the sweep makes of one tile.
#[derive(Clone, Copy, Debug, PartialEq, Eq, Structural)]
pub enum CellOutcome {
    /// The tile is held and open: nothing is placed.
    Open,
    /// The tile is held and blocked: an obstacle is placed.
    Obstacle(WorldPlacement),
    /// The tile is not held: nothing is placed, and the skip is reported.
    Skipped(SkippedCell),
}

/// What a sweep lists: the placements in the order of the sweep, and the
/// skipped tiles in the order of the sweep.
#[derive(Clone, Debug, PartialEq, Eq)]
pub struct WorldInstance {
    pub placements: Vec<WorldPlacement>,
    pub skipped: Vec<SkippedCell>,
}

/// The yaw that a random word gives: its upper 24 bits, so that every yaw
/// is as likely as any other.
pub open spec fn yaw_of_word(word: u32) -> u32 {
    word / 256
}

/// The ground segment of a room, not turned.
pub open spec fn ground_at(layout: MapLayout, room: RoomCoordinate) -> WorldPlacement {
    WorldPlacement { asset: Asset::Ground, position: room_origin_of(layout, room), yaw: 0 }
}

/// The obstacle of a tile.
pub open spec fn obstacle_at(
    layout: MapLayout,
    room: RoomCoordinate,
    tile: TileCoordinate,
    yaw: u32,
) -> WorldPlacement {
    WorldPlacement { asset: Asset::Obstacle, position: tile_origin_of(layout, room, tile), yaw }
}

/// The report of a skipped tile.
pub open spec fn skip_of(
    layout: MapLayout,
    room: RoomCoordinate,
    tile: TileCoordinate,
) -> SkippedCell {
    SkippedCell { room, tile, index: index_of(layout, room, tile) as u64 }
}

/// Whether a tile sequence of length `held` holds the tile: the
/// coordinates lie within the map, and their flat index within the sequence.
pub open spec fn holds_tile(
    layout: MapLayout,
    held: int,
    room: RoomCoordinate,
    tile: TileCoordinate,
) -> bool {
    layout.contains(room, tile) && index_of(layout, room, tile) < held
}

/// Whether the sweep places an obstacle on the tile.
pub open spec fn blocked_at(
    layout: MapLayout,
    tiles: Seq<TileRecord>,
    room: RoomCoordinate,
    tile: TileCoordinate,
) -> bool {
    &&& holds_tile(layout, tiles.len() as int, room, tile)
    &&& tiles[index_of(layout, room, tile)].blocked
}

/// What the sweep makes of one tile, given the random word drawn for it.
pub open spec fn cell_outcome(
    layout: MapLayout,
    tiles: Seq<TileRecord>,
    room: RoomCoordinate,
    tile: TileCoordinate,
    word: u32,
) -> CellOutcome {
    if !holds_tile(layout, tiles.len() as int, room, tile) {
        CellOutcome::Skipped(skip_of(layout, room, tile))
    } else if tiles[index_of(layout, room, tile)].blocked {
        CellOutcome::Obstacle(obstacle_at(layout, room, tile, yaw_of_word(word)))
    } else {
        CellOutcome::Open
    }
}

/// Whether a looked-up tile calls for a yaw: it is held and blocked, so an
/// obstacle will stand on it.
pub open spec fn calls_for_yaw(record: Option<TileRecord>) -> bool {
    match record {
        Some(found) => found.blocked,
        None => false,
    }
}

/// The tile with ordinal `k` in the row-major order of a room's tiles.
pub open spec fn tile_at_ordinal(k: int) -> TileCoordinate {
    TileCoordinate { col: (k % 16) as u16, row: (k / 16) as u16 }
}

/// The obstacles of the first `k` tiles of a room, in row-major order, none
/// of them turned.
pub open spec fn room_obstacles(
    layout: MapLayout,
    tiles: Seq<TileRecord>,
    room: RoomCoordinate,
    k: int,
) -> Seq<WorldPlacement>
    decreases k,
{
    if k <= 0 {
        Seq::empty()
    } else {
        let before = room_obstacles(layout, tiles, room, k - 1);
        let tile = tile_at_ordinal(k - 1);
        if blocked_at(layout, tiles, room, tile) {
            before.push(obstacle_at(layout, room, tile, 0))
        } else {
            before
        }
    }
}

/// The skipped tiles among the first `k` tiles of a room, in row-major
/// order.
pub open spec fn room_skips(layout: MapLayout, held: int, room: RoomCoordinate, k: int) -> Seq<
    SkippedCell,
>
    decreases k,
{
    if k <= 0 {
        Seq::empty()
    } else {
        let before = room_skips(layout, held, room, k - 1);
        let tile = tile_at_ordinal(k - 1);
        if holds_tile(layout, held, room, tile) {
            before
        } else {
            before.push(skip_of(layout, room, tile))
        }
    }
}

/// The placements of one room: its ground segment, then the obstacles of
/// its tiles. A room outside the room grid has neither.
pub open spec fn room_placements(
    layout: MapLayout,
    tiles: Seq<TileRecord>,
    room: RoomCoordinate,
) -> Seq<WorldPlacement> {
    if layout.contains_room(room) {
        seq![ground_at(layout, room)] + room_obstacles(layout, tiles, room, 176)
    } else {
        Seq::empty()
    }
}

/// The placements of the first `c` rooms of a room row.
pub open spec fn row_placements(
    layout: MapLayout,
    tiles: Seq<TileRecord>,
    row: u16,
    c: int,
) -> Seq<WorldPlacement>
    decreases c,
{
    if c <= 0 {
        Seq::empty()
    } else {
        row_placements(layout, tiles, row, c - 1) + room_placements(
            layout,
            tiles,
            RoomCoordinate { col: (c - 1) as u16, row },
        )
    }
}

/// The placements of the first `r` room rows: the plan of the sweep, room
/// by room in row-major order, with no placement turned.
pub open spec fn sweep_placements(layout: MapLayout, tiles: Seq<TileRecord>, r: int) -> Seq<
    WorldPlacement,
>
    decreases r,
{
    if r <= 0 {
        Seq::empty()
    } else {
        sweep_placements(layout, tiles, r - 1) + row_placements(
            layout,
            tiles,
            (r - 1) as u16,
            layout.room_cols as int,
        )
    }
}

/// The skipped tiles of the first `c` rooms of a room row.
pub open spec fn row_skips(layout: MapLayout, held: int, row: u16, c: int) -> Seq<SkippedCell>
    decreases c,
{
    if c <= 0 {
        Seq::empty()
    } else {
        row_skips(layout, held, row, c - 1) + room_skips(
            layout,
            held,
            RoomCoordinate { col: (c - 1) as u16, row },
            176,
        )
    }
}

/// The skipped tiles of the first `r` room rows, in the order of the sweep.
pub open spec fn sweep_skips(layout: MapLayout, held: int, r: int) -> Seq<SkippedCell>
    decreases r,
{
    if r <= 0 {
        Seq::empty()
    } else {
        sweep_skips(layout, held, r - 1) + row_skips(
            layout,
            held,
            (r - 1) as u16,
            layout.room_cols as int,
        )
    }
}

/// Whether a list of placements carries out a plan: the same assets at the
/// same positions in the same order. The yaws are free, within a full turn,
/// but for the ground segments, which are not turned.
pub open spec fn follows_plan(actual: Seq<WorldPlacement>, plan: Seq<WorldPlacement>) -> bool {
    &&& actual.len() == plan.len()
    &&& forall|i: int|
        0 <= i < plan.len() ==> {
            &&& (#[trigger] actual[i]).asset == plan[i].asset
            &&& actual[i].position == plan[i].position
            &&& actual[i].yaw < YAW_STEPS
            &&& actual[i].asset == Asset::Ground ==> actual[i].yaw == 0
        }
}

/// Two lists that carry out two plans, one after the other, carry out the
/// two plans one after the other.
pub proof fn lemma_follows_plan_concat(
    first: Seq<WorldPlacement>,
    first_plan: Seq<WorldPlacement>,
    second: Seq<WorldPlacement>,
    second_plan: Seq<WorldPlacement>,
)
    requires
        follows_plan(first, first_plan),
        follows_plan(second, second_plan),
    ensures
        follows_plan(first + second, first_plan + second_plan),
{
    let actual = first + second;
    let plan = first_plan + second_plan;
    assert forall|i: int| 0 <= i < plan.len() implies {
        &&& (#[trigger] actual[i]).asset == plan[i].asset
        &&& actual[i].position == plan[i].position
        &&& actual[i].yaw < YAW_STEPS
        &&& actual[i].asset == Asset::Ground ==> actual[i].yaw == 0
    } by {
        if i < first.len() {
            assert(actual[i] == first[i]);
        } else {
            assert(actual[i] == second[i - first.len()]);
            assert(plan[i] == second_plan[i - first.len()]);
        }
    }
}

/// A room outside the room grid has no obstacles.
pub proof fn lemma_no_obstacles_outside(
    layout: MapLayout,
    tiles: Seq<TileRecord>,
    room: RoomCoordinate,
    k: int,
)
    requires
        !layout.contains_room(room),
    ensures
        room_obstacles(layout, tiles, room, k) == Seq::<WorldPlacement>::empty(),
    decreases k,
{
    if k > 0 {
        lemma_no_obstacles_outside(layout, tiles, room, k - 1);
    }
}

impl Asset {
    /// The scene that the rendering side loads for the asset.
    pub fn scene_path(&self) -> (path: &'static str)
        ensures
            path@ == match *self {
                Asset::Ground => "Ground.glb#Scene0"@,
                Asset::Obstacle => "CanyonChunk.glb#Scene0"@,
            },
    {
        match self {
            Asset::Ground => "Ground.glb#Scene0",
            Asset::Obstacle => "CanyonChunk.glb#Scene0",
        }
    }
}

/// Draws a random 32-bit word from the thread-local generator of the `rand`
/// crate, by `rand::thread_rng` and `Rng::gen`. Nothing is claimed of the
/// word: each call may give any value. The generator is seeded from the
/// operating system on a thread's first call, and `rand` panics there if
/// the operating system has no randomness to give.
#[verifier::external_body]
fn random_word() -> (word: u32) {
    rand::thread_rng().gen::<u32>()
}

/// The yaw that a random word gives.
pub fn yaw_from_word(word: u32) -> (yaw: u32)
    ensures
        yaw == yaw_of_word(word),
        yaw < YAW_STEPS,
{
    assert(word >> 8 == word / 256 && word >> 8 < 0x100_0000) by (bit_vector);
    word >> 8
}

/// Looks a tile up: the record of the tile, or `None` where the tile
/// sequence does not hold it. Nothing is asked of the coordinates.
pub fn tile_at(
    layout: &MapLayout,
    tiles: &[TileRecord],
    room: RoomCoordinate,
    tile: TileCoordinate,
) -> (record: Option<TileRecord>)
    ensures
        record == if holds_tile(*layout, tiles@.len() as int, room, tile) {
            Some(tiles@[index_of(*layout, room, tile)])
        } else {
            None
        },
{
    let index: u64 = layout.flat_index(room, tile);
    if layout.holds(room, tile) && index < tiles.len() as u64 {
        Some(tiles[index as usize])
    } else {
        None
    }
}

/// What the sweep makes of one tile, given the random word drawn for it.
/// Nothing is asked of the coordinates: a tile outside the map is skipped
/// like one past the end of the tile sequence.
pub fn instance_cell(
    layout: &MapLayout,
    tiles: &[TileRecord],
    room: RoomCoordinate,
    tile: TileCoordinate,
    word: u32,
) -> (outcome: CellOutcome)
    ensures
        outcome == cell_outcome(*layout, tiles@, room, tile, word),
{
    match tile_at(layout, tiles, room, tile) {
        None => CellOutcome::Skipped(
            SkippedCell { room, tile, index: layout.flat_index(room, tile) },
        ),
        Some(record) => {
            if record.blocked {
                CellOutcome::Obstacle(
                    WorldPlacement {
                        asset: Asset::Obstacle,
                        position: layout.tile_origin(room, tile),
                        yaw: yaw_from_word(word),
                    },
                )
            } else {
                CellOutcome::Open
            }
        },
    }
}

/// The random word for a tile: drawn afresh where the tile is blocked, and
/// zero, with nothing drawn, where the tile is open or not held and so
/// nothing will be turned. Of a drawn word nothing is known.
fn draw_for(record: Option<TileRecord>) -> (word: u32)
    ensures
        !calls_for_yaw(record) ==> word == 0,
{
    match record {
        Some(found) => {
            if found.blocked {
                random_word()
            } else {
                0
            }
        },
        None => 0,
    }
}

/// Sweeps one room: its ground segment, then its tiles row by row, with a
/// yaw drawn afresh for each obstacle. A room outside the room grid gets no
/// placement, and each of its tiles is skipped.
pub fn instance_room(layout: &MapLayout, tiles: &[TileRecord], room: RoomCoordinate) -> (out:
    WorldInstance)
    ensures
        follows_plan(out.placements@, room_placements(*layout, tiles@, room)),
        out.skipped@ == room_skips(*layout, tiles@.len() as int, room, 176),
{
    let mut placements: Vec<WorldPlacement> = Vec::new();
    let mut skipped: Vec<SkippedCell> = Vec::new();
    let inside = room.col < layout.room_cols && room.row < layout.room_rows;
    if inside {
        placements.push(
            WorldPlacement { asset: Asset::Ground, position: layout.room_origin(room), yaw: 0 },
        );
    }
    let ghost head: Seq<WorldPlacement> = if inside {
        seq![ground_at(*layout, room)]
    } else {
        Seq::empty()
    };
    let mut tile_row: u16 = 0;
    while tile_row < TILE_ROWS_PER_ROOM
        invariant
            tile_row <= 11,
            inside == layout.contains_room(room),
            head == if inside {
                seq![ground_at(*layout, room)]
            } else {
                Seq::<WorldPlacement>::empty()
            },
            follows_plan(
                placements@,
                head + room_obstacles(*layout, tiles@, room, tile_row * 16),
            ),
            skipped@ == room_skips(*layout, tiles@.len() as int, room, tile_row * 16),
        decreases 11 - tile_row,
    {
        let mut tile_col: u16 = 0;
        while tile_col < TILE_COLS_PER_ROOM
            invariant
                tile_row < 11,
                tile_col <= 16,
                follows_plan(
                    placements@,
                    head + room_obstacles(*layout, tiles@, room, tile_row * 16 + tile_col),
                ),
                skipped@ == room_skips(
                    *layout,
                    tiles@.len() as int,
                    room,
                    tile_row * 16 + tile_col,
                ),
            decreases 16 - tile_col,
        {
            let tile = TileCoordinate { col: tile_col, row: tile_row };
            let ghost k = tile_row * 16 + tile_col;
            let ghost plan = head + room_obstacles(*layout, tiles@, room, k);
            assert(tile_at_ordinal(k) == tile);
            let word: u32 = draw_for(tile_at(layout, tiles, room, tile));
            match instance_cell(layout, tiles, room, tile, word) {
                CellOutcome::Obstacle(placement) => {
                    proof {
                        let planned = obstacle_at(*layout, room, tile, 0);
                        lemma_follows_plan_concat(
                            placements@,
                            plan,
                            seq![placement],
                            seq![planned],
                        );
                        assert(placements@.push(placement) == placements@ + seq![placement]);
                        assert(head + room_obstacles(*layout, tiles@, room, k + 1) == plan
                            + seq![planned]);
                    }
                    placements.push(placement);
                },
                CellOutcome::Skipped(cell) => {
                    skipped.push(cell);
                },
                CellOutcome::Open => {},
            }
            tile_col += 1;
        }
        tile_row += 1;
    }
    proof {
        if !inside {
            lemma_no_obstacles_outside(*layout, tiles@, room, 176);
        }
    }
    WorldInstance { placements, skipped }
}

/// Sweeps the map once: the rooms in row-major order, in each room its
/// ground segment and then its tiles in row-major order. The placements
/// come out exactly as planned but for the yaws of the obstacles, which are
/// drawn at random on every run. The skipped tiles are those of the map
/// that the tile sequence does not hold, each reported once.
pub fn map_setup(layout: &MapLayout, tiles: &[TileRecord]) -> (out: WorldInstance)
    ensures
        follows_plan(
            out.placements@,
            sweep_placements(*layout, tiles@, layout.room_rows as int),
        ),
        out.skipped@ == sweep_skips(*layout, tiles@.len() as int, layout.room_rows as int),
{
    let mut placements: Vec<WorldPlacement> = Vec::new();
    let mut skipped: Vec<SkippedCell> = Vec::new();
    let mut room_row: u16 = 0;
    while room_row < layout.room_rows
        invariant
            room_row <= layout.room_rows,
            follows_plan(placements@, sweep_placements(*layout, tiles@, room_row as int)),
            skipped@ == sweep_skips(*layout, tiles@.len() as int, room_row as int),
        decreases layout.room_rows - room_row,
    {
        let ghost rows_plan = sweep_placements(*layout, tiles@, room_row as int);
        let ghost rows_skips = sweep_skips(*layout, tiles@.len() as int, room_row as int);
        let mut room_col: u16 = 0;
        assert(rows_plan + row_placements(*layout, tiles@, room_row, 0) == rows_plan);
        assert(rows_skips + row_skips(*layout, tiles@.len() as int, room_row, 0) == rows_skips);
        while room_col < layout.room_cols
            invariant
                room_row < layout.room_rows,
                room_col <= layout.room_cols,
                rows_plan == sweep_placements(*layout, tiles@, room_row as int),
                rows_skips == sweep_skips(*layout, tiles@.len() as int, room_row as int),
                follows_plan(
                    placements@,
                    rows_plan + row_placements(*layout, tiles@, room_row, room_col as int),
                ),
                skipped@ == rows_skips + row_skips(
                    *layout,
                    tiles@.len() as int,
                    room_row,
                    room_col as int,
                ),
            decreases layout.room_cols - room_col,
        {
            let room = RoomCoordinate { col: room_col, row: room_row };
            let mut part = instance_room(layout, tiles, room);
            proof {
                let done = row_placements(*layout, tiles@, room_row, room_col as int);
                let next = room_placements(*layout, tiles@, room);
                lemma_follows_plan_concat(
                    placements@,
                    rows_plan + done,
                    part.placements@,
                    next,
                );
                assert(rows_plan + done + next == rows_plan + (done + next));
                let done_skips = row_skips(*layout, tiles@.len() as int, room_row, room_col as int);
                let next_skips = room_skips(*layout, tiles@.len() as int, room, 176);
                assert(rows_skips + done_skips + next_skips == rows_skips + (done_skips
                    + next_skips));
            }
            placements.append(&mut part.placements);
            skipped.append(&mut part.skipped);
            room_col += 1;
        }
        room_row += 1;
    }
    WorldInstance { placements, skipped }
}

} // verus!
