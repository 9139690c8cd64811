//! What a sweep lists, counted: the laws that hold of every run of the
//! instancer over a map, whatever yaws were drawn.

use crate::instancer::{
    blocked_at, follows_plan, ground_at, holds_tile, obstacle_at, room_obstacles,
    room_placements, room_skips, row_placements, row_skips, skip_of, sweep_placements,
    sweep_skips, tile_at_ordinal, Asset, SkippedCell, WorldPlacement,
};
use crate::layout::{
    cell_at, index_of, lemma_cell_at_bounds, lemma_index_in_range, lemma_index_round_trip,
    lemma_locate_round_trip, lemma_tile_count_fits, tile_origin_of, MapLayout, RoomCoordinate,
    TileCoordinate,
};
use crate::tile::TileRecord;
use vstd::prelude::*;
use vstd::seq_lib::lemma_no_dup_in_concat;
use vstd::set_lib::{lemma_int_range, set_int_range};

verus! {

/// The test for a ground segment.
pub open spec fn is_ground() -> spec_fn(WorldPlacement) -> bool {
    |p: WorldPlacement| p.asset == Asset::Ground
}

/// The test for an obstacle.
pub open spec fn is_obstacle() -> spec_fn(WorldPlacement) -> bool {
    |p: WorldPlacement| p.asset == Asset::Obstacle
}

/// The ground segments among the placements, in order.
pub open spec fn grounds_of(placements: Seq<WorldPlacement>) -> Seq<WorldPlacement> {
    placements.filter(is_ground())
}

/// The obstacles among the placements, in order.
pub open spec fn obstacles_of(placements: Seq<WorldPlacement>) -> Seq<WorldPlacement> {
    placements.filter(is_obstacle())
}

/// The ground segments of the first `c` rooms of a room row.
pub open spec fn row_grounds(layout: MapLayout, row: u16, c: int) -> Seq<WorldPlacement>
    decreases c,
{
    if c <= 0 {
        Seq::empty()
    } else {
        row_grounds(layout, row, c - 1).push(
            ground_at(layout, RoomCoordinate { col: (c - 1) as u16, row }),
        )
    }
}

/// The ground segments of the first `r` room rows: one for each room, in
/// row-major order. They depend on the layout alone.
pub open spec fn sweep_grounds(layout: MapLayout, r: int) -> Seq<WorldPlacement>
    decreases r,
{
    if r <= 0 {
        Seq::empty()
    } else {
        sweep_grounds(layout, r - 1) + row_grounds(layout, (r - 1) as u16, layout.room_cols as int)
    }
}

/// Whether no placement of a plan is turned.
pub open spec fn unturned(plan: Seq<WorldPlacement>) -> bool {
    forall|i: int| 0 <= i < plan.len() ==> (#[trigger] plan[i]).yaw == 0
}

/// Two lists that carry out one plan hold the same ground segments and as
/// many obstacles as each other, at the same positions.
pub proof fn lemma_runs_agree(
    first: Seq<WorldPlacement>,
    second: Seq<WorldPlacement>,
    plan: Seq<WorldPlacement>,
)
    requires
        follows_plan(first, plan),
        follows_plan(second, plan),
    ensures
        grounds_of(first) == grounds_of(second),
        obstacles_of(first).len() == obstacles_of(second).len(),
        forall|i: int|
            0 <= i < obstacles_of(first).len() ==> (#[trigger] obstacles_of(first)[i]).position
                == obstacles_of(second)[i].position,
    decreases plan.len(),
{
    reveal(Seq::filter);
    if plan.len() > 0 {
        let n = plan.len() - 1;
        assert(first[n].asset == plan[n].asset);
        assert(second[n].asset == plan[n].asset);
        assert(first[n].position == plan[n].position);
        assert(second[n].position == plan[n].position);
        assert(follows_plan(first.drop_last(), plan.drop_last())) by {
            assert forall|i: int| 0 <= i < n implies (#[trigger] first.drop_last()[i])
                == first[i] by {}
        }
        assert(follows_plan(second.drop_last(), plan.drop_last())) by {
            assert forall|i: int| 0 <= i < n implies (#[trigger] second.drop_last()[i])
                == second[i] by {}
        }
        lemma_runs_agree(first.drop_last(), second.drop_last(), plan.drop_last());
    }
}

/// The obstacles of a room are obstacles, none of them turned.
pub proof fn lemma_room_obstacles_kind(
    layout: MapLayout,
    tiles: Seq<TileRecord>,
    room: RoomCoordinate,
    k: int,
)
    ensures
        grounds_of(room_obstacles(layout, tiles, room, k)) == Seq::<WorldPlacement>::empty(),
        obstacles_of(room_obstacles(layout, tiles, room, k)) == room_obstacles(
            layout,
            tiles,
            room,
            k,
        ),
        unturned(room_obstacles(layout, tiles, room, k)),
    decreases k,
{
    reveal(Seq::filter);
    if k > 0 {
        lemma_room_obstacles_kind(layout, tiles, room, k - 1);
        let before = room_obstacles(layout, tiles, room, k - 1);
        let all = room_obstacles(layout, tiles, room, k);
        if all != before {
            assert(all.drop_last() == before);
        }
    }
}

/// A plan in which nothing is turned carries itself out.
pub proof fn lemma_unturned_plan(plan: Seq<WorldPlacement>)
    requires
        unturned(plan),
    ensures
        follows_plan(plan, plan),
{
    assert forall|i: int| 0 <= i < plan.len() implies (#[trigger] plan[i]).yaw < 0x100_0000 by {
        assert(plan[i].yaw == 0);
    }
}

/// A room of the map has one ground segment, placed first.
pub proof fn lemma_room_grounds(layout: MapLayout, tiles: Seq<TileRecord>, room: RoomCoordinate)
    ensures
        unturned(room_placements(layout, tiles, room)),
        grounds_of(room_placements(layout, tiles, room)) == if layout.contains_room(room) {
            seq![ground_at(layout, room)]
        } else {
            Seq::<WorldPlacement>::empty()
        },
{
    reveal(Seq::filter);
    lemma_room_obstacles_kind(layout, tiles, room, 176);
    let obstacles = room_obstacles(layout, tiles, room, 176);
    if layout.contains_room(room) {
        let head = seq![ground_at(layout, room)];
        Seq::filter_distributes_over_add(head, obstacles, is_ground());
        assert(head.drop_last() == Seq::<WorldPlacement>::empty());
        assert(grounds_of(head) == head);
        assert(head + Seq::<WorldPlacement>::empty() == head);
        let plan = room_placements(layout, tiles, room);
        assert forall|i: int| 0 <= i < plan.len() implies (#[trigger] plan[i]).yaw == 0 by {
            if i > 0 {
                assert(plan[i] == obstacles[i - 1]);
            }
        }
    }
}

/// The ground segments of a stretch of a room row of the map.
pub proof fn lemma_row_grounds(layout: MapLayout, tiles: Seq<TileRecord>, row: u16, c: int)
    requires
        row < layout.room_rows,
        0 <= c <= layout.room_cols,
    ensures
        unturned(row_placements(layout, tiles, row, c)),
        grounds_of(row_placements(layout, tiles, row, c)) == row_grounds(layout, row, c),
        row_grounds(layout, row, c).len() == c,
    decreases c,
{
    reveal(Seq::filter);
    if c > 0 {
        let room = RoomCoordinate { col: (c - 1) as u16, row };
        let before = row_placements(layout, tiles, row, c - 1);
        let next = room_placements(layout, tiles, room);
        lemma_row_grounds(layout, tiles, row, c - 1);
        lemma_room_grounds(layout, tiles, room);
        Seq::filter_distributes_over_add(before, next, is_ground());
        assert(row_grounds(layout, row, c - 1) + seq![ground_at(layout, room)] == row_grounds(
            layout,
            row,
            c,
        ));
        let plan = before + next;
        assert forall|i: int| 0 <= i < plan.len() implies (#[trigger] plan[i]).yaw == 0 by {
            if i < before.len() {
                assert(plan[i] == before[i]);
            } else {
                assert(plan[i] == next[i - before.len()]);
            }
        }
    }
}

/// The ground segments of the first room rows of the map: one for each
/// room.
pub proof fn lemma_sweep_grounds(layout: MapLayout, tiles: Seq<TileRecord>, r: int)
    requires
        0 <= r <= layout.room_rows,
    ensures
        unturned(sweep_placements(layout, tiles, r)),
        grounds_of(sweep_placements(layout, tiles, r)) == sweep_grounds(layout, r),
        sweep_grounds(layout, r).len() == r * layout.room_cols,
    decreases r,
{
    reveal(Seq::filter);
    if r > 0 {
        let before = sweep_placements(layout, tiles, r - 1);
        let next = row_placements(layout, tiles, (r - 1) as u16, layout.room_cols as int);
        lemma_sweep_grounds(layout, tiles, r - 1);
        lemma_row_grounds(layout, tiles, (r - 1) as u16, layout.room_cols as int);
        Seq::filter_distributes_over_add(before, next, is_ground());
        assert(r * layout.room_cols == (r - 1) * layout.room_cols + layout.room_cols)
            by (nonlinear_arith);
        let plan = before + next;
        assert forall|i: int| 0 <= i < plan.len() implies (#[trigger] plan[i]).yaw == 0 by {
            if i < before.len() {
                assert(plan[i] == before[i]);
            } else {
                assert(plan[i] == next[i - before.len()]);
            }
        }
    } else {
        assert(r * layout.room_cols == 0) by (nonlinear_arith)
            requires
                r == 0,
        ;
    }
}

/// Sweeping a map twice gives the same ground segments, one for each room
/// and in the same order, and the same number of obstacles at the same
/// positions. Only the yaws of the obstacles may differ from run to run.
pub proof fn lemma_sweep_repeatable(
    layout: MapLayout,
    tiles: Seq<TileRecord>,
    first: Seq<WorldPlacement>,
    second: Seq<WorldPlacement>,
)
    requires
        follows_plan(first, sweep_placements(layout, tiles, layout.room_rows as int)),
        follows_plan(second, sweep_placements(layout, tiles, layout.room_rows as int)),
    ensures
        grounds_of(first) == grounds_of(second),
        grounds_of(first) == sweep_grounds(layout, layout.room_rows as int),
        grounds_of(first).len() == layout.room_count(),
        obstacles_of(first).len() == obstacles_of(second).len(),
        forall|i: int|
            0 <= i < obstacles_of(first).len() ==> (#[trigger] obstacles_of(first)[i]).position
                == obstacles_of(second)[i].position,
        first.len() == second.len(),
{
    let plan = sweep_placements(layout, tiles, layout.room_rows as int);
    lemma_sweep_grounds(layout, tiles, layout.room_rows as int);
    lemma_unturned_plan(plan);
    lemma_runs_agree(first, second, plan);
    lemma_runs_agree(first, plan, plan);
}

/// The ordinal of a tile in the row-major order of its room's tiles.
pub open spec fn ordinal_of(tile: TileCoordinate) -> int {
    tile.row * 16 + tile.col
}

/// Whether a report tells of a cell of the map that a sequence of `held`
/// tiles does not hold, with the flat index of that cell.
pub open spec fn reports_tail(layout: MapLayout, held: int, report: SkippedCell) -> bool {
    &&& layout.contains(report.room, report.tile)
    &&& report.index == index_of(layout, report.room, report.tile)
    &&& held <= report.index < layout.tile_count()
}

/// A member of one of two sequences is a member of the two joined.
pub proof fn lemma_contains_joined<A>(a: Seq<A>, b: Seq<A>, x: A)
    requires
        a.contains(x) || b.contains(x),
    ensures
        (a + b).contains(x),
{
    if a.contains(x) {
        let i = choose|i: int| 0 <= i < a.len() && a[i] == x;
        assert((a + b)[i] == x);
    } else {
        let i = choose|i: int| 0 <= i < b.len() && b[i] == x;
        assert((a + b)[a.len() + i] == x);
    }
}

/// The flat indices picked among the first `k` tiles of a room, in
/// row-major order.
pub open spec fn room_picks(
    layout: MapLayout,
    pick: spec_fn(int) -> bool,
    room: RoomCoordinate,
    k: int,
) -> Seq<int>
    decreases k,
{
    if k <= 0 {
        Seq::empty()
    } else {
        let before = room_picks(layout, pick, room, k - 1);
        let index = index_of(layout, room, tile_at_ordinal(k - 1));
        if pick(index) {
            before.push(index)
        } else {
            before
        }
    }
}

/// The flat indices picked among the first `c` rooms of a room row.
pub open spec fn row_picks(layout: MapLayout, pick: spec_fn(int) -> bool, row: u16, c: int) -> Seq<
    int,
>
    decreases c,
{
    if c <= 0 {
        Seq::empty()
    } else {
        row_picks(layout, pick, row, c - 1) + room_picks(
            layout,
            pick,
            RoomCoordinate { col: (c - 1) as u16, row },
            176,
        )
    }
}

/// The flat indices picked among the first `r` room rows, in the order in
/// which the sweep comes to their tiles.
pub open spec fn sweep_picks(layout: MapLayout, pick: spec_fn(int) -> bool, r: int) -> Seq<int>
    decreases r,
{
    if r <= 0 {
        Seq::empty()
    } else {
        sweep_picks(layout, pick, r - 1) + row_picks(
            layout,
            pick,
            (r - 1) as u16,
            layout.room_cols as int,
        )
    }
}

/// The picks of a stretch of a room of the map: each is the picked index
/// of a tile of that stretch, each such index is among them, and none comes
/// twice.
pub proof fn lemma_room_picks(
    layout: MapLayout,
    pick: spec_fn(int) -> bool,
    room: RoomCoordinate,
    k: int,
)
    requires
        layout.contains_room(room),
        0 <= k <= 176,
    ensures
        forall|j: int|
            0 <= j < room_picks(layout, pick, room, k).len() ==> {
                let index = #[trigger] room_picks(layout, pick, room, k)[j];
                &&& pick(index)
                &&& 0 <= index < layout.tile_count()
                &&& cell_at(layout, index).0 == room
                &&& ordinal_of(cell_at(layout, index).1) < k
            },
        forall|tile: TileCoordinate|
            tile.in_room() && ordinal_of(tile) < k && pick(index_of(layout, room, tile))
                ==> room_picks(layout, pick, room, k).contains(
                #[trigger] index_of(layout, room, tile),
            ),
        room_picks(layout, pick, room, k).no_duplicates(),
    decreases k,
{
    if k > 0 {
        lemma_room_picks(layout, pick, room, k - 1);
        let before = room_picks(layout, pick, room, k - 1);
        let all = room_picks(layout, pick, room, k);
        let last = tile_at_ordinal(k - 1);
        let index = index_of(layout, room, last);
        assert(last.in_room() && ordinal_of(last) == k - 1);
        lemma_index_in_range(layout, room, last);
        lemma_index_round_trip(layout, room, last);
        if !pick(index) {
            assert(all == before);
            assert forall|tile: TileCoordinate|
                tile.in_room() && ordinal_of(tile) < k && pick(
                    index_of(layout, room, tile),
                ) implies all.contains(#[trigger] index_of(layout, room, tile)) by {
                assert(tile != last);
                assert(ordinal_of(tile) < k - 1);
            }
        } else {
            assert(all == before.push(index));
            assert forall|j: int| 0 <= j < all.len() implies {
                let i = #[trigger] all[j];
                &&& pick(i)
                &&& 0 <= i < layout.tile_count()
                &&& cell_at(layout, i).0 == room
                &&& ordinal_of(cell_at(layout, i).1) < k
            } by {
                if j < before.len() {
                    assert(all[j] == before[j]);
                }
            }
            assert forall|tile: TileCoordinate|
                tile.in_room() && ordinal_of(tile) < k && pick(
                    index_of(layout, room, tile),
                ) implies all.contains(#[trigger] index_of(layout, room, tile)) by {
                if ordinal_of(tile) == k - 1 {
                    assert(tile == last);
                    assert(all[before.len() as int] == index);
                } else {
                    let i = choose|i: int|
                        0 <= i < before.len() && before[i] == index_of(layout, room, tile);
                    assert(all[i] == before[i]);
                }
            }
            assert forall|i: int, j: int|
                0 <= i < all.len() && 0 <= j < all.len() && i != j implies all[i] != all[j] by {
                if i < before.len() {
                    assert(all[i] == before[i]);
                }
                if j < before.len() {
                    assert(all[j] == before[j]);
                }
            }
        }
    }
}

/// The picks of a stretch of a room row of the map.
pub proof fn lemma_row_picks(layout: MapLayout, pick: spec_fn(int) -> bool, row: u16, c: int)
    requires
        row < layout.room_rows,
        0 <= c <= layout.room_cols,
    ensures
        forall|j: int|
            0 <= j < row_picks(layout, pick, row, c).len() ==> {
                let index = #[trigger] row_picks(layout, pick, row, c)[j];
                &&& pick(index)
                &&& 0 <= index < layout.tile_count()
                &&& cell_at(layout, index).0.row == row
                &&& cell_at(layout, index).0.col < c
            },
        forall|room: RoomCoordinate, tile: TileCoordinate|
            room.row == row && room.col < c && tile.in_room() && pick(
                index_of(layout, room, tile),
            ) ==> row_picks(layout, pick, row, c).contains(#[trigger] index_of(layout, room, tile)),
        row_picks(layout, pick, row, c).no_duplicates(),
    decreases c,
{
    if c > 0 {
        let here = RoomCoordinate { col: (c - 1) as u16, row };
        lemma_row_picks(layout, pick, row, c - 1);
        lemma_room_picks(layout, pick, here, 176);
        let before = row_picks(layout, pick, row, c - 1);
        let next = room_picks(layout, pick, here, 176);
        let all = row_picks(layout, pick, row, c);
        assert(all == before + next);
        assert forall|j: int| 0 <= j < all.len() implies {
            let i = #[trigger] all[j];
            &&& pick(i)
            &&& 0 <= i < layout.tile_count()
            &&& cell_at(layout, i).0.row == row
            &&& cell_at(layout, i).0.col < c
        } by {
            if j < before.len() {
                assert(all[j] == before[j]);
            } else {
                assert(all[j] == next[j - before.len()]);
            }
        }
        assert forall|room: RoomCoordinate, tile: TileCoordinate|
            room.row == row && room.col < c && tile.in_room() && pick(
                index_of(layout, room, tile),
            ) implies all.contains(#[trigger] index_of(layout, room, tile)) by {
            if room.col == c - 1 {
                assert(room == here);
                assert(ordinal_of(tile) < 176);
            }
            lemma_contains_joined(before, next, index_of(layout, room, tile));
        }
        assert forall|i: int, j: int|
            0 <= i < before.len() && 0 <= j < next.len() implies before[i] != next[j] by {
            assert(cell_at(layout, before[i]).0.col < c - 1);
            assert(cell_at(layout, next[j]).0 == here);
        }
        lemma_no_dup_in_concat(before, next);
    }
}

/// The picks of the first room rows of the map.
pub proof fn lemma_sweep_picks(layout: MapLayout, pick: spec_fn(int) -> bool, r: int)
    requires
        0 <= r <= layout.room_rows,
    ensures
        forall|j: int|
            0 <= j < sweep_picks(layout, pick, r).len() ==> {
                let index = #[trigger] sweep_picks(layout, pick, r)[j];
                &&& pick(index)
                &&& 0 <= index < layout.tile_count()
                &&& cell_at(layout, index).0.row < r
            },
        forall|room: RoomCoordinate, tile: TileCoordinate|
            layout.contains(room, tile) && room.row < r && pick(index_of(layout, room, tile))
                ==> sweep_picks(layout, pick, r).contains(#[trigger] index_of(layout, room, tile)),
        sweep_picks(layout, pick, r).no_duplicates(),
    decreases r,
{
    if r > 0 {
        let row = (r - 1) as u16;
        lemma_sweep_picks(layout, pick, r - 1);
        lemma_row_picks(layout, pick, row, layout.room_cols as int);
        let before = sweep_picks(layout, pick, r - 1);
        let next = row_picks(layout, pick, row, layout.room_cols as int);
        let all = sweep_picks(layout, pick, r);
        assert(all == before + next);
        assert forall|j: int| 0 <= j < all.len() implies {
            let i = #[trigger] all[j];
            &&& pick(i)
            &&& 0 <= i < layout.tile_count()
            &&& cell_at(layout, i).0.row < r
        } by {
            if j < before.len() {
                assert(all[j] == before[j]);
            } else {
                assert(all[j] == next[j - before.len()]);
            }
        }
        assert forall|room: RoomCoordinate, tile: TileCoordinate|
            layout.contains(room, tile) && room.row < r && pick(
                index_of(layout, room, tile),
            ) implies all.contains(#[trigger] index_of(layout, room, tile)) by {
            lemma_contains_joined(before, next, index_of(layout, room, tile));
        }
        assert forall|i: int, j: int|
            0 <= i < before.len() && 0 <= j < next.len() implies before[i] != next[j] by {
            assert(cell_at(layout, before[i]).0.row < r - 1);
            assert(cell_at(layout, next[j]).0.row == row);
        }
        lemma_no_dup_in_concat(before, next);
    }
}

/// The sweep comes to every tile of the map exactly once: the picks of a
/// whole sweep are the picked indices of the map, each once.
pub proof fn lemma_sweep_picks_each_once(layout: MapLayout, pick: spec_fn(int) -> bool)
    ensures
        sweep_picks(layout, pick, layout.room_rows as int).no_duplicates(),
        sweep_picks(layout, pick, layout.room_rows as int).to_set() == Set::new(
            |i: int| 0 <= i < layout.tile_count() && pick(i),
        ),
{
    let picks = sweep_picks(layout, pick, layout.room_rows as int);
    let wanted = Set::new(|i: int| 0 <= i < layout.tile_count() && pick(i));
    lemma_sweep_picks(layout, pick, layout.room_rows as int);
    assert forall|i: int| wanted.contains(i) implies picks.to_set().contains(i) by {
        lemma_cell_at_bounds(layout, i);
        lemma_locate_round_trip(layout, i);
        let cell = cell_at(layout, i);
        assert(picks.contains(index_of(layout, cell.0, cell.1)));
    }
    assert forall|i: int| picks.to_set().contains(i) implies wanted.contains(i) by {
        let j = choose|j: int| 0 <= j < picks.len() && picks[j] == i;
        assert(pick(picks[j]));
    }
    assert(picks.to_set() =~= wanted);
}

/// The test for the index of a blocked tile of a tile sequence.
pub open spec fn blocked_index(tiles: Seq<TileRecord>) -> spec_fn(int) -> bool {
    |i: int| 0 <= i < tiles.len() && tiles[i].blocked
}

/// The number of blocked tiles among the first `m` of a tile sequence.
pub open spec fn blocked_count(tiles: Seq<TileRecord>, m: int) -> int
    decreases m,
{
    if m <= 0 {
        0
    } else {
        blocked_count(tiles, m - 1) + if tiles[m - 1].blocked {
            1int
        } else {
            0int
        }
    }
}

/// The number of tiles that a map and a tile sequence share.
pub open spec fn shared_tiles(layout: MapLayout, tiles: Seq<TileRecord>) -> int {
    if tiles.len() <= layout.tile_count() {
        tiles.len() as int
    } else {
        layout.tile_count()
    }
}

/// The indices of the blocked tiles among the first `m` are as many as the
/// count says.
pub proof fn lemma_blocked_set_size(tiles: Seq<TileRecord>, m: int)
    requires
        0 <= m <= tiles.len(),
    ensures
        Set::new(|i: int| 0 <= i < m && blocked_index(tiles)(i)).finite(),
        Set::new(|i: int| 0 <= i < m && blocked_index(tiles)(i)).len() == blocked_count(tiles, m),
    decreases m,
{
    let all = Set::new(|i: int| 0 <= i < m && blocked_index(tiles)(i));
    if m == 0 {
        assert(all =~= Set::<int>::empty());
    } else {
        let before = Set::new(|i: int| 0 <= i < m - 1 && blocked_index(tiles)(i));
        lemma_blocked_set_size(tiles, m - 1);
        if tiles[m - 1].blocked {
            assert(all =~= before.insert(m - 1));
        } else {
            assert(all =~= before);
        }
    }
}

/// The obstacle that the sweep plans for the tile with a flat index.
pub open spec fn obstacle_of_index(layout: MapLayout) -> spec_fn(int) -> WorldPlacement {
    |i: int| obstacle_at(layout, cell_at(layout, i).0, cell_at(layout, i).1, 0)
}

/// The obstacles of a stretch of a room of the map are those of its picked
/// blocked tiles, in the same order.
pub proof fn lemma_room_obstacles_picked(
    layout: MapLayout,
    tiles: Seq<TileRecord>,
    room: RoomCoordinate,
    k: int,
)
    requires
        layout.contains_room(room),
        0 <= k <= 176,
    ensures
        room_obstacles(layout, tiles, room, k) == room_picks(
            layout,
            blocked_index(tiles),
            room,
            k,
        ).map_values(obstacle_of_index(layout)),
    decreases k,
{
    if k > 0 {
        lemma_room_obstacles_picked(layout, tiles, room, k - 1);
        let last = tile_at_ordinal(k - 1);
        assert(last.in_room());
        lemma_index_in_range(layout, room, last);
        lemma_index_round_trip(layout, room, last);
        let index = index_of(layout, room, last);
        assert(blocked_at(layout, tiles, room, last) == blocked_index(tiles)(index));
        let before = room_picks(layout, blocked_index(tiles), room, k - 1);
        if blocked_index(tiles)(index) {
            assert(before.push(index).map_values(obstacle_of_index(layout)) == before.map_values(
                obstacle_of_index(layout),
            ).push(obstacle_at(layout, room, last, 0)));
        }
    }
}

/// The obstacles of a stretch of a room row of the map.
pub proof fn lemma_row_obstacles_picked(
    layout: MapLayout,
    tiles: Seq<TileRecord>,
    row: u16,
    c: int,
)
    requires
        row < layout.room_rows,
        0 <= c <= layout.room_cols,
    ensures
        obstacles_of(row_placements(layout, tiles, row, c)) == row_picks(
            layout,
            blocked_index(tiles),
            row,
            c,
        ).map_values(obstacle_of_index(layout)),
    decreases c,
{
    reveal(Seq::filter);
    let f = obstacle_of_index(layout);
    if c > 0 {
        let here = RoomCoordinate { col: (c - 1) as u16, row };
        lemma_row_obstacles_picked(layout, tiles, row, c - 1);
        lemma_room_obstacles_picked(layout, tiles, here, 176);
        lemma_room_obstacles_kind(layout, tiles, here, 176);
        let before = row_placements(layout, tiles, row, c - 1);
        let head = seq![ground_at(layout, here)];
        let obstacles = room_obstacles(layout, tiles, here, 176);
        Seq::filter_distributes_over_add(before, head + obstacles, is_obstacle());
        Seq::filter_distributes_over_add(head, obstacles, is_obstacle());
        assert(obstacles_of(head) == Seq::<WorldPlacement>::empty()) by {
            reveal_with_fuel(Seq::filter, 2);
            assert(head.drop_last() == Seq::<WorldPlacement>::empty());
        }
        assert(Seq::<WorldPlacement>::empty() + obstacles == obstacles);
        let picks_before = row_picks(layout, blocked_index(tiles), row, c - 1);
        let picks_next = room_picks(layout, blocked_index(tiles), here, 176);
        assert((picks_before + picks_next).map_values(f) == picks_before.map_values(f)
            + picks_next.map_values(f));
    } else {
        assert(row_picks(layout, blocked_index(tiles), row, c).map_values(f) == Seq::<
            WorldPlacement,
        >::empty());
    }
}

/// The obstacles of the first room rows of the map.
pub proof fn lemma_sweep_obstacles_picked(layout: MapLayout, tiles: Seq<TileRecord>, r: int)
    requires
        0 <= r <= layout.room_rows,
    ensures
        obstacles_of(sweep_placements(layout, tiles, r)) == sweep_picks(
            layout,
            blocked_index(tiles),
            r,
        ).map_values(obstacle_of_index(layout)),
    decreases r,
{
    reveal(Seq::filter);
    let f = obstacle_of_index(layout);
    if r > 0 {
        let row = (r - 1) as u16;
        lemma_sweep_obstacles_picked(layout, tiles, r - 1);
        lemma_row_obstacles_picked(layout, tiles, row, layout.room_cols as int);
        let before = sweep_placements(layout, tiles, r - 1);
        let next = row_placements(layout, tiles, row, layout.room_cols as int);
        Seq::filter_distributes_over_add(before, next, is_obstacle());
        let picks_before = sweep_picks(layout, blocked_index(tiles), r - 1);
        let picks_next = row_picks(layout, blocked_index(tiles), row, layout.room_cols as int);
        assert((picks_before + picks_next).map_values(f) == picks_before.map_values(f)
            + picks_next.map_values(f));
    } else {
        assert(sweep_picks(layout, blocked_index(tiles), r).map_values(f) == Seq::<
            WorldPlacement,
        >::empty());
    }
}

/// The obstacles of a sweep are the blocked tiles that the map and the
/// tile sequence share. Let `picks` be the flat indices of those tiles in
/// the order in which the sweep comes to them: every such index, each
/// once. Then whatever yaws were drawn, the obstacles of the run are as
/// many as the picks, which is as many as the shared tiles that are
/// blocked, and the obstacle with ordinal `j` stands at the centre of the
/// tile with flat index `picks[j]`.
pub proof fn lemma_obstacles_are_the_blocked(
    layout: MapLayout,
    tiles: Seq<TileRecord>,
    placements: Seq<WorldPlacement>,
)
    requires
        follows_plan(placements, sweep_placements(layout, tiles, layout.room_rows as int)),
    ensures
        obstacles_of(placements).len() == blocked_count(tiles, shared_tiles(layout, tiles)),
        obstacles_of(placements).len() == sweep_picks(
            layout,
            blocked_index(tiles),
            layout.room_rows as int,
        ).len(),
        sweep_picks(layout, blocked_index(tiles), layout.room_rows as int).no_duplicates(),
        forall|i: int|
            0 <= i < shared_tiles(layout, tiles) && tiles[i].blocked ==> #[trigger] sweep_picks(
                layout,
                blocked_index(tiles),
                layout.room_rows as int,
            ).contains(i),
        forall|j: int|
            0 <= j < obstacles_of(placements).len() ==> {
                let index = sweep_picks(layout, blocked_index(tiles), layout.room_rows as int)[j];
                &&& 0 <= index < shared_tiles(layout, tiles)
                &&& tiles[index].blocked
                &&& (#[trigger] obstacles_of(placements)[j]).position == tile_origin_of(
                    layout,
                    cell_at(layout, index).0,
                    cell_at(layout, index).1,
                )
            },
{
    let rows = layout.room_rows as int;
    let plan = sweep_placements(layout, tiles, rows);
    let pick = blocked_index(tiles);
    let picks = sweep_picks(layout, pick, rows);
    let shared = shared_tiles(layout, tiles);
    lemma_sweep_grounds(layout, tiles, rows);
    lemma_unturned_plan(plan);
    lemma_runs_agree(placements, plan, plan);
    lemma_sweep_obstacles_picked(layout, tiles, rows);
    lemma_sweep_picks(layout, pick, rows);
    lemma_sweep_picks_each_once(layout, pick);
    lemma_tile_count_fits(layout);
    lemma_blocked_set_size(tiles, shared);
    assert(Set::new(|i: int| 0 <= i < layout.tile_count() && pick(i)) =~= Set::new(
        |i: int| 0 <= i < shared && blocked_index(tiles)(i),
    ));
    picks.unique_seq_to_set();
    assert forall|i: int| 0 <= i < shared && tiles[i].blocked implies #[trigger] picks.contains(
        i,
    ) by {
        assert(picks.to_set().contains(i));
    }
    assert forall|j: int| 0 <= j < obstacles_of(placements).len() implies {
        let index = picks[j];
        &&& 0 <= index < shared
        &&& tiles[index].blocked
        &&& (#[trigger] obstacles_of(placements)[j]).position == tile_origin_of(
            layout,
            cell_at(layout, index).0,
            cell_at(layout, index).1,
        )
    } by {
        assert(pick(picks[j]));
        assert(obstacles_of(plan)[j] == obstacle_of_index(layout)(picks[j]));
    }
}

/// The test for a flat index at or past the end of `held` tiles.
pub open spec fn past_end(held: int) -> spec_fn(int) -> bool {
    |i: int| i >= held
}

/// The report of the skipped tile with a flat index.
pub open spec fn skip_of_index(layout: MapLayout) -> spec_fn(int) -> SkippedCell {
    |i: int| skip_of(layout, cell_at(layout, i).0, cell_at(layout, i).1)
}

/// The skipped tiles of a stretch of a room of the map are those of its
/// picked indices past the end, in the same order.
pub proof fn lemma_room_skips_picked(layout: MapLayout, held: int, room: RoomCoordinate, k: int)
    requires
        layout.contains_room(room),
        0 <= k <= 176,
    ensures
        room_skips(layout, held, room, k) == room_picks(layout, past_end(held), room, k).map_values(
            skip_of_index(layout),
        ),
    decreases k,
{
    if k > 0 {
        lemma_room_skips_picked(layout, held, room, k - 1);
        let last = tile_at_ordinal(k - 1);
        assert(last.in_room());
        lemma_index_round_trip(layout, room, last);
        let index = index_of(layout, room, last);
        assert(holds_tile(layout, held, room, last) == !past_end(held)(index));
        let before = room_picks(layout, past_end(held), room, k - 1);
        if past_end(held)(index) {
            assert(before.push(index).map_values(skip_of_index(layout)) == before.map_values(
                skip_of_index(layout),
            ).push(skip_of(layout, room, last)));
        }
    }
}

/// The skipped tiles of a stretch of a room row of the map.
pub proof fn lemma_row_skips_picked(layout: MapLayout, held: int, row: u16, c: int)
    requires
        row < layout.room_rows,
        0 <= c <= layout.room_cols,
    ensures
        row_skips(layout, held, row, c) == row_picks(layout, past_end(held), row, c).map_values(
            skip_of_index(layout),
        ),
    decreases c,
{
    let f = skip_of_index(layout);
    if c > 0 {
        let here = RoomCoordinate { col: (c - 1) as u16, row };
        lemma_row_skips_picked(layout, held, row, c - 1);
        lemma_room_skips_picked(layout, held, here, 176);
        let picks_before = row_picks(layout, past_end(held), row, c - 1);
        let picks_next = room_picks(layout, past_end(held), here, 176);
        assert((picks_before + picks_next).map_values(f) == picks_before.map_values(f)
            + picks_next.map_values(f));
    } else {
        assert(row_picks(layout, past_end(held), row, c).map_values(f) == Seq::<
            SkippedCell,
        >::empty());
    }
}

/// The skipped tiles of the first room rows of the map.
pub proof fn lemma_sweep_skips_picked(layout: MapLayout, held: int, r: int)
    requires
        0 <= r <= layout.room_rows,
    ensures
        sweep_skips(layout, held, r) == sweep_picks(layout, past_end(held), r).map_values(
            skip_of_index(layout),
        ),
    decreases r,
{
    let f = skip_of_index(layout);
    if r > 0 {
        let row = (r - 1) as u16;
        lemma_sweep_skips_picked(layout, held, r - 1);
        lemma_row_skips_picked(layout, held, row, layout.room_cols as int);
        let picks_before = sweep_picks(layout, past_end(held), r - 1);
        let picks_next = row_picks(layout, past_end(held), row, layout.room_cols as int);
        assert((picks_before + picks_next).map_values(f) == picks_before.map_values(f)
            + picks_next.map_values(f));
    } else {
        assert(sweep_picks(layout, past_end(held), r).map_values(f) == Seq::<SkippedCell>::empty());
    }
}

/// The boundary law of the sweep. Whatever the length `held` of the tile
/// sequence, the sweep skips exactly the tiles of the map whose flat index
/// lies at or past that length, the tail that the sequence does not reach:
/// every report is of such a tile, every such tile is reported, and none is
/// reported twice. So the reports number the tiles of the map less those
/// held, and a tile sequence that covers the map has none skipped.
pub proof fn lemma_skips_are_the_tail(layout: MapLayout, held: int)
    requires
        0 <= held,
    ensures
        forall|j: int|
            0 <= j < sweep_skips(layout, held, layout.room_rows as int).len() ==> reports_tail(
                layout,
                held,
                #[trigger] sweep_skips(layout, held, layout.room_rows as int)[j],
            ),
        forall|room: RoomCoordinate, tile: TileCoordinate|
            layout.contains(room, tile) && index_of(layout, room, tile) >= held ==> sweep_skips(
                layout,
                held,
                layout.room_rows as int,
            ).contains(#[trigger] skip_of(layout, room, tile)),
        sweep_skips(layout, held, layout.room_rows as int).no_duplicates(),
        sweep_skips(layout, held, layout.room_rows as int).len() == if held
            <= layout.tile_count() {
            layout.tile_count() - held
        } else {
            0
        },
{
    let rows = layout.room_rows as int;
    let skips = sweep_skips(layout, held, rows);
    let pick = past_end(held);
    let picks = sweep_picks(layout, pick, rows);
    let count = layout.tile_count();
    lemma_sweep_skips_picked(layout, held, rows);
    lemma_sweep_picks(layout, pick, rows);
    lemma_sweep_picks_each_once(layout, pick);
    lemma_tile_count_fits(layout);
    assert forall|j: int| 0 <= j < skips.len() implies reports_tail(
        layout,
        held,
        #[trigger] skips[j],
    ) && skips[j].index == picks[j] by {
        assert(pick(picks[j]));
        lemma_cell_at_bounds(layout, picks[j]);
        lemma_locate_round_trip(layout, picks[j]);
    }
    assert forall|room: RoomCoordinate, tile: TileCoordinate|
        layout.contains(room, tile) && index_of(layout, room, tile) >= held implies skips.contains(
        #[trigger] skip_of(layout, room, tile),
    ) by {
        let index = index_of(layout, room, tile);
        assert(pick(index));
        assert(picks.contains(index));
        let j = choose|j: int| 0 <= j < picks.len() && picks[j] == index;
        lemma_index_round_trip(layout, room, tile);
        assert(skips[j] == skip_of(layout, room, tile));
    }
    assert forall|i: int, j: int|
        0 <= i < skips.len() && 0 <= j < skips.len() && i != j implies skips[i] != skips[j] by {
        assert(skips[i].index == picks[i]);
        assert(skips[j].index == picks[j]);
    }
    let low = if held <= count {
        held
    } else {
        count
    };
    assert(picks.to_set() =~= set_int_range(low, count));
    picks.unique_seq_to_set();
    lemma_int_range(low, count);
}

} // verus!
