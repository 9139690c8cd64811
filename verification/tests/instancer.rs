use fpz7d::instancer::{
    instance_cell, instance_room, map_setup, tile_at, yaw_from_word, Asset, CellOutcome,
    SkippedCell, WorldPlacement, YAW_STEPS,
};
use fpz7d::layout::{MapLayout, RoomCoordinate, TileCoordinate, WorldPoint};
use fpz7d::parser::{load_overworld, MaskPolicy};
use fpz7d::tile::TileRecord;

fn room(col: u16, row: u16) -> RoomCoordinate {
    RoomCoordinate { col, row }
}

fn tile(col: u16, row: u16) -> TileCoordinate {
    TileCoordinate { col, row }
}

fn single_room() -> MapLayout {
    MapLayout { room_cols: 1, room_rows: 1 }
}

fn room_tiles(blocked: &[(u16, u16)]) -> Vec<TileRecord> {
    let mut codes = String::new();
    let mut mask = String::new();
    for row in 0..11u16 {
        for col in 0..16u16 {
            codes.push_str("02 ");
            mask.push(if blocked.contains(&(col, row)) { 'X' } else { '.' });
        }
        codes.push('\n');
        mask.push('\n');
    }
    load_overworld(&codes, &mask, MaskPolicy::Strict).unwrap().tiles
}

fn grounds(placements: &[WorldPlacement]) -> Vec<WorldPlacement> {
    placements.iter().copied().filter(|p| p.asset == Asset::Ground).collect()
}

fn obstacles(placements: &[WorldPlacement]) -> Vec<WorldPlacement> {
    placements.iter().copied().filter(|p| p.asset == Asset::Obstacle).collect()
}

#[test]
fn open_room_gets_one_ground_and_no_obstacle() {
    let tiles = room_tiles(&[]);
    assert_eq!(tiles.len(), 176);
    let out = map_setup(&single_room(), &tiles);
    assert_eq!(
        out.placements,
        vec![WorldPlacement {
            asset: Asset::Ground,
            position: WorldPoint { x: -16, y: 0, z: 10 },
            yaw: 0,
        }]
    );
    assert!(out.skipped.is_empty());
}

#[test]
fn five_blocked_tiles_get_five_obstacles_at_their_centres() {
    let blocked = [(0, 0), (15, 0), (7, 3), (8, 3), (15, 10)];
    let tiles = room_tiles(&blocked);
    let layout = single_room();
    let out = map_setup(&layout, &tiles);
    assert_eq!(grounds(&out.placements).len(), 1);
    assert_eq!(out.placements[0].asset, Asset::Ground);
    let found = obstacles(&out.placements);
    assert_eq!(found.len(), 5);
    let positions: Vec<WorldPoint> = found.iter().map(|p| p.position).collect();
    assert_eq!(
        positions,
        vec![
            WorldPoint { x: -31, y: 0, z: 0 },
            WorldPoint { x: -1, y: 0, z: 0 },
            WorldPoint { x: -17, y: 0, z: 6 },
            WorldPoint { x: -15, y: 0, z: 6 },
            WorldPoint { x: -1, y: 0, z: 20 },
        ]
    );
    for (placement, (col, row)) in found.iter().zip(blocked) {
        assert_eq!(placement.position, layout.tile_origin(room(0, 0), tile(col, row)));
        assert!(placement.yaw < YAW_STEPS);
    }
    assert!(out.skipped.is_empty());
}

#[test]
fn room_outside_the_grid_is_skipped_without_placement() {
    let layout = MapLayout::overworld();
    let tiles = vec![TileRecord::new(1, true); 256 * 88];
    let outcome = instance_cell(&layout, &tiles, room(20, 0), tile(0, 0), 0);
    assert_eq!(
        outcome,
        CellOutcome::Skipped(SkippedCell { room: room(20, 0), tile: tile(0, 0), index: 320 })
    );
    let out = instance_room(&layout, &tiles, room(20, 0));
    assert!(out.placements.is_empty());
    assert_eq!(out.skipped.len(), 176);
    assert_eq!(out.skipped[0], SkippedCell { room: room(20, 0), tile: tile(0, 0), index: 320 });
    assert_eq!(
        out.skipped[175],
        SkippedCell { room: room(20, 0), tile: tile(15, 10), index: 10 * 256 + 320 + 15 }
    );
    let short = room_tiles(&[(0, 0)]);
    let out = instance_room(&layout, &short, room(20, 0));
    assert!(out.placements.is_empty());
    assert_eq!(out.skipped.len(), 176);
}

#[test]
fn cell_outcomes() {
    let layout = single_room();
    let tiles = room_tiles(&[(2, 1)]);
    assert_eq!(instance_cell(&layout, &tiles, room(0, 0), tile(0, 0), 7), CellOutcome::Open);
    assert_eq!(
        instance_cell(&layout, &tiles, room(0, 0), tile(2, 1), 0x1234_56ff),
        CellOutcome::Obstacle(WorldPlacement {
            asset: Asset::Obstacle,
            position: WorldPoint { x: -27, y: 0, z: 2 },
            yaw: 0x12_3456,
        })
    );
    assert_eq!(
        instance_cell(&layout, &tiles[..18], room(0, 0), tile(2, 1), 9),
        CellOutcome::Skipped(SkippedCell { room: room(0, 0), tile: tile(2, 1), index: 18 })
    );
    assert_eq!(
        instance_cell(&layout, &tiles, room(0, 0), tile(16, 0), 9),
        CellOutcome::Skipped(SkippedCell { room: room(0, 0), tile: tile(16, 0), index: 16 })
    );
    assert_eq!(
        instance_cell(&layout, &[], room(0, 0), tile(0, 0), 9),
        CellOutcome::Skipped(SkippedCell { room: room(0, 0), tile: tile(0, 0), index: 0 })
    );
}

#[test]
fn yaw_is_the_upper_24_bits_of_the_word() {
    assert_eq!(YAW_STEPS, 1 << 24);
    assert_eq!(yaw_from_word(0), 0);
    assert_eq!(yaw_from_word(255), 0);
    assert_eq!(yaw_from_word(256), 1);
    assert_eq!(yaw_from_word(0x8000_0000), YAW_STEPS / 2);
    assert_eq!(yaw_from_word(u32::MAX), YAW_STEPS - 1);
}

#[test]
fn yaw_in_radians_stays_below_a_full_turn() {
    let full_turn = std::f32::consts::PI * 2.0;
    for word in [0u32, 1, 255, 256, 0x7fff_ffff, 0x8000_0000, u32::MAX] {
        let yaw = yaw_from_word(word);
        let unit = yaw as f32 * (1.0 / YAW_STEPS as f32);
        assert!((0.0..1.0).contains(&unit));
        let radians = unit * full_turn;
        assert!(radians >= 0.0 && radians < full_turn);
    }
}

#[test]
fn short_tile_sequence_skips_only_the_tail() {
    let layout = MapLayout::overworld();
    for held in [0usize, 1, 176, 1000, 22527, 22528, 30000] {
        let tiles = vec![TileRecord::new(2, false); held];
        let out = map_setup(&layout, &tiles);
        assert_eq!(out.placements.len(), 128);
        let expected = (256 * 88usize).saturating_sub(held);
        assert_eq!(out.skipped.len(), expected);
        let mut seen = vec![false; 256 * 88];
        for cell in &out.skipped {
            assert!(cell.index >= held as u64);
            assert!(cell.index < 256 * 88);
            assert_eq!(layout.tile_index(cell.room, cell.tile), Some(cell.index));
            assert!(!seen[cell.index as usize]);
            seen[cell.index as usize] = true;
        }
    }
}

#[test]
fn skipped_cells_come_in_sweep_order() {
    let layout = MapLayout { room_cols: 2, room_rows: 1 };
    let tiles = vec![TileRecord::new(2, false); 32 * 10 + 4];
    let out = map_setup(&layout, &tiles);
    let expected: Vec<SkippedCell> = (4..16)
        .map(|col| SkippedCell { room: room(0, 0), tile: tile(col, 10), index: 320 + col as u64 })
        .chain((0..16).map(|col| SkippedCell {
            room: room(1, 0),
            tile: tile(col, 10),
            index: 336 + col as u64,
        }))
        .collect();
    assert_eq!(out.skipped, expected);
}

#[test]
fn sweep_is_room_major_with_ground_first() {
    let layout = MapLayout { room_cols: 2, room_rows: 2 };
    let mut tiles = vec![TileRecord::new(2, false); 32 * 22];
    let blocked = [
        (room(0, 0), tile(3, 0)),
        (room(0, 0), tile(1, 2)),
        (room(1, 0), tile(0, 0)),
        (room(0, 1), tile(15, 10)),
        (room(1, 1), tile(0, 5)),
        (room(1, 1), tile(9, 5)),
    ];
    for (r, t) in blocked {
        let index = layout.tile_index(r, t).unwrap() as usize;
        tiles[index].blocked = true;
    }
    let out = map_setup(&layout, &tiles);
    let mut expected: Vec<(Asset, WorldPoint)> = Vec::new();
    for r in [room(0, 0), room(1, 0), room(0, 1), room(1, 1)] {
        expected.push((Asset::Ground, layout.room_origin(r)));
        for (br, bt) in blocked {
            if br == r {
                expected.push((Asset::Obstacle, layout.tile_origin(br, bt)));
            }
        }
    }
    let found: Vec<(Asset, WorldPoint)> =
        out.placements.iter().map(|p| (p.asset, p.position)).collect();
    assert_eq!(found, expected);
    assert!(out.skipped.is_empty());
    for placement in &out.placements {
        assert!(placement.yaw < YAW_STEPS);
        if placement.asset == Asset::Ground {
            assert_eq!(placement.yaw, 0);
        }
    }
}

#[test]
fn two_sweeps_agree_but_for_the_yaws() {
    let layout = MapLayout::overworld();
    let tiles: Vec<TileRecord> =
        (0..256 * 88).map(|i| TileRecord::new(1, i % 3 == 0)).collect();
    let first = map_setup(&layout, &tiles);
    let second = map_setup(&layout, &tiles);
    assert_eq!(grounds(&first.placements), grounds(&second.placements));
    assert_eq!(grounds(&first.placements).len(), 128);
    let a = obstacles(&first.placements);
    let b = obstacles(&second.placements);
    assert_eq!(a.len(), b.len());
    assert_eq!(a.len(), tiles.iter().filter(|t| t.blocked).count());
    let positions = |list: &[WorldPlacement]| -> Vec<WorldPoint> {
        list.iter().map(|p| p.position).collect()
    };
    assert_eq!(positions(&a), positions(&b));
    assert_eq!(first.skipped, second.skipped);
    let yaws = |list: &[WorldPlacement]| -> Vec<u32> { list.iter().map(|p| p.yaw).collect() };
    assert_ne!(yaws(&a), yaws(&b));
    assert!(a.iter().any(|p| p.yaw != a[0].yaw));
}

#[test]
fn grounds_lie_at_the_room_origins() {
    let layout = MapLayout::overworld();
    let out = map_setup(&layout, &[]);
    let found = grounds(&out.placements);
    assert_eq!(found.len(), out.placements.len());
    let mut n = 0;
    for row in 0..8u16 {
        for col in 0..16u16 {
            assert_eq!(
                found[n],
                WorldPlacement {
                    asset: Asset::Ground,
                    position: layout.room_origin(room(col, row)),
                    yaw: 0,
                }
            );
            n += 1;
        }
    }
    assert_eq!(out.skipped.len(), 256 * 88);
}

#[test]
fn empty_layout_lists_nothing() {
    let tiles = vec![TileRecord::new(1, true); 10];
    let out = map_setup(&MapLayout { room_cols: 0, room_rows: 4 }, &tiles);
    assert!(out.placements.is_empty() && out.skipped.is_empty());
    let out = map_setup(&MapLayout { room_cols: 4, room_rows: 0 }, &tiles);
    assert!(out.placements.is_empty() && out.skipped.is_empty());
}

#[test]
fn asset_scene_paths() {
    assert_eq!(Asset::Ground.scene_path(), "Ground.glb#Scene0");
    assert_eq!(Asset::Obstacle.scene_path(), "CanyonChunk.glb#Scene0");
}

#[test]
fn tile_lookup() {
    let layout = MapLayout { room_cols: 2, room_rows: 1 };
    let tiles: Vec<TileRecord> =
        (0..352).map(|i| TileRecord::new((i % 256) as u8, i % 2 == 1)).collect();
    assert_eq!(tile_at(&layout, &tiles, room(0, 0), tile(0, 0)), Some(TileRecord::new(0, false)));
    assert_eq!(tile_at(&layout, &tiles, room(1, 0), tile(1, 0)), Some(TileRecord::new(17, true)));
    assert_eq!(
        tile_at(&layout, &tiles, room(1, 0), tile(15, 10)),
        Some(TileRecord::new((351 % 256) as u8, true))
    );
    assert_eq!(tile_at(&layout, &tiles, room(2, 0), tile(0, 0)), None);
    assert_eq!(tile_at(&layout, &tiles, room(0, 1), tile(0, 0)), None);
    assert_eq!(tile_at(&layout, &tiles, room(0, 0), tile(0, 11)), None);
    assert_eq!(tile_at(&layout, &tiles[..100], room(0, 0), tile(4, 3)), None);
    assert_eq!(tile_at(&layout, &tiles[..101], room(0, 0), tile(4, 3)), Some(tiles[100]));
}
