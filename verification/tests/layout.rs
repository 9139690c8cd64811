use fpz7d::layout::{
    MapLayout, RoomCoordinate, TileCoordinate, WorldPoint, HALF_DEPTH_OFFSET,
    OVERWORLD_ROOM_COLS, OVERWORLD_ROOM_ROWS, TILES_PER_ROOM, TILE_COLS_PER_ROOM,
    TILE_ROWS_PER_ROOM,
};
use fpz7d::parser::{load_overworld, MaskPolicy};

fn room(col: u16, row: u16) -> RoomCoordinate {
    RoomCoordinate { col, row }
}

fn tile(col: u16, row: u16) -> TileCoordinate {
    TileCoordinate { col, row }
}

#[test]
fn overworld_dimensions() {
    let layout = MapLayout::overworld();
    assert_eq!(layout, MapLayout { room_cols: 16, room_rows: 8 });
    assert_eq!(layout.tiles(), 256 * 88);
    assert_eq!(OVERWORLD_ROOM_COLS, 16);
    assert_eq!(OVERWORLD_ROOM_ROWS, 8);
    assert_eq!(TILE_COLS_PER_ROOM, 16);
    assert_eq!(TILE_ROWS_PER_ROOM, 11);
    assert_eq!(TILES_PER_ROOM, 176);
    assert_eq!(HALF_DEPTH_OFFSET, 10);
    assert_eq!(MapLayout { room_cols: 1, room_rows: 1 }.tiles(), 176);
    assert_eq!(MapLayout { room_cols: 0, room_rows: 5 }.tiles(), 0);
    assert_eq!(
        MapLayout { room_cols: u16::MAX, room_rows: u16::MAX }.tiles(),
        65535u64 * 16 * 65535 * 11
    );
}

#[test]
fn flat_index_formula() {
    let layout = MapLayout::overworld();
    assert_eq!(layout.flat_index(room(0, 0), tile(0, 0)), 0);
    assert_eq!(layout.flat_index(room(0, 0), tile(15, 0)), 15);
    assert_eq!(layout.flat_index(room(1, 0), tile(0, 0)), 16);
    assert_eq!(layout.flat_index(room(0, 0), tile(0, 1)), 256);
    assert_eq!(layout.flat_index(room(0, 1), tile(0, 0)), 11 * 256);
    assert_eq!(layout.flat_index(room(3, 2), tile(5, 7)), (2 * 11 + 7) * 256 + 3 * 16 + 5);
    assert_eq!(layout.flat_index(room(15, 7), tile(15, 10)), 256 * 88 - 1);
    let single = MapLayout { room_cols: 1, room_rows: 1 };
    assert_eq!(single.flat_index(room(0, 0), tile(4, 3)), 3 * 16 + 4);
    assert_eq!(single.flat_index(room(0, 0), tile(15, 10)), 175);
}

#[test]
fn flat_index_of_any_coordinates_does_not_fault() {
    let layout = MapLayout::overworld();
    assert_eq!(layout.flat_index(room(20, 0), tile(0, 0)), 320);
    let wide = MapLayout { room_cols: u16::MAX, room_rows: u16::MAX };
    let far = wide.flat_index(room(u16::MAX, u16::MAX), tile(u16::MAX, u16::MAX));
    assert_eq!(far, (65535u64 * 11 + 65535) * (65535 * 16) + 65535 * 16 + 65535);
}

#[test]
fn room_outside_the_grid_has_no_tile_index() {
    let layout = MapLayout::overworld();
    assert_eq!(layout.tile_index(room(20, 0), tile(0, 0)), None);
    assert_eq!(layout.tile_index(room(16, 0), tile(0, 0)), None);
    assert_eq!(layout.tile_index(room(0, 8), tile(0, 0)), None);
    assert_eq!(layout.tile_index(room(0, 0), tile(16, 0)), None);
    assert_eq!(layout.tile_index(room(0, 0), tile(0, 11)), None);
    assert_eq!(layout.tile_index(room(15, 7), tile(15, 10)), Some(22527));
    assert!(!layout.holds(room(20, 0), tile(0, 0)));
    assert!(layout.holds(room(15, 7), tile(15, 10)));
}

#[test]
fn index_and_coordinates_round_trip() {
    for layout in [
        MapLayout::overworld(),
        MapLayout { room_cols: 1, room_rows: 1 },
        MapLayout { room_cols: 3, room_rows: 5 },
    ] {
        let count = layout.tiles();
        let mut seen = vec![false; count as usize];
        for room_row in 0..layout.room_rows {
            for room_col in 0..layout.room_cols {
                for tile_row in 0..11 {
                    for tile_col in 0..16 {
                        let r = room(room_col, room_row);
                        let t = tile(tile_col, tile_row);
                        let index = layout.tile_index(r, t).unwrap();
                        assert_eq!(index, layout.flat_index(r, t));
                        assert!(index < count);
                        assert!(!seen[index as usize]);
                        seen[index as usize] = true;
                        assert_eq!(layout.locate(index), Some((r, t)));
                    }
                }
            }
        }
        assert!(seen.iter().all(|s| *s));
        assert_eq!(layout.locate(count), None);
        assert_eq!(layout.locate(u64::MAX), None);
    }
    assert_eq!(MapLayout { room_cols: 0, room_rows: 3 }.locate(0), None);
    assert_eq!(MapLayout { room_cols: 3, room_rows: 0 }.locate(0), None);
}

#[test]
fn locate_examples() {
    let layout = MapLayout::overworld();
    assert_eq!(layout.locate(0), Some((room(0, 0), tile(0, 0))));
    assert_eq!(layout.locate(320), Some((room(4, 0), tile(0, 1))));
    assert_eq!(layout.locate(7477), Some((room(3, 2), tile(5, 7))));
    assert_eq!(layout.locate(22527), Some((room(15, 7), tile(15, 10))));
}

#[test]
fn room_origins() {
    let layout = MapLayout::overworld();
    assert_eq!(layout.room_origin(room(0, 0)), WorldPoint { x: -256, y: 0, z: 10 });
    assert_eq!(layout.room_origin(room(8, 0)), WorldPoint { x: 0, y: 0, z: 10 });
    assert_eq!(layout.room_origin(room(3, 2)), WorldPoint { x: -160, y: 0, z: 54 });
    assert_eq!(layout.room_origin(room(15, 7)), WorldPoint { x: 224, y: 0, z: 164 });
    let single = MapLayout { room_cols: 1, room_rows: 1 };
    assert_eq!(single.room_origin(room(0, 0)), WorldPoint { x: -16, y: 0, z: 10 });
    let wide = MapLayout { room_cols: u16::MAX, room_rows: u16::MAX };
    assert_eq!(
        wide.room_origin(room(u16::MAX, u16::MAX)),
        WorldPoint { x: 16 * 65535, y: 0, z: 22 * 65535 + 10 }
    );
}

#[test]
fn tile_origins() {
    let layout = MapLayout::overworld();
    assert_eq!(layout.tile_origin(room(0, 0), tile(0, 0)), WorldPoint { x: -271, y: 0, z: 0 });
    assert_eq!(layout.tile_origin(room(8, 0), tile(8, 0)), WorldPoint { x: 1, y: 0, z: 0 });
    assert_eq!(layout.tile_origin(room(3, 2), tile(5, 7)), WorldPoint { x: -165, y: 0, z: 58 });
    let single = MapLayout { room_cols: 1, room_rows: 1 };
    assert_eq!(single.tile_origin(room(0, 0), tile(15, 10)), WorldPoint { x: -1, y: 0, z: 20 });
}

#[test]
fn world_points_match_the_unit_formulas() {
    let layout = MapLayout::overworld();
    for room_row in 0..8u16 {
        for room_col in 0..16u16 {
            let origin = layout.room_origin(room(room_col, room_row));
            let room_x = (room_col as f32 * 16.0) - (8.0 * 16.0);
            let room_z = (room_row as f32 * 11.0) + 5.0;
            assert_eq!(origin.x as f32 / 2.0, room_x);
            assert_eq!(origin.y as f32 / 2.0, 0.0);
            assert_eq!(origin.z as f32 / 2.0, room_z);
            for tile_row in 0..11u16 {
                for tile_col in 0..16u16 {
                    let point =
                        layout.tile_origin(room(room_col, room_row), tile(tile_col, tile_row));
                    let x = ((tile_col as f32) - (16.0 / 2.0)) + room_x + 0.5;
                    let z = tile_row as f32 + room_z - 5.0;
                    assert_eq!(point.x as f32 / 2.0, x);
                    assert_eq!(point.y as f32 / 2.0, 0.0);
                    assert_eq!(point.z as f32 / 2.0, z);
                }
            }
        }
    }
}

#[test]
fn parser_fill_order_matches_the_flat_index() {
    let layout = MapLayout { room_cols: 3, room_rows: 2 };
    let code_at = |row: usize, col: usize| ((row * 7 + col * 3) % 256) as u8;
    let mut codes = String::new();
    let mut mask = String::new();
    for row in 0..22 {
        for col in 0..48 {
            if col > 0 {
                codes.push(' ');
            }
            codes.push_str(&format!("{:02x}", code_at(row, col)));
            mask.push(if (row + col) % 5 == 0 { 'X' } else { '.' });
        }
        codes.push('\n');
        mask.push('\n');
    }
    let map = load_overworld(&codes, &mask, MaskPolicy::Strict).unwrap();
    assert_eq!(map.tiles.len() as u64, layout.tiles());
    for room_row in 0..2u16 {
        for room_col in 0..3u16 {
            for tile_row in 0..11u16 {
                for tile_col in 0..16u16 {
                    let index = layout
                        .tile_index(room(room_col, room_row), tile(tile_col, tile_row))
                        .unwrap();
                    let row = room_row as usize * 11 + tile_row as usize;
                    let col = room_col as usize * 16 + tile_col as usize;
                    let record = map.tiles[index as usize];
                    assert_eq!(record.code, code_at(row, col));
                    assert_eq!(record.blocked, (row + col) % 5 == 0);
                }
            }
        }
    }
}
