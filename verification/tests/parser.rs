use fpz7d::parser::{
    apply_blocking_mask, load_overworld, parse_tile_codes, LoadError, MaskAnomaly, MaskPolicy,
};
use fpz7d::text::{chars_of, hex_digit_value, is_separator, parse_code};
use fpz7d::tile::{classify, TileBiome, TileObjectKind, TileRecord};

fn code_of(token: &str) -> Option<u8> {
    let chars: Vec<char> = token.chars().collect();
    parse_code(&chars)
}

#[test]
fn single_open_ground_tile() {
    let map = load_overworld("02", ".", MaskPolicy::Tolerant).unwrap();
    assert_eq!(
        map.tiles,
        vec![TileRecord {
            code: 2,
            blocked: false,
            object: TileObjectKind::EmptyGround,
            biome: TileBiome::Desert,
        }]
    );
    assert!(map.anomalies.is_empty());
}

#[test]
fn single_blocked_canyon_tile() {
    let map = load_overworld("01", "X", MaskPolicy::Tolerant).unwrap();
    assert_eq!(
        map.tiles,
        vec![TileRecord {
            code: 1,
            blocked: true,
            object: TileObjectKind::Canyon,
            biome: TileBiome::Desert,
        }]
    );
    assert!(map.anomalies.is_empty());
}

#[test]
fn one_record_per_token_in_source_order() {
    let codes = "02 0e 01\n28 29 2a\nff 00 7F\n";
    let mask = "X..\n.X.\n..X\n";
    let map = load_overworld(codes, mask, MaskPolicy::Strict).unwrap();
    let expected_codes: Vec<u8> = vec![0x02, 0x0e, 0x01, 0x28, 0x29, 0x2a, 0xff, 0x00, 0x7f];
    let found_codes: Vec<u8> = map.tiles.iter().map(|t| t.code).collect();
    assert_eq!(found_codes, expected_codes);
    let blocked: Vec<bool> = map.tiles.iter().map(|t| t.blocked).collect();
    assert_eq!(blocked, vec![true, false, false, false, true, false, false, false, true]);
    for tile in &map.tiles {
        assert_eq!(classify(tile.code), (tile.object, tile.biome));
    }
}

#[test]
fn classifier_is_total_and_defaults_to_unknown() {
    for code in 0..=255u8 {
        let (object, biome) = classify(code);
        let expected = match code {
            0x02 | 0x0e => TileObjectKind::EmptyGround,
            0x01 | 0x28 | 0x29 | 0x2a => TileObjectKind::Canyon,
            _ => TileObjectKind::Unknown,
        };
        assert_eq!(object, expected);
        assert_eq!(biome, TileBiome::Desert);
        assert_eq!(TileRecord::new(code, true).object, expected);
    }
}

#[test]
fn token_grammar() {
    assert_eq!(code_of("02"), Some(2));
    assert_eq!(code_of("2"), Some(2));
    assert_eq!(code_of("fF"), Some(255));
    assert_eq!(code_of("+1a"), Some(0x1a));
    assert_eq!(code_of("0000ff"), Some(255));
    assert_eq!(code_of("100"), None);
    assert_eq!(code_of("fff"), None);
    assert_eq!(code_of(""), None);
    assert_eq!(code_of("+"), None);
    assert_eq!(code_of("-1"), None);
    assert_eq!(code_of("++1"), None);
    assert_eq!(code_of("0x10"), None);
    assert_eq!(code_of("1g"), None);
    assert_eq!(code_of("1_0"), None);
}

#[test]
fn token_reader_agrees_with_std_on_short_tokens() {
    let alphabet = ['0', '9', 'a', 'F', 'g', '+', '-', 'x'];
    let mut token = String::new();
    for a in alphabet {
        for b in alphabet {
            for c in alphabet {
                token.clear();
                token.push(a);
                assert_eq!(code_of(&token), u8::from_str_radix(&token, 16).ok(), "{}", token);
                token.push(b);
                assert_eq!(code_of(&token), u8::from_str_radix(&token, 16).ok(), "{}", token);
                token.push(c);
                assert_eq!(code_of(&token), u8::from_str_radix(&token, 16).ok(), "{}", token);
            }
        }
    }
}

#[test]
fn hex_digits_agree_with_std() {
    for v in 0..0x3000u32 {
        if let Some(c) = char::from_u32(v) {
            assert_eq!(hex_digit_value(c), c.to_digit(16).map(|d| d as u8));
        }
    }
}

#[test]
fn separators_are_the_white_space_characters() {
    for v in 0..=0x10ffffu32 {
        if let Some(c) = char::from_u32(v) {
            assert_eq!(is_separator(c), c.is_whitespace(), "U+{:04X}", v);
        }
    }
}

#[test]
fn tokens_are_split_on_any_white_space() {
    let tiles = parse_tile_codes("  01\t02\r\n\n03\u{a0}04\u{3000}05  ").unwrap();
    let codes: Vec<u8> = tiles.iter().map(|t| t.code).collect();
    assert_eq!(codes, vec![1, 2, 3, 4, 5]);
    assert!(tiles.iter().all(|t| !t.blocked));
    assert_eq!(parse_tile_codes("").unwrap(), vec![]);
    assert_eq!(parse_tile_codes(" \n ").unwrap(), vec![]);
}

#[test]
fn malformed_token_is_fatal_and_located() {
    assert_eq!(parse_tile_codes("01 zz 03"), Err(LoadError::MalformedToken { index: 1 }));
    assert_eq!(parse_tile_codes("01 02 100 gg"), Err(LoadError::MalformedToken { index: 2 }));
    assert_eq!(
        load_overworld("xx", "", MaskPolicy::Strict).err(),
        Some(LoadError::MalformedToken { index: 0 })
    );
    assert_eq!(
        load_overworld("01 0g", "..", MaskPolicy::Tolerant).err(),
        Some(LoadError::MalformedToken { index: 1 })
    );
}

#[test]
fn mask_runs_across_line_ends() {
    let mut tiles = parse_tile_codes("01 01 01 01 01 01").unwrap();
    let report = apply_blocking_mask(&mut tiles, "X.\r\nX\n.\n\nXX");
    assert_eq!(report.cells, 6);
    assert!(report.anomalies.is_empty());
    let blocked: Vec<bool> = tiles.iter().map(|t| t.blocked).collect();
    assert_eq!(blocked, vec![true, false, true, false, true, true]);
}

#[test]
fn unrecognized_mask_character_leaves_tile_open_and_advances() {
    let mut tiles = parse_tile_codes("01 01 01 01").unwrap();
    for tile in tiles.iter_mut() {
        tile.blocked = true;
    }
    let report = apply_blocking_mask(&mut tiles, "X?x\rX");
    assert_eq!(report.cells, 5);
    assert_eq!(
        report.anomalies,
        vec![
            MaskAnomaly { cell: 1, found: '?' },
            MaskAnomaly { cell: 2, found: 'x' },
            MaskAnomaly { cell: 3, found: '\r' },
        ]
    );
    let blocked: Vec<bool> = tiles.iter().map(|t| t.blocked).collect();
    assert_eq!(blocked, vec![true, false, false, false]);
}

#[test]
fn short_mask_leaves_trailing_tiles_open() {
    let map = load_overworld("01 01 01 01", "XX", MaskPolicy::Tolerant).unwrap();
    let blocked: Vec<bool> = map.tiles.iter().map(|t| t.blocked).collect();
    assert_eq!(blocked, vec![true, true, false, false]);
    let mut tiles = map.tiles;
    let report = apply_blocking_mask(&mut tiles, ".");
    assert_eq!(report.cells, 1);
    let blocked: Vec<bool> = tiles.iter().map(|t| t.blocked).collect();
    assert_eq!(blocked, vec![false, true, false, false]);
}

#[test]
fn long_mask_is_ignored_past_the_end() {
    let map = load_overworld("01 02", "X.X?X", MaskPolicy::Tolerant).unwrap();
    assert_eq!(map.tiles.len(), 2);
    let blocked: Vec<bool> = map.tiles.iter().map(|t| t.blocked).collect();
    assert_eq!(blocked, vec![true, false]);
    assert!(map.anomalies.is_empty());
}

#[test]
fn strict_policy_refuses_a_length_mismatch() {
    assert_eq!(
        load_overworld("01 02", "X.X", MaskPolicy::Strict).err(),
        Some(LoadError::MaskLengthMismatch { tiles: 2, cells: 3 })
    );
    assert_eq!(
        load_overworld("01 02", "X", MaskPolicy::Strict).err(),
        Some(LoadError::MaskLengthMismatch { tiles: 2, cells: 1 })
    );
    assert!(load_overworld("01 02", "X\n.\n", MaskPolicy::Strict).is_ok());
}

#[test]
fn chars_of_keeps_every_character() {
    assert_eq!(chars_of("a\u{e9}\u{1f600}\n"), vec!['a', '\u{e9}', '\u{1f600}', '\n']);
    assert_eq!(chars_of(""), Vec::<char>::new());
}

#[test]
fn loading_reports_unrecognized_mask_characters() {
    let map = load_overworld("01 02 03", "X#.", MaskPolicy::Tolerant).unwrap();
    assert_eq!(map.anomalies, vec![MaskAnomaly { cell: 1, found: '#' }]);
    let blocked: Vec<bool> = map.tiles.iter().map(|t| t.blocked).collect();
    assert_eq!(blocked, vec![true, false, false]);
    let map = load_overworld("01 02 03", "\u{e9}X \n", MaskPolicy::Strict).unwrap();
    assert_eq!(
        map.anomalies,
        vec![MaskAnomaly { cell: 0, found: '\u{e9}' }, MaskAnomaly { cell: 2, found: ' ' }]
    );
    let blocked: Vec<bool> = map.tiles.iter().map(|t| t.blocked).collect();
    assert_eq!(blocked, vec![false, true, false]);
}

#[test]
fn malformed_token_comes_before_a_length_mismatch() {
    assert_eq!(
        load_overworld("01 q", "X.X.X", MaskPolicy::Strict).err(),
        Some(LoadError::MalformedToken { index: 1 })
    );
}

#[test]
fn empty_sources_load_as_an_empty_map() {
    let map = load_overworld("", "", MaskPolicy::Strict).unwrap();
    assert!(map.tiles.is_empty() && map.anomalies.is_empty());
    let map = load_overworld("\n", "\r\n", MaskPolicy::Strict).unwrap();
    assert!(map.tiles.is_empty() && map.anomalies.is_empty());
}
