//! Tile records and the classifier that gives a raw tile code its meaning.

use vstd::prelude::*;

verus! {

/// What a map cell depicts. A cell may be only a part of the object, as with
/// the big tree or the canyon walls.
#[derive(Clone, Copy, Debug, PartialEq, Eq, Structural)]
pub enum TileObjectKind {
    EmptyGround,
    /// Sandy tiles.
    RoughGround,
    Canyon,
    Rock,
    Tree,
    BigTree,
    Planks,
    Stairs,
    Statue,
    Tombstone,
    /// A tile code that no entry of the lookup table covers.
    Unknown,
}

/// The biome a map cell belongs to.
#[derive(Clone, Copy, Debug, PartialEq, Eq, Structural)]
pub enum TileBiome {
    Desert,
    Grasslands,
}

/// One cell of the map.
#[derive(Clone, Copy, Debug, PartialEq, Eq, Structural)]
pub struct TileRecord {
    /// The tile identifier as the map source gives it.
    pub code: u8,
    /// Whether a solid obstacle occupies the cell.
    pub blocked: bool,
    /// What the cell depicts.
    pub object: TileObjectKind,
    /// The biome the cell belongs to.
    pub biome: TileBiome,
}

/// The lookup table from tile codes to object kinds. Every code that the
/// table does not name is `Unknown`.
pub open spec fn kind_of_code(code: u8) -> TileObjectKind {
    if code == 0x02 || code == 0x0e {
        TileObjectKind::EmptyGround
    } else if code == 0x01 || code == 0x28 || code == 0x29 || code == 0x2a {
        TileObjectKind::Canyon
    } else {
        TileObjectKind::Unknown
    }
}

/// The biome of a tile code. The overworld map carries no biome data, so
/// every code lies in the desert.
pub open spec fn biome_of_code(code: u8) -> TileBiome {
    TileBiome::Desert
}

/// The record that a freshly read tile code stands for.
pub open spec fn record_of_code(code: u8, blocked: bool) -> TileRecord {
    TileRecord { code, blocked, object: kind_of_code(code), biome: biome_of_code(code) }
}

/// Classifies a raw tile code. The function is total: a code outside the
/// lookup table is `Unknown`, never an error.
pub fn classify(code: u8) -> (class: (TileObjectKind, TileBiome))
    ensures
        class.0 == kind_of_code(code),
        class.1 == biome_of_code(code),
        class.0 == TileObjectKind::EmptyGround <==> code == 0x02 || code == 0x0e,
        class.0 == TileObjectKind::Canyon <==> code == 0x01 || 0x28 <= code <= 0x2a,
        class.0 != TileObjectKind::EmptyGround && class.0 != TileObjectKind::Canyon
            ==> class.0 == TileObjectKind::Unknown,
        class.1 == TileBiome::Desert,
{
    let object = match code {
        0x02 | 0x0e => TileObjectKind::EmptyGround,
        0x01 | 0x28 | 0x29 | 0x2a => TileObjectKind::Canyon,
        _ => TileObjectKind::Unknown,
    };
    (object, TileBiome::Desert)
}

impl TileRecord {
    /// The record for a tile code, classified, with the given passability.
    pub fn new(code: u8, blocked: bool) -> (record: TileRecord)
        ensures
            record == record_of_code(code, blocked),
    {
        let (object, biome) = classify(code);
        TileRecord { code, blocked, object, biome }
    }

    /// Whether the record is what the classifier makes of its own code.
    pub open spec fn well_formed(self) -> bool {
        self == record_of_code(self.code, self.blocked)
    }
}

} // verus!
