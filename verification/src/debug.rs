use vstd::prelude::*;

use crate::nominos::Nomino;

verus! {

/// Settings of the debug menu.
pub struct DebugOptions {
    /// Pieces can be moved anywhere, not only onto the belt and into bags.
    pub unrestricted_pieces: bool,
    /// The menu is shown.
    pub open: bool,
}

impl Default for DebugOptions {
    /// The menu is shown and pieces move as in play.
    fn default() -> (options: DebugOptions)
        ensures
            !options.unrestricted_pieces,
            options.open,
    {
        DebugOptions { unrestricted_pieces: false, open: true }
    }
}

/// The pieces the debug menu can spawn: every shape, and the two shapes whose mirror image
/// differs from them mirrored.
#[derive(Debug, Clone, Copy, PartialEq, Eq, Structural)]
pub enum NominoType {
    Straight3,
    L3,
    Straight,
    Square,
    T,
    L,
    L2,
    Skew,
    Skew2,
}

impl Default for NominoType {
    /// The straight tetromino.
    fn default() -> (nomino_type: NominoType)
        ensures
            nomino_type == NominoType::Straight,
    {
        NominoType::Straight
    }
}

/// The name of a piece in the debug menu.
pub open spec fn spec_nomino_type_name(nomino_type: NominoType) -> Seq<char> {
    match nomino_type {
        NominoType::Straight3 => "Straight (3)"@,
        NominoType::L3 => "L (3)"@,
        NominoType::Straight => "Straight"@,
        NominoType::Square => "Square"@,
        NominoType::T => "T"@,
        NominoType::L => "L"@,
        NominoType::L2 => "Mirrored L"@,
        NominoType::Skew => "Skew"@,
        NominoType::Skew2 => "Mirrored Skew"@,
    }
}

/// The shape a piece of the debug menu has, and whether it is mirrored.
pub open spec fn spec_nomino_type_shape(nomino_type: NominoType) -> (Nomino, bool) {
    match nomino_type {
        NominoType::Straight3 => (Nomino::TrominoStraight, false),
        NominoType::L3 => (Nomino::TrominoL, false),
        NominoType::Straight => (Nomino::TetrominoStraight, false),
        NominoType::Square => (Nomino::TetrominoSquare, false),
        NominoType::T => (Nomino::TetrominoT, false),
        NominoType::L => (Nomino::TetrominoL, false),
        NominoType::L2 => (Nomino::TetrominoL, true),
        NominoType::Skew => (Nomino::TetrominoSkew, false),
        NominoType::Skew2 => (Nomino::TetrominoSkew, true),
    }
}

impl NominoType {
    /// The name shown in the debug menu.
    pub fn name(&self) -> (name: &'static str)
        ensures
            name@ == spec_nomino_type_name(*self),
    {
        match self {
            NominoType::Straight3 => "Straight (3)",
            NominoType::L3 => "L (3)",
            NominoType::Straight => "Straight",
            NominoType::Square => "Square",
            NominoType::T => "T",
            NominoType::L => "L",
            NominoType::L2 => "Mirrored L",
            NominoType::Skew => "Skew",
            NominoType::Skew2 => "Mirrored Skew",
        }
    }

    /// The shape spawned for this entry, and whether it is spawned mirrored.
    pub fn shape(&self) -> (shape: (Nomino, bool))
        ensures
            shape == spec_nomino_type_shape(*self),
    {
        match self {
            NominoType::Straight3 => (Nomino::TrominoStraight, false),
            NominoType::L3 => (Nomino::TrominoL, false),
            NominoType::Straight => (Nomino::TetrominoStraight, false),
            NominoType::Square => (Nomino::TetrominoSquare, false),
            NominoType::T => (Nomino::TetrominoT, false),
            NominoType::L => (Nomino::TetrominoL, false),
            NominoType::L2 => (Nomino::TetrominoL, true),
            NominoType::Skew => (Nomino::TetrominoSkew, false),
            NominoType::Skew2 => (Nomino::TetrominoSkew, true),
        }
    }
}

} // verus!
