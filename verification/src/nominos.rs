use vstd::prelude::*;

verus! {

/// The colors a piece can have.
#[derive(Debug, Clone, Copy, PartialEq, Eq, Structural)]
pub enum NominoColor {
    Red,
    Gold,
    Blue,
    Green,
    Pink,
    Orange,
    Debug,
}

/// The number of piece colors.
pub const NOMINO_COLOR_COUNT: usize = 7;

/// The position of a color in the list of all colors.
pub open spec fn spec_color_index(color: NominoColor) -> nat {
    match color {
        NominoColor::Red => 0,
        NominoColor::Gold => 1,
        NominoColor::Blue => 2,
        NominoColor::Green => 3,
        NominoColor::Pink => 4,
        NominoColor::Orange => 5,
        NominoColor::Debug => 6,
    }
}

/// The color at a position of the list of all colors, if there is one.
pub open spec fn spec_color_from_index(index: int) -> Option<NominoColor> {
    if index == 0 {
        Some(NominoColor::Red)
    } else if index == 1 {
        Some(NominoColor::Gold)
    } else if index == 2 {
        Some(NominoColor::Blue)
    } else if index == 3 {
        Some(NominoColor::Green)
    } else if index == 4 {
        Some(NominoColor::Pink)
    } else if index == 5 {
        Some(NominoColor::Orange)
    } else if index == 6 {
        Some(NominoColor::Debug)
    } else {
        None
    }
}

impl NominoColor {
    /// The position of this color in the list of all colors.
    pub fn index(self) -> (index: usize)
        ensures
            index == spec_color_index(self),
            index < NOMINO_COLOR_COUNT,
    {
        match self {
            NominoColor::Red => 0,
            NominoColor::Gold => 1,
            NominoColor::Blue => 2,
            NominoColor::Green => 3,
            NominoColor::Pink => 4,
            NominoColor::Orange => 5,
            NominoColor::Debug => 6,
        }
    }

    /// The color at position `index` of the list of all colors, if there is one.
    pub fn from_index(index: usize) -> (color: Option<NominoColor>)
        ensures
            color == spec_color_from_index(index as int),
            color is Some <==> index < NOMINO_COLOR_COUNT,
            color matches Some(c) ==> spec_color_index(c) == index,
    {
        match index {
            0 => Some(NominoColor::Red),
            1 => Some(NominoColor::Gold),
            2 => Some(NominoColor::Blue),
            3 => Some(NominoColor::Green),
            4 => Some(NominoColor::Pink),
            5 => Some(NominoColor::Orange),
            6 => Some(NominoColor::Debug),
            _ => None,
        }
    }
}

/// The shapes a piece can have.
#[derive(Debug, Clone, Copy, PartialEq, Eq, Structural)]
pub enum Nomino {
    TrominoStraight,
    TrominoL,
    TetrominoStraight,
    TetrominoSquare,
    TetrominoT,
    TetrominoL,
    TetrominoSkew,
}

/// The number of piece shapes.
pub const NOMINO_COUNT: usize = 7;

/// The position of a shape in the list of all shapes.
pub open spec fn spec_nomino_index(nomino: Nomino) -> nat {
    match nomino {
        Nomino::TrominoStraight => 0,
        Nomino::TrominoL => 1,
        Nomino::TetrominoStraight => 2,
        Nomino::TetrominoSquare => 3,
        Nomino::TetrominoT => 4,
        Nomino::TetrominoL => 5,
        Nomino::TetrominoSkew => 6,
    }
}

/// The shape at a position of the list of all shapes (the last one past the end).
pub open spec fn spec_nomino_from_index(index: int) -> Nomino {
    if index <= 0 {
        Nomino::TrominoStraight
    } else if index == 1 {
        Nomino::TrominoL
    } else if index == 2 {
        Nomino::TetrominoStraight
    } else if index == 3 {
        Nomino::TetrominoSquare
    } else if index == 4 {
        Nomino::TetrominoT
    } else if index == 5 {
        Nomino::TetrominoL
    } else {
        Nomino::TetrominoSkew
    }
}

impl Nomino {
    /// The shape at position `index` of the list of all shapes, if there is one.
    pub fn from_index(index: usize) -> (nomino: Option<Nomino>)
        ensures
            nomino is Some <==> index < NOMINO_COUNT,
            nomino matches Some(n) ==> spec_nomino_index(n) == index && n == spec_nomino_from_index(
                index as int,
            ),
    {
        match index {
            0 => Some(Nomino::TrominoStraight),
            1 => Some(Nomino::TrominoL),
            2 => Some(Nomino::TetrominoStraight),
            3 => Some(Nomino::TetrominoSquare),
            4 => Some(Nomino::TetrominoT),
            5 => Some(Nomino::TetrominoL),
            6 => Some(Nomino::TetrominoSkew),
            _ => None,
        }
    }

}

} // verus!
