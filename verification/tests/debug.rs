use grocery_bagger::debug::{DebugOptions, NominoType};
use grocery_bagger::nominos::Nomino;

#[test]
fn debug_menu_starts_open_with_restricted_pieces() {
    let options = DebugOptions::default();

    assert!(options.open);
    assert!(!options.unrestricted_pieces);
}

#[test]
fn debug_menu_names_and_shapes() {
    assert_eq!(NominoType::default(), NominoType::Straight);
    assert_eq!(NominoType::Straight3.name(), "Straight (3)");
    assert_eq!(NominoType::L2.name(), "Mirrored L");
    assert_eq!(NominoType::Skew2.name(), "Mirrored Skew");
    assert_eq!(NominoType::L2.shape(), (Nomino::TetrominoL, true));
    assert_eq!(NominoType::Skew.shape(), (Nomino::TetrominoSkew, false));
    assert_eq!(NominoType::L3.shape(), (Nomino::TrominoL, false));
}
