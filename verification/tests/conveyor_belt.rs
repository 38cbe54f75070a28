use grocery_bagger::conveyor_belt::{
    belt_empty_check, piece_is_selectable, remove_placed_piece, undo_selection_target,
    BeltPieceIds, ConveyorBelt,
    ConveyorBeltOptions, InfinitePiecesConveyorBelt, Orientation, Piece, PieceMovementFsm,
    PiecePlacementUpdate, PresetPiecesConveyorBelt,
};
use grocery_bagger::nominos::{Nomino, NominoColor};

type Quat = (f32, f32, f32, f32);

#[test]
fn empty_preset_pieces_returns_none() {
    let mut belt: PresetPiecesConveyorBelt<Quat, 0> = PresetPiecesConveyorBelt::new([]);

    assert_eq!(belt.next(), None);
}

#[test]
fn preset_pieces_returns_them() {
    let pieces = [
        Piece {
            nomino: Nomino::TetrominoSkew,
            color: NominoColor::Green,
            rotation: (1., 2., 3., 4.),
        },
        Piece {
            nomino: Nomino::TetrominoL,
            color: NominoColor::Pink,
            rotation: (2., 1., 3., 4.),
        },
        Piece {
            nomino: Nomino::TetrominoSquare,
            color: NominoColor::Blue,
            rotation: (1., 2., 4., 3.),
        },
    ];
    let mut belt = PresetPiecesConveyorBelt::new(pieces);

    assert_eq!(belt.next(), Some(pieces[0]));
    assert_eq!(belt.next(), Some(pieces[1]));
    assert_eq!(belt.next(), Some(pieces[2]));
    assert_eq!(belt.next(), None);
}

#[test]
fn preset_belt_stays_empty_once_drained() {
    let piece = Piece {
        nomino: Nomino::TrominoL,
        color: NominoColor::Gold,
        rotation: Orientation { mirrored: true, quarter_turns: 2 },
    };
    let mut belt = PresetPiecesConveyorBelt::new([piece]);

    assert_eq!(belt.next(), Some(piece));
    for _ in 0..5 {
        assert_eq!(belt.next(), None);
    }
}

#[test]
fn infinite_belt_never_runs_out_and_uses_its_colors() {
    let mut belt = InfinitePiecesConveyorBelt::new([NominoColor::Red, NominoColor::Blue]);
    let mut seen_red = false;
    let mut seen_blue = false;
    for _ in 0..200 {
        let piece = belt.next().expect("an endless belt always has a piece");
        assert!(piece.color == NominoColor::Red || piece.color == NominoColor::Blue);
        assert!(piece.rotation.quarter_turns == 0 || piece.rotation.quarter_turns == 2);
        seen_red |= piece.color == NominoColor::Red;
        seen_blue |= piece.color == NominoColor::Blue;
    }
    assert!(seen_red && seen_blue);
}

#[test]
fn infinite_belt_with_one_color() {
    let mut belt = InfinitePiecesConveyorBelt::new([NominoColor::Orange]);
    for _ in 0..50 {
        assert_eq!(belt.next().unwrap().color, NominoColor::Orange);
    }
}

fn belt_of(ids: &[u64]) -> BeltPieceIds {
    let mut belt = BeltPieceIds::new();
    for id in ids {
        belt.push(*id);
    }
    belt
}

fn ids_of(belt: &BeltPieceIds) -> Vec<u64> {
    (0..belt.len()).map(|i| belt.get(i).unwrap()).collect()
}

#[test]
fn belt_piece_ids_keep_order() {
    let mut belt = belt_of(&[7, 8, 9]);
    assert_eq!(belt.len(), 3);
    assert_eq!(belt.get(0), Some(7));
    assert_eq!(belt.get(2), Some(9));
    assert_eq!(belt.get(3), None);
    assert_eq!(belt.position(8), Some(1));
    assert_eq!(belt.position(5), None);
    assert_eq!(belt.remove(1), 8);
    assert_eq!(ids_of(&belt), vec![7, 9]);
    assert!(!belt.is_empty());
    assert!(BeltPieceIds::default().is_empty());
}

#[test]
fn placing_a_piece_shifts_the_next_one_into_the_selectable_places() {
    let mut belt = belt_of(&[10, 20, 30, 40, 50]);
    let update = remove_placed_piece(&mut belt, 20, 3);
    assert_eq!(
        update,
        Some(PiecePlacementUpdate {
            removed_at: 1,
            newly_selectable: Some(40),
        })
    );
    assert_eq!(ids_of(&belt), vec![10, 30, 40, 50]);
}

#[test]
fn placing_a_piece_with_few_pieces_left_selects_nothing_new() {
    let mut belt = belt_of(&[10, 20, 30]);
    let update = remove_placed_piece(&mut belt, 10, 3);
    assert_eq!(
        update,
        Some(PiecePlacementUpdate {
            removed_at: 0,
            newly_selectable: None,
        })
    );
    assert_eq!(ids_of(&belt), vec![20, 30]);

    let update = remove_placed_piece(&mut belt, 30, 1);
    assert_eq!(
        update,
        Some(PiecePlacementUpdate {
            removed_at: 1,
            newly_selectable: None,
        })
    );
}

#[test]
fn placing_a_piece_not_on_the_belt_changes_nothing() {
    let mut belt = belt_of(&[1, 2]);
    assert_eq!(remove_placed_piece(&mut belt, 3, 3), None);
    assert_eq!(ids_of(&belt), vec![1, 2]);
}

#[test]
fn only_the_leftmost_three_pieces_are_selectable_by_default() {
    let options = ConveyorBeltOptions::default();
    assert_eq!(options.num_pieces_selectable, 3);
    for index in 0..9 {
        assert_eq!(piece_is_selectable(index, options.num_pieces_selectable), index < 3);
    }
}

#[test]
fn empty_belt_is_reported_only_when_changed() {
    let empty = BeltPieceIds::new();
    let full = belt_of(&[4]);
    assert!(belt_empty_check(&empty, true));
    assert!(!belt_empty_check(&empty, false));
    assert!(!belt_empty_check(&full, true));
}

#[test]
fn piece_movement_skips_the_loading_change() {
    let fsm = PieceMovementFsm::default();
    let (fsm, animate) = fsm.step(true, Some(true));
    assert_eq!((fsm, animate), (PieceMovementFsm::Loaded, false));
    let (fsm, animate) = fsm.step(false, Some(true));
    assert_eq!((fsm, animate), (PieceMovementFsm::Loaded, true));
    let (fsm, animate) = fsm.step(false, Some(false));
    assert_eq!((fsm, animate), (PieceMovementFsm::Loaded, false));
    let (fsm, animate) = fsm.step(true, None);
    assert_eq!((fsm, animate), (PieceMovementFsm::Ready, false));
}

#[test]
fn infinite_belt_builds_pieces_from_its_draws() {
    let belt = InfinitePiecesConveyorBelt::new([NominoColor::Red, NominoColor::Pink]);

    assert_eq!(
        belt.piece_from_draws(6, 1, true, true),
        Piece {
            nomino: Nomino::TetrominoSkew,
            color: NominoColor::Pink,
            rotation: Orientation { mirrored: true, quarter_turns: 2 },
        }
    );
    assert_eq!(
        belt.piece_from_draws(0, 0, false, false),
        Piece {
            nomino: Nomino::TrominoStraight,
            color: NominoColor::Red,
            rotation: Orientation { mirrored: false, quarter_turns: 0 },
        }
    );
}

#[test]
fn undone_pieces_lie_flat_outside_the_first_level() {
    let upright = Orientation { mirrored: false, quarter_turns: 1 };
    let mirrored_upright = Orientation { mirrored: true, quarter_turns: 3 };
    let flat = Orientation { mirrored: true, quarter_turns: 2 };

    assert_eq!(upright.after_undo(3), Orientation { mirrored: false, quarter_turns: 2 });
    assert_eq!(mirrored_upright.after_undo(1), Orientation { mirrored: true, quarter_turns: 0 });
    assert_eq!(flat.after_undo(3), flat);
    assert_eq!(upright.after_undo(0), upright);
}

#[test]
fn undone_piece_goes_back_to_its_place() {
    let belt = belt_of(&[7, 8, 9]);
    let upright = Orientation { mirrored: false, quarter_turns: 1 };

    assert_eq!(
        undo_selection_target(&belt, 9, 2, upright),
        (2, Orientation { mirrored: false, quarter_turns: 2 })
    );
    assert_eq!(undo_selection_target(&belt, 7, 0, upright), (0, upright));
}

#[test]
fn preset_belt_hands_out_each_piece_once_in_order() {
    let pieces = [
        Piece {
            nomino: Nomino::TetrominoT,
            color: NominoColor::Red,
            rotation: Orientation { mirrored: false, quarter_turns: 0 },
        },
        Piece {
            nomino: Nomino::TrominoStraight,
            color: NominoColor::Blue,
            rotation: Orientation { mirrored: true, quarter_turns: 2 },
        },
    ];
    let mut belt = PresetPiecesConveyorBelt::new(pieces);

    let handed: Vec<_> = (0..5).map(|_| belt.next()).collect();
    assert_eq!(handed, vec![Some(pieces[0]), Some(pieces[1]), None, None, None]);
}
