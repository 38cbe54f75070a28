use grocery_bagger::analytics::{analytics_version_id, bag_representation};
use grocery_bagger::levels::{
    animation_event_matches, init_levels, level_change_handler, level_end_handler,
    level_needs_init, CurrentLevel, GameState, GroceryBagger9000, LevelChangeFsm, LevelSetup,
    TutorialAction, TutorialFsm, TutorialInputs, ANIMATION_BAG, ANIMATION_COMPLETED,
    ANIMATION_OFFSCREEN, LAST_LEVEL, NUM_DESIGNED_LEVELS,
};
use grocery_bagger::nominos::NominoColor;

#[test]
fn game_starts_playing_level_one() {
    let game = GroceryBagger9000::default();
    assert_eq!(game.state, GameState::Playing);
    assert_eq!(game.current_level, 1);
    assert_eq!(game.level_to_start(true), Some(1));
    assert_eq!(game.level_to_start(false), None);
}

#[test]
fn finished_level_waits_between_levels() {
    let mut game = GroceryBagger9000::default();
    game.finish_level();
    assert_eq!(game.state, GameState::LevelEnded);
    assert_eq!(game.level_to_start(true), None);
    assert!(game.jump_to_level(4));
    assert_eq!(game, GroceryBagger9000 { state: GameState::Playing, current_level: 4 });
    assert!(!game.jump_to_level(4));
}

#[test]
fn designed_levels_come_first() {
    assert_eq!(LAST_LEVEL, NUM_DESIGNED_LEVELS - 1);
    assert_eq!(init_levels(0), LevelSetup::Designed(0));
    assert_eq!(init_levels(21), LevelSetup::Designed(21));
    assert_eq!(init_levels(22), LevelSetup::Infinite);
    assert_eq!(init_levels(u16::MAX), LevelSetup::Infinite);
}

#[test]
fn level_ends_after_belt_empties_and_a_bag_leaves() {
    let mut fsm = LevelChangeFsm::default();
    assert!(!level_end_handler(&mut fsm, false, false, true));
    assert_eq!(fsm, LevelChangeFsm::Ready);
    assert!(!level_end_handler(&mut fsm, false, true, false));
    assert_eq!(fsm, LevelChangeFsm::PiecePlaced);
    assert!(!level_end_handler(&mut fsm, false, false, false));
    assert!(level_end_handler(&mut fsm, false, false, true));
    assert_eq!(fsm, LevelChangeFsm::Ready);

    // A level start resets the wait.
    level_end_handler(&mut fsm, false, true, false);
    assert!(!level_end_handler(&mut fsm, true, false, true));
    assert_eq!(fsm, LevelChangeFsm::Ready);
}

#[test]
fn animation_flags_are_bits() {
    let bag_exit = ANIMATION_COMPLETED | ANIMATION_OFFSCREEN | ANIMATION_BAG;
    assert!(animation_event_matches(bag_exit, ANIMATION_BAG | ANIMATION_OFFSCREEN));
    assert!(animation_event_matches(bag_exit, ANIMATION_COMPLETED));
    assert!(!animation_event_matches(ANIMATION_COMPLETED, ANIMATION_BAG | ANIMATION_OFFSCREEN));
    assert!(!animation_event_matches(0, ANIMATION_COMPLETED));
}

#[test]
fn level_change_unloads_the_previous_level() {
    let mut current = CurrentLevel { level: 2, root: Some(40) };
    let mut prev = 1u16;
    assert_eq!(level_change_handler(&mut current, &mut prev), Some(40));
    assert_eq!(current, CurrentLevel { level: 2, root: None });
    assert_eq!(prev, 2);
    assert_eq!(level_change_handler(&mut current, &mut prev), None);

    assert!(level_needs_init(3, &current, GameState::Playing));
    assert!(!level_needs_init(2, &current, GameState::Playing));
    assert!(!level_needs_init(3, &current, GameState::LevelEnded));
}

#[test]
fn mouse_tutorial_walks_through_its_steps() {
    let idle = TutorialInputs {
        in_first_level: true,
        first_piece_ready: false,
        icon_loaded: false,
        piece_picked_up: false,
        right_clicked: false,
    };
    let fsm = TutorialFsm::default();
    let (fsm, action) = fsm.step(idle);
    assert_eq!((fsm, action), (TutorialFsm::StartedLoad, TutorialAction::Nothing));
    let (fsm, action) = fsm.step(idle);
    assert_eq!((fsm, action), (TutorialFsm::StartedLoad, TutorialAction::Nothing));
    let (fsm, action) = fsm.step(TutorialInputs { first_piece_ready: true, ..idle });
    assert_eq!((fsm, action), (TutorialFsm::Loading, TutorialAction::SpawnIcon));
    let (fsm, action) = fsm.step(TutorialInputs { icon_loaded: true, ..idle });
    assert_eq!((fsm, action), (TutorialFsm::Loaded, TutorialAction::ShowIcon));
    let (fsm, action) = fsm.step(TutorialInputs { piece_picked_up: true, ..idle });
    assert_eq!((fsm, action), (TutorialFsm::PickedUp, TutorialAction::ShowRotateHint));
    let (fsm, action) = fsm.step(TutorialInputs { right_clicked: true, ..idle });
    assert_eq!((fsm, action), (TutorialFsm::Rotated, TutorialAction::ShowPlaceHint));
    let (fsm, action) = fsm.step(TutorialInputs { in_first_level: false, ..idle });
    assert_eq!((fsm, action), (TutorialFsm::Ready, TutorialAction::Nothing));
}

#[test]
fn bag_report_lists_rows_from_the_bottom() {
    let bag = vec![
        vec![Some(NominoColor::Red), None, Some(NominoColor::Debug)],
        vec![None, Some(NominoColor::Blue), None],
    ];
    assert_eq!(bag_representation(&bag), "107\n030\n");
    assert_eq!(bag_representation(&[]), "");
}

#[test]
fn analytics_version_tells_robot_games_apart() {
    assert_eq!(analytics_version_id(true), 20);
    assert_eq!(analytics_version_id(false), 21);
}
