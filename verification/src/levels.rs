use vstd::prelude::*;

verus! {

/// The number of levels that are designed by hand; later levels are generated.
pub const NUM_DESIGNED_LEVELS: usize = 22;

/// The last level designed by hand.
pub const LAST_LEVEL: usize = 21;

/// Flag of an animation's completion event: the animation is over.
pub const ANIMATION_COMPLETED: u64 = 1;

/// Flag of an animation's completion event: the animated thing left the screen.
pub const ANIMATION_OFFSCREEN: u64 = 2;

/// Flag of an animation's completion event: the animated thing is a bag.
pub const ANIMATION_BAG: u64 = 4;

/// Whether the game is being played or a level has just ended.
#[derive(Debug, Clone, Copy, PartialEq, Eq, Structural)]
pub enum GameState {
    Playing,
    LevelEnded,
}

/// The state of the game: playing or between levels, and the level being played.
#[derive(Debug, Clone, Copy, PartialEq, Eq, Structural)]
pub struct GroceryBagger9000 {
    pub state: GameState,
    pub current_level: u16,
}

impl Default for GameState {
    /// Playing.
    fn default() -> (state: GameState)
        ensures
            state == GameState::Playing,
    {
        GameState::Playing
    }
}

impl Default for GroceryBagger9000 {
    /// Playing level 1.
    fn default() -> (game: GroceryBagger9000)
        ensures
            game.state == GameState::Playing,
            game.current_level == 1,
    {
        GroceryBagger9000 { state: GameState::Playing, current_level: 1 }
    }
}

impl GroceryBagger9000 {
    /// The level to start this frame: the current one, when playing and no level is on screen.
    pub fn level_to_start(&self, level_is_empty: bool) -> (started: Option<u16>)
        ensures
            started == if self.state == GameState::Playing && level_is_empty {
                Some(self.current_level)
            } else {
                None
            },
    {
        if self.state == GameState::Playing && level_is_empty {
            Some(self.current_level)
        } else {
            None
        }
    }

    /// The level finished: it is unloaded and the game waits between levels.
    pub fn finish_level(&mut self)
        ensures
            final(self).state == GameState::LevelEnded,
            final(self).current_level == old(self).current_level,
    {
        self.state = GameState::LevelEnded;
    }

    /// Jumps to level `level_num` (from the debug menu): when it differs from the current level
    /// the game plays it and the current level must finish, which is returned.
    pub fn jump_to_level(&mut self, level_num: u16) -> (level_finished: bool)
        ensures
            level_finished == (level_num != old(self).current_level),
            level_finished ==> *final(self) == (GroceryBagger9000 {
                state: GameState::Playing,
                current_level: level_num,
            }),
            !level_finished ==> *final(self) == *old(self),
    {
        if level_num != self.current_level {
            self.current_level = level_num;
            self.state = GameState::Playing;
            true
        } else {
            false
        }
    }
}

/// Whether a level is under way or waiting for its last bags to leave.
#[derive(Debug, Clone, Copy, PartialEq, Eq, Structural)]
pub enum LevelChangeFsm {
    /// Pieces are still coming.
    Ready,
    /// The belt ran empty: the level ends when a bag has left the screen.
    PiecePlaced,
}

impl Default for LevelChangeFsm {
    /// The state at the start.
    fn default() -> (fsm: LevelChangeFsm)
        ensures
            fsm == LevelChangeFsm::Ready,
    {
        LevelChangeFsm::Ready
    }
}

/// Whether a completion event's flags include any of `flags`.
pub fn animation_event_matches(user_data: u64, flags: u64) -> (matches: bool)
    ensures
        matches == (user_data & flags != 0),
{
    user_data & flags != 0
}

/// One frame of watching for the end of a level: a level start resets the state; when ready,
/// the belt running empty moves on to waiting; when waiting, a bag (or anything) leaving the
/// screen finishes the level and resets the state. Returns whether the level finished.
pub fn level_end_handler(
    level_fsm: &mut LevelChangeFsm,
    level_started: bool,
    belt_empty: bool,
    bag_offscreen: bool,
) -> (level_finished: bool)
    ensures
        ({
            let fsm = if level_started {
                LevelChangeFsm::Ready
            } else {
                *old(level_fsm)
            };
            match fsm {
                LevelChangeFsm::Ready => !level_finished && *final(level_fsm) == if belt_empty {
                    LevelChangeFsm::PiecePlaced
                } else {
                    LevelChangeFsm::Ready
                },
                LevelChangeFsm::PiecePlaced => level_finished == bag_offscreen && *final(level_fsm)
                    == if bag_offscreen {
                    LevelChangeFsm::Ready
                } else {
                    LevelChangeFsm::PiecePlaced
                },
            }
        }),
{
    if level_started {
        *level_fsm = LevelChangeFsm::Ready;
    }
    match *level_fsm {
        LevelChangeFsm::Ready => {
            if belt_empty {
                *level_fsm = LevelChangeFsm::PiecePlaced;
            }
            false
        },
        LevelChangeFsm::PiecePlaced => {
            if bag_offscreen {
                *level_fsm = LevelChangeFsm::Ready;
                true
            } else {
                false
            }
        },
    }
}

/// How a level is set up.
#[derive(Debug, Clone, Copy, PartialEq, Eq, Structural)]
pub enum LevelSetup {
    /// The hand-designed level at this place of the list of designed levels.
    Designed(usize),
    /// A generated level with an endless belt.
    Infinite,
}

/// How the level `level` is set up: the designed levels first, generated levels after them.
pub fn init_levels(level: u16) -> (setup: LevelSetup)
    ensures
        setup == if level < NUM_DESIGNED_LEVELS {
            LevelSetup::Designed(level as usize)
        } else {
            LevelSetup::Infinite
        },
{
    let level = level as usize;
    if level < NUM_DESIGNED_LEVELS {
        LevelSetup::Designed(level)
    } else {
        LevelSetup::Infinite
    }
}

/// The level being played and the root of what is on screen for it, if it is loaded.
#[derive(Debug, Clone, Copy, PartialEq, Eq, Structural)]
pub struct CurrentLevel {
    pub level: u16,
    pub root: Option<u64>,
}

/// When the level changed since the last frame (`prev_level`), the previous level is
/// unloaded: its root, if any, is returned to be removed, and the level has none any more.
pub fn level_change_handler(current: &mut CurrentLevel, prev_level: &mut u16) -> (unloaded: Option<
    u64,
>)
    ensures
        *old(prev_level) == old(current).level ==> unloaded is None && *final(current) == *old(
            current,
        ) && *final(prev_level) == *old(prev_level),
        *old(prev_level) != old(current).level ==> {
            &&& unloaded == old(current).root
            &&& *final(prev_level) == old(current).level
            &&& *final(current) == (CurrentLevel { level: old(current).level, root: None })
        },
{
    if *prev_level != current.level {
        *prev_level = current.level;
        let root = current.root;
        current.root = None;
        root
    } else {
        None
    }
}

/// Level `level_num` (counted from 1) is set up when it is the current level (counted from 0),
/// the game is playing and no level is loaded.
pub fn level_needs_init(level_num: u16, current: &CurrentLevel, state: GameState) -> (init: bool)
    requires
        level_num >= 1,
    ensures
        init == (current.level == level_num - 1 && current.root is None && state
            == GameState::Playing),
{
    current.level == level_num - 1 && current.root.is_none() && state == GameState::Playing
}

/// The steps of the mouse tutorial of the first level.
#[derive(Debug, Clone, Copy, PartialEq, Eq, Structural)]
pub enum TutorialFsm {
    Ready,
    StartedLoad,
    Loading,
    Loaded,
    PickedUp,
    Rotated,
}

/// What the mouse tutorial does in a frame.
#[derive(Debug, Clone, Copy, PartialEq, Eq, Structural)]
pub enum TutorialAction {
    Nothing,
    /// Start loading the mouse icon on the first piece.
    SpawnIcon,
    /// The icon is loaded: show it, pointing at the left button.
    ShowIcon,
    /// The piece was picked up: point at the right button to rotate it.
    ShowRotateHint,
    /// The piece was rotated: point at the left button to place it.
    ShowPlaceHint,
}

/// What the mouse tutorial sees in a frame.
#[derive(Debug, Clone, Copy, PartialEq, Eq, Structural)]
pub struct TutorialInputs {
    /// The first level is being played and no level started this frame.
    pub in_first_level: bool,
    /// A single selectable piece, not moving, is there to point at.
    pub first_piece_ready: bool,
    /// The mouse icon finished loading.
    pub icon_loaded: bool,
    /// A piece was picked up.
    pub piece_picked_up: bool,
    /// The right mouse button was just pressed.
    pub right_clicked: bool,
}

impl Default for TutorialFsm {
    /// The state at the start.
    fn default() -> (fsm: TutorialFsm)
        ensures
            fsm == TutorialFsm::Ready,
    {
        TutorialFsm::Ready
    }
}

impl TutorialFsm {
    /// One frame of the mouse tutorial: outside the first level it starts over; otherwise it
    /// moves one step when what that step waits for happened, and says what to show.
    pub fn step(self, inputs: TutorialInputs) -> (result: (TutorialFsm, TutorialAction))
        ensures
            !inputs.in_first_level ==> result == (TutorialFsm::Ready, TutorialAction::Nothing),
            inputs.in_first_level ==> result == match self {
                TutorialFsm::Ready => (TutorialFsm::StartedLoad, TutorialAction::Nothing),
                TutorialFsm::StartedLoad => if inputs.first_piece_ready {
                    (TutorialFsm::Loading, TutorialAction::SpawnIcon)
                } else {
                    (self, TutorialAction::Nothing)
                },
                TutorialFsm::Loading => if inputs.icon_loaded {
                    (TutorialFsm::Loaded, TutorialAction::ShowIcon)
                } else {
                    (self, TutorialAction::Nothing)
                },
                TutorialFsm::Loaded => if inputs.piece_picked_up {
                    (TutorialFsm::PickedUp, TutorialAction::ShowRotateHint)
                } else {
                    (self, TutorialAction::Nothing)
                },
                TutorialFsm::PickedUp => if inputs.right_clicked {
                    (TutorialFsm::Rotated, TutorialAction::ShowPlaceHint)
                } else {
                    (self, TutorialAction::Nothing)
                },
                TutorialFsm::Rotated => (self, TutorialAction::Nothing),
            },
    {
        if !inputs.in_first_level {
            return (TutorialFsm::Ready, TutorialAction::Nothing);
        }
        match self {
            TutorialFsm::Ready => (TutorialFsm::StartedLoad, TutorialAction::Nothing),
            TutorialFsm::StartedLoad => {
                if inputs.first_piece_ready {
                    (TutorialFsm::Loading, TutorialAction::SpawnIcon)
                } else {
                    (self, TutorialAction::Nothing)
                }
            },
            TutorialFsm::Loading => {
                if inputs.icon_loaded {
                    (TutorialFsm::Loaded, TutorialAction::ShowIcon)
                } else {
                    (self, TutorialAction::Nothing)
                }
            },
            TutorialFsm::Loaded => {
                if inputs.piece_picked_up {
                    (TutorialFsm::PickedUp, TutorialAction::ShowRotateHint)
                } else {
                    (self, TutorialAction::Nothing)
                }
            },
            TutorialFsm::PickedUp => {
                if inputs.right_clicked {
                    (TutorialFsm::Rotated, TutorialAction::ShowPlaceHint)
                } else {
                    (self, TutorialAction::Nothing)
                }
            },
            TutorialFsm::Rotated => (self, TutorialAction::Nothing),
        }
    }
}

} // verus!
