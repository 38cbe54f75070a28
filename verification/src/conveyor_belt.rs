use rand::Rng;
use smallvec::SmallVec;
use vstd::prelude::*;

use crate::nominos::{spec_nomino_from_index, Nomino, NominoColor, NOMINO_COUNT};

verus! {

/// The most pieces a belt shows at once.
pub const MAX_NUM_PIECES: u8 = 9;

/// How a piece is turned: optionally mirrored, then turned clockwise by `quarter_turns`
/// quarters of a full turn.
#[derive(Debug, Clone, Copy, PartialEq, Eq, Structural)]
pub struct Orientation {
    pub mirrored: bool,
    pub quarter_turns: u8,
}

impl Orientation {
    /// How a piece taken back to the belt is turned: outside the first level (level 0), a
    /// piece turned by an odd number of quarters gets one more quarter turn, so that it lies
    /// flat on the belt; otherwise it keeps its orientation.
    pub open spec fn spec_after_undo(self, current_level: u16) -> Orientation {
        if current_level != 0 && self.quarter_turns % 2 == 1 {
            Orientation {
                mirrored: self.mirrored,
                quarter_turns: ((self.quarter_turns % 4 + 1) % 4) as u8,
            }
        } else {
            self
        }
    }

    /// The orientation of this piece once taken back to the belt in level `current_level`.
    #[verifier::when_used_as_spec(spec_after_undo)]
    pub fn after_undo(self, current_level: u16) -> (turned: Orientation)
        ensures
            turned == self.spec_after_undo(current_level),
    {
        if current_level != 0 && self.quarter_turns % 2 == 1 {
            Orientation { mirrored: self.mirrored, quarter_turns: (self.quarter_turns % 4 + 1) % 4 }
        } else {
            self
        }
    }
}

/// Taking a piece back to the belt turns it at most once and by one quarter: outside the first
/// level (level 0) a piece turned by an odd number of quarters ends up one quarter further,
/// mirrored or not, and lies flat (an even number of quarters); any other piece keeps its
/// orientation. Mirroring is never changed.
pub proof fn lemma_undo_adds_one_quarter_turn(orientation: Orientation, current_level: u16)
    ensures
        ({
            let turned = orientation.spec_after_undo(current_level);
            &&& turned.mirrored == orientation.mirrored
            &&& current_level != 0 && orientation.quarter_turns % 2 == 1 ==> {
                &&& turned.quarter_turns < 4
                &&& turned.quarter_turns % 2 == 0
                &&& (turned.quarter_turns + 3) % 4 == orientation.quarter_turns % 4
            }
            &&& (current_level == 0 || orientation.quarter_turns % 2 == 0) ==> turned == orientation
        }),
        ({
            let flipped = Orientation { mirrored: !orientation.mirrored, ..orientation };
            flipped.spec_after_undo(current_level).quarter_turns == orientation.spec_after_undo(
                current_level,
            ).quarter_turns
        }),
{
}

/// A piece on the conveyor belt: its shape, its color and how it is turned.
#[derive(Debug, Clone, Copy, PartialEq)]
pub struct Piece<R> {
    pub nomino: Nomino,
    pub color: NominoColor,
    pub rotation: R,
}

/// A source of pieces for the conveyor belt.
pub trait ConveyorBelt<R> {
    /// The belt can hand out pieces.
    spec fn well_formed(&self) -> bool;

    /// The next piece, or nothing when the belt has run out.
    fn next(&mut self) -> (piece: Option<Piece<R>>)
        requires
            old(self).well_formed(),
        ensures
            final(self).well_formed(),
    ;
}

/// A belt that hands out a fixed list of pieces, in order, and then nothing.
pub struct PresetPiecesConveyorBelt<R, const N: usize> {
    pieces: [Piece<R>; N],
    next: usize,
}

impl<R: Copy, const N: usize> PresetPiecesConveyorBelt<R, N> {
    /// The pieces the belt will still hand out, in order.
    pub closed spec fn remaining(&self) -> Seq<Piece<R>> {
        self.pieces@.subrange(self.next as int, N as int)
    }

    /// One call of `next` took the belt from `before` to `after` and gave `piece`: the first
    /// remaining piece, which is no longer remaining, or nothing once all were handed out.
    pub open spec fn hands_out(before: Self, after: Self, piece: Option<Piece<R>>) -> bool {
        if before.remaining().len() == 0 {
            piece is None && after.remaining() == before.remaining()
        } else {
            piece == Some(before.remaining()[0]) && after.remaining()
                == before.remaining().drop_first()
        }
    }

    /// A belt made of `pieces` hands them out in order, one per call of `next`, and then
    /// nothing for ever: after `k` calls the next one gives `pieces[k]` while `k` is below
    /// their number, and nothing afterwards. `states` are the belt before each call and after
    /// the last, `outs` what the calls gave.
    pub proof fn lemma_hands_out_in_order(
        pieces: Seq<Piece<R>>,
        states: Seq<Self>,
        outs: Seq<Option<Piece<R>>>,
    )
        requires
            states.len() == outs.len() + 1,
            states[0].remaining() == pieces,
            forall|i: int|
                0 <= i < outs.len() ==> #[trigger] Self::hands_out(states[i], states[i + 1], outs[i]),
        ensures
            forall|k: int|
                0 <= k < outs.len() ==> #[trigger] outs[k] == if k < pieces.len() {
                    Some(pieces[k])
                } else {
                    None
                },
            states.last().remaining() == if outs.len() < pieces.len() {
                pieces.skip(outs.len() as int)
            } else {
                Seq::<Piece<R>>::empty()
            },
        decreases outs.len(),
    {
        if outs.len() == 0 {
            assert(pieces.skip(0) =~= pieces);
        } else {
            let n = outs.len() - 1;
            let earlier_states = states.drop_last();
            let earlier_outs = outs.drop_last();
            assert forall|i: int| 0 <= i < earlier_outs.len() implies #[trigger] Self::hands_out(
                earlier_states[i],
                earlier_states[i + 1],
                earlier_outs[i],
            ) by {
                assert(Self::hands_out(states[i], states[i + 1], outs[i]));
            }
            Self::lemma_hands_out_in_order(pieces, earlier_states, earlier_outs);
            assert(earlier_states.last() == states[n]);
            assert(Self::hands_out(states[n], states[n + 1], outs[n]));
            if n < pieces.len() {
                assert(pieces.skip(n)[0] == pieces[n]);
                assert(pieces.skip(n).drop_first() =~= if n + 1 < pieces.len() {
                    pieces.skip(n + 1)
                } else {
                    Seq::<Piece<R>>::empty()
                });
            }
            assert forall|k: int| 0 <= k < outs.len() implies #[trigger] outs[k] == if k
                < pieces.len() {
                Some(pieces[k])
            } else {
                None
            } by {
                if k < n {
                    assert(earlier_outs[k] == outs[k]);
                }
            }
        }
    }

    /// A belt that will hand out `pieces` in order.
    pub fn new(pieces: [Piece<R>; N]) -> (belt: Self)
        ensures
            belt.remaining() == pieces@,
            belt.well_formed(),
    {
        let belt = PresetPiecesConveyorBelt { pieces, next: 0 };
        proof {
            assert(belt.pieces@.subrange(0, N as int) =~= pieces@);
        }
        belt
    }
}

impl<R: Copy, const N: usize> ConveyorBelt<R> for PresetPiecesConveyorBelt<R, N> {
    closed spec fn well_formed(&self) -> bool {
        self.next <= N && self.pieces@.len() == N
    }

    /// The first remaining piece, which is no longer remaining; nothing once all were handed out.
    fn next(&mut self) -> (piece: Option<Piece<R>>)
        ensures
            Self::hands_out(*old(self), *final(self), piece),
    {
        if self.next >= N {
            return None;
        }
        let piece = self.pieces[self.next];
        self.next += 1;
        proof {
            assert(self.remaining() =~= old(self).remaining().drop_first());
        }
        Some(piece)
    }
}

/// rand's `Rng::gen_range(0..upper)` on the thread's generator: some number below `upper`
/// (the generator panics on an empty range, hence `upper > 0`).
#[verifier::external_body]
fn random_below(upper: usize) -> (value: usize)
    requires
        upper > 0,
    ensures
        value < upper,
{
    rand::thread_rng().gen_range(0..upper)
}

/// rand's `Rng::gen::<bool>()` on the thread's generator: a coin flip, of which nothing is
/// promised.
#[verifier::external_body]
fn random_bool() -> bool {
    rand::thread_rng().gen()
}

/// A belt that never runs out: each piece has a random shape, one of the belt's colors, and
/// is mirrored or not and turned by half a turn or not, at random.
pub struct InfinitePiecesConveyorBelt<const COLORS: usize> {
    colors: [NominoColor; COLORS],
}

impl<const COLORS: usize> InfinitePiecesConveyorBelt<COLORS> {
    /// The colors the pieces take.
    pub closed spec fn colors(&self) -> Seq<NominoColor> {
        self.colors@
    }

    /// A belt whose pieces take the colors `colors`.
    pub fn new(colors: [NominoColor; COLORS]) -> (belt: Self)
        ensures
            belt.colors() == colors@,
            COLORS > 0 ==> belt.well_formed(),
    {
        InfinitePiecesConveyorBelt { colors }
    }
}

impl<const COLORS: usize> InfinitePiecesConveyorBelt<COLORS> {
    /// The piece made of the draws: the shape at `shape` in the list of shapes, the belt's
    /// color at `color`, mirrored or not, turned by half a turn or not.
    pub open spec fn drawn_piece(&self, shape: int, color: int, mirrored: bool, half_turn: bool) -> Piece<
        Orientation,
    > {
        Piece {
            nomino: spec_nomino_from_index(shape),
            color: self.colors()[color],
            rotation: Orientation { mirrored, quarter_turns: if half_turn { 2 } else { 0 } },
        }
    }

    /// The piece made of the draws `shape`, `color`, `mirrored` and `half_turn`.
    pub fn piece_from_draws(&self, shape: usize, color: usize, mirrored: bool, half_turn: bool) -> (piece: Piece<Orientation>)
        requires
            shape < NOMINO_COUNT,
            color < COLORS,
        ensures
            piece == self.drawn_piece(shape as int, color as int, mirrored, half_turn),
    {
        let nomino = Nomino::from_index(shape).unwrap();
        Piece {
            nomino,
            color: self.colors[color],
            rotation: Orientation { mirrored, quarter_turns: if half_turn { 2 } else { 0 } },
        }
    }
}

impl<const COLORS: usize> ConveyorBelt<Orientation> for InfinitePiecesConveyorBelt<COLORS> {
    closed spec fn well_formed(&self) -> bool {
        self.colors@.len() == COLORS && COLORS > 0
    }

    /// Always a piece: the one made of a random shape, a random one of the belt's colors, a
    /// coin flip for mirroring and one for a half turn.
    fn next(&mut self) -> (piece: Option<Piece<Orientation>>)
        ensures
            final(self).colors() == old(self).colors(),
            exists|shape: int, color: int, mirrored: bool, half_turn: bool|
                0 <= shape < NOMINO_COUNT && 0 <= color < COLORS && piece == Some(
                    old(self).drawn_piece(shape, color, mirrored, half_turn),
                ),
    {
        let next_shape = random_below(NOMINO_COUNT);
        let next_color = random_below(COLORS);
        let mirrored = random_bool();
        let half_turn = random_bool();
        let piece = self.piece_from_draws(next_shape, next_color, mirrored, half_turn);
        proof {
            assert(piece == self.drawn_piece(next_shape as int, next_color as int, mirrored, half_turn));
        }
        Some(piece)
    }
}

impl Default for BeltPieceIds {
    /// No pieces.
    fn default() -> (pieces: BeltPieceIds)
        ensures
            pieces.ids() == Seq::<u64>::empty(),
    {
        BeltPieceIds::new()
    }
}

/// The ids of the pieces on the belt, from the first (leftmost) one, held in a smallvec
/// `SmallVec` that Verus does not look into.
#[verifier::external_body]
pub struct BeltPieceIds {
    ids: SmallVec<[u64; 9]>,
}

/// The ids held, in order.
pub uninterp spec fn belt_piece_ids(pieces: BeltPieceIds) -> Seq<u64>;

/// What placing a piece changed on the belt.
#[derive(Debug, Clone, Copy, PartialEq, Eq, Structural)]
pub struct PiecePlacementUpdate {
    /// Where the placed piece was on the belt.
    pub removed_at: usize,
    /// The piece that moved into the last selectable place, if any.
    pub newly_selectable: Option<u64>,
}

impl BeltPieceIds {
    /// The ids, from the first piece on.
    pub open spec fn ids(&self) -> Seq<u64> {
        belt_piece_ids(*self)
    }

    /// smallvec's `SmallVec::new`: no pieces.
    #[verifier::external_body]
    fn ids_new() -> (pieces: BeltPieceIds)
        ensures
            belt_piece_ids(pieces) == Seq::<u64>::empty(),
    {
        BeltPieceIds { ids: SmallVec::new() }
    }

    /// smallvec's `SmallVec::len`: the number of pieces.
    #[verifier::external_body]
    fn ids_len(&self) -> (len: usize)
        ensures
            len == belt_piece_ids(*self).len(),
    {
        self.ids.len()
    }

    /// Indexing a `SmallVec` through its slice: the id at `index`.
    #[verifier::external_body]
    fn ids_at(&self, index: usize) -> (id: u64)
        requires
            index < belt_piece_ids(*self).len(),
        ensures
            id == belt_piece_ids(*self)[index as int],
    {
        self.ids[index]
    }

    /// smallvec's `SmallVec::push`: the id is added at the end.
    #[verifier::external_body]
    fn ids_push(&mut self, id: u64)
        requires
            belt_piece_ids(*old(self)).len() < usize::MAX,
        ensures
            belt_piece_ids(*final(self)) == belt_piece_ids(*old(self)).push(id),
    {
        self.ids.push(id)
    }

    /// smallvec's `SmallVec::remove`: the id at `index` is taken out and returned, the ones
    /// after it move one place down (the crate panics on an index out of bounds).
    #[verifier::external_body]
    fn ids_remove(&mut self, index: usize) -> (id: u64)
        requires
            index < belt_piece_ids(*old(self)).len(),
        ensures
            id == belt_piece_ids(*old(self))[index as int],
            belt_piece_ids(*final(self)) == belt_piece_ids(*old(self)).remove(index as int),
    {
        self.ids.remove(index)
    }

    /// No pieces.
    pub fn new() -> (pieces: BeltPieceIds)
        ensures
            pieces.ids() == Seq::<u64>::empty(),
    {
        BeltPieceIds::ids_new()
    }

    /// The number of pieces.
    pub fn len(&self) -> (len: usize)
        ensures
            len == self.ids().len(),
    {
        self.ids_len()
    }

    /// Puts a piece at the end of the belt.
    pub fn push(&mut self, id: u64)
        requires
            old(self).ids().len() < usize::MAX,
        ensures
            final(self).ids() == old(self).ids().push(id),
    {
        self.ids_push(id);
    }

    /// Takes the piece at `index` off the belt and returns its id; the pieces after it move one
    /// place down.
    pub fn remove(&mut self, index: usize) -> (id: u64)
        requires
            index < old(self).ids().len(),
        ensures
            id == old(self).ids()[index as int],
            final(self).ids() == old(self).ids().remove(index as int),
    {
        self.ids_remove(index)
    }

    /// No piece is on the belt.
    pub fn is_empty(&self) -> (empty: bool)
        ensures
            empty == (self.ids().len() == 0),
    {
        self.len() == 0
    }

    /// The id of the piece at `index`, if there is one.
    pub fn get(&self, index: usize) -> (id: Option<u64>)
        ensures
            index < self.ids().len() ==> id == Some(self.ids()[index as int]),
            index >= self.ids().len() ==> id is None,
    {
        if index < self.len() {
            Some(self.ids_at(index))
        } else {
            None
        }
    }

    /// The place of the first piece with id `id`, if any.
    pub fn position(&self, id: u64) -> (index: Option<usize>)
        ensures
            index is None ==> !self.ids().contains(id),
            index matches Some(i) ==> i < self.ids().len() && self.ids()[i as int] == id && forall|
                j: int,
            | 0 <= j < i ==> self.ids()[j] != id,
    {
        let n = self.len();
        let mut i: usize = 0;
        while i < n
            invariant
                n == self.ids().len(),
                i <= n,
                forall|j: int| 0 <= j < i ==> self.ids()[j] != id,
            decreases n - i,
        {
            if self.ids_at(i) == id {
                return Some(i);
            }
            i += 1;
        }
        None
    }

}

/// A piece at `index` on the belt can be picked when it is among the first
/// `num_pieces_selectable` pieces.
pub fn piece_is_selectable(index: usize, num_pieces_selectable: u8) -> (selectable: bool)
    ensures
        selectable == (index < num_pieces_selectable),
{
    index < num_pieces_selectable as usize
}

/// Takes a placed piece off the belt: if it is there, its first occurrence is removed and,
/// when more than one piece is selectable, the piece that moved into the last selectable
/// place (if any) is returned as newly selectable.
pub fn remove_placed_piece(
    belt_pieces: &mut BeltPieceIds,
    placed: u64,
    num_pieces_selectable: u8,
) -> (update: Option<PiecePlacementUpdate>)
    ensures
        update is None ==> !old(belt_pieces).ids().contains(placed) && final(belt_pieces).ids()
            == old(belt_pieces).ids(),
        update matches Some(u) ==> {
            &&& u.removed_at < old(belt_pieces).ids().len()
            &&& old(belt_pieces).ids()[u.removed_at as int] == placed
            &&& forall|j: int| 0 <= j < u.removed_at ==> old(belt_pieces).ids()[j] != placed
            &&& final(belt_pieces).ids() == old(belt_pieces).ids().remove(u.removed_at as int)
            &&& u.newly_selectable == if num_pieces_selectable > 1 && num_pieces_selectable - 1
                < final(belt_pieces).ids().len() {
                Some(final(belt_pieces).ids()[num_pieces_selectable - 1])
            } else {
                None
            }
        },
{
    match belt_pieces.position(placed) {
        None => None,
        Some(removed_at) => {
            belt_pieces.remove(removed_at);
            let newly_selectable = if num_pieces_selectable > 1 {
                belt_pieces.get(num_pieces_selectable as usize - 1)
            } else {
                None
            };
            Some(PiecePlacementUpdate { removed_at, newly_selectable })
        },
    }
}

/// Where a picked piece goes back to when its placement is undone: the place of its first
/// occurrence on the belt, and its orientation after the undo. The piece must be on the belt,
/// at one of its first 256 places.
pub fn undo_selection_target(
    belt_pieces: &BeltPieceIds,
    piece: u64,
    current_level: u16,
    orientation: Orientation,
) -> (target: (u8, Orientation))
    requires
        exists|i: int| 0 <= i < 256 && i < belt_pieces.ids().len() && belt_pieces.ids()[i] == piece,
    ensures
        target.0 < belt_pieces.ids().len(),
        belt_pieces.ids()[target.0 as int] == piece,
        forall|j: int| 0 <= j < target.0 ==> belt_pieces.ids()[j] != piece,
        target.1 == orientation.after_undo(current_level),
{
    let index = belt_pieces.position(piece).unwrap();
    proof {
        let i = choose|i: int| 0 <= i < 256 && i < belt_pieces.ids().len() && belt_pieces.ids()[i] == piece;
        assert(index <= i);
    }
    (index as u8, orientation.after_undo(current_level))
}

/// The belt ran empty: its pieces changed this frame and none is left.
pub fn belt_empty_check(belt_pieces: &BeltPieceIds, changed: bool) -> (empty: bool)
    ensures
        empty == (changed && belt_pieces.ids().len() == 0),
{
    changed && belt_pieces.is_empty()
}

/// Whether the pieces on the belt are animated towards their places.
#[derive(Debug, Clone, Copy, PartialEq, Eq, Structural)]
pub enum PieceMovementFsm {
    /// A level has just started: the first change of the belt is its loading.
    Ready,
    /// The belt is loaded: changes move the pieces.
    Loaded,
}

impl Default for PieceMovementFsm {
    /// The state at the start.
    fn default() -> (fsm: PieceMovementFsm)
        ensures
            fsm == PieceMovementFsm::Ready,
    {
        PieceMovementFsm::Ready
    }
}

impl PieceMovementFsm {
    /// One frame: a level start resets the state; then, if there is a belt whose pieces
    /// changed, the first change after a reset only marks the belt loaded and the later
    /// ones ask for the pieces to move. Returns the new state and whether to move them.
    pub fn step(self, level_started: bool, belt_changed: Option<bool>) -> (result: (
        PieceMovementFsm,
        bool,
    ))
        ensures
            ({
                let fsm = if level_started {
                    PieceMovementFsm::Ready
                } else {
                    self
                };
                match belt_changed {
                    Some(true) => if fsm == PieceMovementFsm::Ready {
                        result == (PieceMovementFsm::Loaded, false)
                    } else {
                        result == (fsm, true)
                    },
                    _ => result == (fsm, false),
                }
            }),
    {
        let fsm = if level_started {
            PieceMovementFsm::Ready
        } else {
            self
        };
        match belt_changed {
            Some(true) => match fsm {
                PieceMovementFsm::Ready => (PieceMovementFsm::Loaded, false),
                PieceMovementFsm::Loaded => (fsm, true),
            },
            _ => (fsm, false),
        }
    }
}

/// Settings of the conveyor belt.
pub struct ConveyorBeltOptions {
    /// How many of the first pieces the player can pick.
    pub num_pieces_selectable: u8,
}

impl Default for ConveyorBeltOptions {
    /// The first three pieces can be picked.
    fn default() -> (options: ConveyorBeltOptions)
        ensures
            options.num_pieces_selectable == 3,
    {
        ConveyorBeltOptions { num_pieces_selectable: 3 }
    }
}

/// The place of the first belt slot holding `id`, if any.
pub fn find_belt_slot(slots: &[Option<u64>; 9], id: u64) -> (index: Option<usize>)
    ensures
        index is None ==> forall|j: int| 0 <= j < 9 ==> slots@[j] != Some(id),
        index matches Some(i) ==> i < 9 && slots@[i as int] == Some(id) && forall|j: int|
            0 <= j < i ==> slots@[j] != Some(id),
{
    let mut i: usize = 0;
    while i < 9
        invariant
            i <= 9,
            forall|j: int| 0 <= j < i ==> slots@[j] != Some(id),
        decreases 9 - i,
    {
        if slots[i] == Some(id) {
            return Some(i);
        }
        i += 1;
    }
    None
}

/// Takes the piece in slot `from` off a belt of fixed slots: the later slots move one place
/// down and the last slot gets `last`, the next piece of the belt if there is one.
pub fn shift_belt_slots(slots: &mut [Option<u64>; 9], from: usize, last: Option<u64>)
    requires
        from < 9,
    ensures
        forall|j: int| 0 <= j < from ==> final(slots)@[j] == old(slots)@[j],
        forall|j: int| from <= j < 8 ==> final(slots)@[j] == old(slots)@[j + 1],
        final(slots)@[8] == last,
{
    let mut i = from;
    while i < 8
        invariant
            from <= i <= 8,
            forall|j: int| 0 <= j < from ==> slots@[j] == old(slots)@[j],
            forall|j: int| from <= j < i ==> slots@[j] == old(slots)@[j + 1],
            forall|j: int| i <= j < 9 ==> slots@[j] == old(slots)@[j],
        decreases 8 - i,
    {
        slots[i] = slots[i + 1];
        i += 1;
    }
    slots[8] = last;
}

} // verus!
