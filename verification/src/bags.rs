use vstd::prelude::*;

use crate::nominos::NominoColor;

verus! {

/// The width and height of a bag, in blocks.
#[derive(Debug, Clone, Copy, PartialEq, Eq, Structural)]
pub struct BagSize {
    width: u8,
    height: u8,
}

/// The space between two bags side by side, in blocks.
pub const BAG_SPACING: u8 = 2;

impl BagSize {
    pub closed spec fn spec_width(self) -> u8 {
        self.width
    }

    pub closed spec fn spec_height(self) -> u8 {
        self.height
    }

    /// A bag `width` blocks wide and `height` blocks high.
    pub fn new(width: u8, height: u8) -> (size: BagSize)
        ensures
            size.width() == width,
            size.height() == height,
    {
        BagSize { width, height }
    }

    /// The large bag: 6 by 6 blocks.
    pub fn large() -> (size: BagSize)
        ensures
            size.width() == 6,
            size.height() == 6,
    {
        BagSize { width: 6, height: 6 }
    }

    /// The small bag: 3 blocks wide, 4 high.
    pub fn small() -> (size: BagSize)
        ensures
            size.width() == 3,
            size.height() == 4,
    {
        BagSize { width: 3, height: 4 }
    }

    /// The width in blocks.
    #[verifier::when_used_as_spec(spec_width)]
    pub fn width(self) -> (width: u8)
        ensures
            width == self.spec_width(),
    {
        self.width
    }

    /// The height in blocks.
    #[verifier::when_used_as_spec(spec_height)]
    pub fn height(self) -> (height: u8)
        ensures
            height == self.spec_height(),
    {
        self.height
    }

    /// The number of blocks the bag holds.
    pub fn capacity(self) -> (capacity: u8)
        requires
            self.height() * self.width() <= u8::MAX,
        ensures
            capacity == self.height() * self.width(),
    {
        self.height * self.width
    }
}

/// The sum of the widths of the bags, plus `BAG_SPACING` for each bag after the first.
pub open spec fn spec_container_width(sizes: Seq<BagSize>) -> int
    decreases sizes.len(),
{
    if sizes.len() == 0 {
        0
    } else if sizes.len() == 1 {
        sizes[0].width() as int
    } else {
        spec_container_width(sizes.drop_last()) + BAG_SPACING + sizes.last().width()
    }
}

/// The space, in blocks, that bags of the given sizes take side by side, `BAG_SPACING` apart.
/// The running total is kept in a `u8`, so the widths plus a spacing per bag must fit in one.
pub fn container_space_needed(sizes: &[BagSize]) -> (space: u8)
    requires
        sizes@.len() >= 1,
        spec_container_width(sizes@) + BAG_SPACING <= u8::MAX,
    ensures
        space == spec_container_width(sizes@),
{
    let n = sizes.len();
    let mut space_needed: u8 = 0;
    let mut i: usize = 0;
    while i < n
        invariant
            n == sizes@.len(),
            n >= 1,
            i <= n,
            spec_container_width(sizes@) + BAG_SPACING <= u8::MAX,
            i > 0 ==> space_needed == spec_container_width(sizes@.take(i as int)) + BAG_SPACING,
            i == 0 ==> space_needed == 0,
        decreases n - i,
    {
        proof {
            lemma_container_width_prefix(sizes@, i as int + 1);
            assert(sizes@.take(i as int + 1).drop_last() =~= sizes@.take(i as int));
            assert(sizes@.take(i as int + 1).last() == sizes@[i as int]);
        }
        space_needed += sizes[i].width() + BAG_SPACING;
        i += 1;
    }
    proof {
        assert(sizes@.take(n as int) =~= sizes@);
        lemma_container_width_nonnegative(sizes@);
    }
    space_needed -= BAG_SPACING;
    space_needed
}

/// The width of the first bags is at most the width of all of them.
proof fn lemma_container_width_prefix(sizes: Seq<BagSize>, k: int)
    requires
        1 <= k <= sizes.len(),
    ensures
        spec_container_width(sizes.take(k)) <= spec_container_width(sizes),
        spec_container_width(sizes.take(k)) >= 0,
    decreases sizes.len() - k,
{
    if k < sizes.len() {
        lemma_container_width_prefix(sizes, k + 1);
        assert(sizes.take(k + 1).drop_last() =~= sizes.take(k));
    } else {
        assert(sizes.take(k) =~= sizes);
    }
    lemma_container_width_nonnegative(sizes.take(k));
}

proof fn lemma_container_width_nonnegative(sizes: Seq<BagSize>)
    ensures
        spec_container_width(sizes) >= 0,
    decreases sizes.len(),
{
    if sizes.len() > 1 {
        lemma_container_width_nonnegative(sizes.drop_last());
    }
}

/// Every cell of the top row of the bag holds a block.
pub open spec fn spec_top_row_full(blocks: Seq<Vec<Option<NominoColor>>>) -> bool {
    forall|c: int| 0 <= c < blocks.last()@.len() ==> (#[trigger] blocks.last()@[c]) is Some
}

/// Whether the top row of the bag (its last row) is full, which fills the bag.
pub fn top_row_full(blocks: &[Vec<Option<NominoColor>>]) -> (full: bool)
    requires
        blocks@.len() >= 1,
    ensures
        full == spec_top_row_full(blocks@),
{
    let top = &blocks[blocks.len() - 1];
    let mut c: usize = 0;
    while c < top.len()
        invariant
            top@ == blocks@.last()@,
            c <= top@.len(),
            forall|k: int| 0 <= k < c ==> (#[trigger] top@[k]) is Some,
        decreases top@.len() - c,
    {
        if top[c].is_none() {
            return false;
        }
        c += 1;
    }
    true
}

/// A bag is full exactly when no cell of its top row is empty: one empty cell of the top row,
/// in any column, keeps the bag from being full, and a top row of blocks fills it.
pub proof fn lemma_top_row_full_means_no_gap(blocks: Seq<Vec<Option<NominoColor>>>)
    requires
        blocks.len() >= 1,
    ensures
        spec_top_row_full(blocks) <==> !exists|c: int|
            0 <= c < blocks[blocks.len() - 1]@.len() && (#[trigger] blocks[blocks.len() - 1]@[c]) is None,
{
    assert(blocks.last() == blocks[blocks.len() - 1]);
}

/// Whether filled bags are being replaced.
#[derive(Debug, Clone, Copy, PartialEq, Eq, Structural)]
pub enum BagReplacementFsm {
    /// Each filled bag leaves and a new bag takes its place.
    Ready,
    /// The belt ran empty: all bags leave.
    BeltEmpty,
}

impl Default for BagReplacementFsm {
    /// The state at the start.
    fn default() -> (fsm: BagReplacementFsm)
        ensures
            fsm == BagReplacementFsm::Ready,
    {
        BagReplacementFsm::Ready
    }
}

/// The bags to take away and the bags to replace by a new one.
pub struct BagReplacementActions {
    pub remove: Vec<u64>,
    pub replace: Vec<u64>,
}

/// One frame of bag replacement. When ready, every bag filled this frame is taken away and
/// replaced, and the belt running empty switches to taking every bag away; then all bags
/// (`bags`) are taken away, none replaced, the filled ones of that frame ignored, and the
/// state is ready again.
pub fn replace_full_bags(
    replacement_fsm: &mut BagReplacementFsm,
    filled_bags: &[u64],
    belt_empty: bool,
    bags: &[u64],
) -> (actions: BagReplacementActions)
    ensures
        *old(replacement_fsm) == BagReplacementFsm::Ready ==> {
            &&& actions.remove@ == filled_bags@
            &&& actions.replace@ == filled_bags@
            &&& *final(replacement_fsm) == if belt_empty {
                BagReplacementFsm::BeltEmpty
            } else {
                BagReplacementFsm::Ready
            }
        },
        *old(replacement_fsm) == BagReplacementFsm::BeltEmpty ==> {
            &&& actions.remove@ == bags@
            &&& actions.replace@ == Seq::<u64>::empty()
            &&& *final(replacement_fsm) == BagReplacementFsm::Ready
        },
{
    let mut remove: Vec<u64> = Vec::new();
    let mut replace: Vec<u64> = Vec::new();
    match *replacement_fsm {
        BagReplacementFsm::Ready => {
            let mut i: usize = 0;
            while i < filled_bags.len()
                invariant
                    i <= filled_bags@.len(),
                    remove@ == filled_bags@.take(i as int),
                    replace@ == filled_bags@.take(i as int),
                decreases filled_bags@.len() - i,
            {
                remove.push(filled_bags[i]);
                replace.push(filled_bags[i]);
                proof {
                    assert(filled_bags@.take(i as int + 1) =~= filled_bags@.take(i as int).push(
                        filled_bags@[i as int],
                    ));
                }
                i += 1;
            }
            proof {
                assert(filled_bags@.take(filled_bags@.len() as int) =~= filled_bags@);
            }
            if belt_empty {
                *replacement_fsm = BagReplacementFsm::BeltEmpty;
            }
        },
        BagReplacementFsm::BeltEmpty => {
            let mut i: usize = 0;
            while i < bags.len()
                invariant
                    i <= bags@.len(),
                    remove@ == bags@.take(i as int),
                    replace@ == Seq::<u64>::empty(),
                decreases bags@.len() - i,
            {
                remove.push(bags[i]);
                proof {
                    assert(bags@.take(i as int + 1) =~= bags@.take(i as int).push(bags@[i as int]));
                }
                i += 1;
            }
            proof {
                assert(bags@.take(bags@.len() as int) =~= bags@);
            }
            *replacement_fsm = BagReplacementFsm::Ready;
        },
    }
    BagReplacementActions { remove, replace }
}

} // verus!
