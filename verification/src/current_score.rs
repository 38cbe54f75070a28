use std::collections::HashMap;
use vstd::prelude::*;

use crate::connectivity::{bag_grid, is_well_formed_bag};
use crate::nominos::NominoColor;
use crate::scoring::{score_bag, spec_score_bag};

verus! {

broadcast use vstd::std_specs::hash::group_hash_axioms;

/// The sum of the scores of a map from bags to scores.
pub open spec fn total(scores: Map<u64, u16>) -> int
    decreases scores.dom().len(),
    when scores.dom().finite()
{
    if scores.dom().len() == 0 {
        0
    } else {
        let bag = scores.dom().choose();
        scores[bag] + total(scores.remove(bag))
    }
}

/// The player's score: the points of the current level, the points of all levels played, and
/// the last score given to each bag of the level that is still in play.
pub struct CurrentScore {
    pub points: usize,
    pub all_time_points: usize,
    score_map: HashMap<u64, u16>,
}

/// `after` is `before` with `bag` given the score `bag_score`: `diff` is the new score less
/// the old one (0 when there was none), and the points moved by `diff`.
pub open spec fn records_bag_score(
    before: CurrentScore,
    after: CurrentScore,
    bag: u64,
    bag_score: u16,
    diff: int,
) -> bool {
    &&& diff == bag_score - before.bag_score_or_zero(bag)
    &&& after.level_points() == before.level_points() + diff
    &&& after.all_levels_points() == before.all_levels_points() + diff
    &&& after.bag_score(bag) == Some(bag_score)
    &&& forall|other: u64| other != bag ==> after.bag_score(other) == before.bag_score(other)
    &&& after.bag_score_total() == before.bag_score_total() + diff
}

/// Scoring a bag again with the score it already has changes nothing: the difference is 0
/// and all points and bag scores stay as they were.
pub proof fn lemma_rescore_unchanged(
    before: CurrentScore,
    after: CurrentScore,
    bag: u64,
    bag_score: u16,
    diff: int,
)
    requires
        before.bag_score(bag) == Some(bag_score),
        records_bag_score(before, after, bag, bag_score, diff),
    ensures
        diff == 0,
        after.level_points() == before.level_points(),
        after.all_levels_points() == before.all_levels_points(),
        forall|b: u64| after.bag_score(b) == before.bag_score(b),
{
}

/// Scoring a bag twice in a row counts only the second score: the two differences add up to
/// the second score less the bag's score before both.
pub proof fn lemma_rescore_counts_last(
    first: CurrentScore,
    second: CurrentScore,
    third: CurrentScore,
    bag: u64,
    score_1: u16,
    score_2: u16,
    diff_1: int,
    diff_2: int,
)
    requires
        records_bag_score(first, second, bag, score_1, diff_1),
        records_bag_score(second, third, bag, score_2, diff_2),
    ensures
        diff_1 + diff_2 == score_2 - first.bag_score_or_zero(bag),
        third.level_points() == first.level_points() + score_2 - first.bag_score_or_zero(bag),
{
}

/// A change of the score caused by a bag.
#[derive(Debug, Clone, Copy, PartialEq, Eq, Structural)]
pub struct ScoreChanged {
    pub cause: u64,
    pub diff: isize,
}

impl Default for CurrentScore {
    /// No points, and no bag has a score.
    fn default() -> (score: CurrentScore)
        ensures
            score.well_formed(),
            score.level_points() == 0,
            score.all_levels_points() == 0,
            forall|bag: u64| score.bag_score(bag) is None,
    {
        CurrentScore::new()
    }
}

impl CurrentScore {
    /// The points of the current level.
    pub closed spec fn level_points(&self) -> int {
        self.points as int
    }

    /// The points of all levels played.
    pub closed spec fn all_levels_points(&self) -> int {
        self.all_time_points as int
    }

    /// The last score given to `bag`, if it has one.
    pub closed spec fn bag_score(&self, bag: u64) -> Option<u16> {
        if self.score_map@.contains_key(bag) {
            Some(self.score_map@[bag])
        } else {
            None
        }
    }

    /// The sum of the scores of the bags that have one.
    pub closed spec fn bag_score_total(&self) -> int {
        total(self.score_map@)
    }

    /// The level's points include all bag scores, and the points of all levels include the
    /// level's points.
    pub open spec fn well_formed(&self) -> bool {
        self.bag_score_total() <= self.level_points() <= self.all_levels_points()
    }

    /// No points, and no bag has a score.
    pub fn new() -> (score: CurrentScore)
        ensures
            score.well_formed(),
            score.level_points() == 0,
            score.all_levels_points() == 0,
            forall|bag: u64| score.bag_score(bag) is None,
            score.bag_score_total() == 0,
    {
        CurrentScore { points: 0, all_time_points: 0, score_map: HashMap::new() }
    }

    /// The score of `bag`, 0 if it has none.
    pub open spec fn bag_score_or_zero(&self, bag: u64) -> int {
        match self.bag_score(bag) {
            Some(s) => s as int,
            None => 0,
        }
    }

    /// Gives `bag` the score `bag_score` and moves the points by the difference from its
    /// previous score (0 if it had none), which is returned.
    pub fn record_bag_score(&mut self, bag: u64, bag_score: u16) -> (diff: isize)
        requires
            old(self).well_formed(),
            old(self).all_levels_points() + u16::MAX <= isize::MAX,
        ensures
            final(self).well_formed(),
            records_bag_score(*old(self), *final(self), bag, bag_score, diff as int),
    {
        let ghost before = self.score_map@;
        proof {
            lemma_total_nonnegative(before);
        }
        let previous: u16 = match self.score_map.get(&bag) {
            Some(previous) => *previous,
            None => 0,
        };
        self.score_map.insert(bag, bag_score);
        proof {
            let after = self.score_map@;
            lemma_total_remove(after, bag);
            if before.contains_key(bag) {
                lemma_total_remove(before, bag);
                lemma_total_nonnegative(before.remove(bag));
                assert(after.remove(bag) =~= before.remove(bag));
            } else {
                assert(after.remove(bag) =~= before);
            }
        }
        let diff = (bag_score as i32 - previous as i32) as isize;
        self.points = (self.points as isize + diff) as usize;
        self.all_time_points = (self.all_time_points as isize + diff) as usize;
        diff
    }

    /// Forgets the score of `bag`, which left the level; the points stay as they are.
    pub fn forget_bag(&mut self, bag: u64)
        requires
            old(self).well_formed(),
        ensures
            final(self).well_formed(),
            final(self).level_points() == old(self).level_points(),
            final(self).all_levels_points() == old(self).all_levels_points(),
            final(self).bag_score(bag) is None,
            forall|other: u64| other != bag ==> final(self).bag_score(other) == old(self).bag_score(other),
    {
        let ghost before = self.score_map@;
        self.score_map.remove(&bag);
        proof {
            if before.contains_key(bag) {
                lemma_total_remove(before, bag);
            } else {
                assert(before.remove(bag) =~= before);
            }
            lemma_total_nonnegative(before.remove(bag));
        }
    }

    /// Starts a level: the level's points go back to 0 and no bag has a score; when the level
    /// started is the one played before (`prev_level`), it is a replay and its points are
    /// taken back from the points of all levels. `prev_level` becomes the level started.
    pub fn start_level(&mut self, started: u16, prev_level: &mut u16)
        requires
            old(self).well_formed(),
        ensures
            final(self).well_formed(),
            final(self).level_points() == 0,
            final(self).all_levels_points() == if started == *old(prev_level) {
                old(self).all_levels_points() - old(self).level_points()
            } else {
                old(self).all_levels_points()
            },
            forall|bag: u64| final(self).bag_score(bag) is None,
            *final(prev_level) == started,
    {
        if started == *prev_level {
            self.all_time_points -= self.points;
        }
        self.points = 0;
        self.score_map.clear();
        *prev_level = started;
    }
}

/// Applies a change of the blocks of `bag`, a bag of `capacity` cells: the bag is scored and
/// its score recorded; the change of points is returned.
pub fn score_bags(
    current_score: &mut CurrentScore,
    bag: u64,
    blocks: &[Vec<Option<NominoColor>>],
    capacity: u8,
) -> (change: ScoreChanged)
    requires
        old(current_score).well_formed(),
        old(current_score).all_levels_points() + u16::MAX <= isize::MAX,
        is_well_formed_bag(bag_grid(blocks@)),
        capacity == blocks@.len() * blocks@[0]@.len(),
    ensures
        final(current_score).well_formed(),
        final(current_score).bag_score(bag) == Some(spec_score_bag(bag_grid(blocks@), capacity as nat) as u16),
        forall|other: u64|
            other != bag ==> final(current_score).bag_score(other) == old(current_score).bag_score(other),
        change.cause == bag,
        change.diff == spec_score_bag(bag_grid(blocks@), capacity as nat) - old(
            current_score,
        ).bag_score_or_zero(bag),
        final(current_score).level_points() == old(current_score).level_points() + change.diff,
        final(current_score).all_levels_points() == old(current_score).all_levels_points() + change.diff,
{
    let total_bag_score = score_bag(blocks, capacity);
    let diff = current_score.record_bag_score(bag, total_bag_score);
    ScoreChanged { cause: bag, diff }
}

/// Starts the level `started`; see `CurrentScore::start_level`.
pub fn reset_score(current_score: &mut CurrentScore, started: u16, prev_level: &mut u16)
    requires
        old(current_score).well_formed(),
    ensures
        final(current_score).well_formed(),
        final(current_score).level_points() == 0,
        final(current_score).all_levels_points() == if started == *old(prev_level) {
            old(current_score).all_levels_points() - old(current_score).level_points()
        } else {
            old(current_score).all_levels_points()
        },
        forall|bag: u64| final(current_score).bag_score(bag) is None,
        *final(prev_level) == started,
{
    current_score.start_level(started, prev_level);
}

/// Forgets the score of a bag that was filled and left the level.
pub fn reclaim_memory(current_score: &mut CurrentScore, filled_bag: u64)
    requires
        old(current_score).well_formed(),
    ensures
        final(current_score).well_formed(),
        final(current_score).level_points() == old(current_score).level_points(),
        final(current_score).all_levels_points() == old(current_score).all_levels_points(),
        final(current_score).bag_score(filled_bag) is None,
        forall|other: u64|
            other != filled_bag ==> final(current_score).bag_score(other) == old(
                current_score,
            ).bag_score(other),
{
    current_score.forget_bag(filled_bag);
}

/// The total is never negative.
proof fn lemma_total_nonnegative(scores: Map<u64, u16>)
    requires
        scores.dom().finite(),
    ensures
        total(scores) >= 0,
    decreases scores.dom().len(),
{
    if scores.dom().len() > 0 {
        let bag = scores.dom().choose();
        lemma_total_nonnegative(scores.remove(bag));
    }
}

/// The total is any one bag's score plus the total of the others.
proof fn lemma_total_remove(scores: Map<u64, u16>, bag: u64)
    requires
        scores.dom().finite(),
        scores.dom().contains(bag),
    ensures
        total(scores) == scores[bag] + total(scores.remove(bag)),
    decreases scores.dom().len(),
{
    let first = scores.dom().choose();
    if first != bag {
        let without_first = scores.remove(first);
        let without_bag = scores.remove(bag);
        lemma_total_remove(without_first, bag);
        lemma_total_remove(without_bag, first);
        assert(without_first.remove(bag) =~= without_bag.remove(first));
    }
}

} // verus!
