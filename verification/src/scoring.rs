use vstd::prelude::*;
use vstd::relations::{sorted_by, total_ordering};

use crate::connectivity::{
    bag_grid, connected_cells, connected_to_top, get_connected_empties_count, is_open_path,
    is_well_formed_bag, spec_connected_empties_count,
};
use crate::grid::{
    count_in_grid, count_in_row, is_rectangular, lemma_count_grid_bound, lemma_count_grid_take_step,
    lemma_count_row_bound, lemma_count_row_take_step, marked,
};
use crate::nominos::{spec_color_from_index, spec_color_index, NominoColor, NOMINO_COLOR_COUNT};

verus! {

/// Points earned by each block placed in a bag.
pub const BLOCK_POINT_VALUE: u16 = 25;

/// Bonus points for a color that fills a whole bag.
pub const PERFECT_BAG_BONUS: u16 = 100;

/// Base scores are kept multiplied by this number, a multiple of 1, 2, ..., 7, so that the
/// rank bonus `1 / (rank + 1)` of every color rank stays a whole number.
pub const BASE_SCORE_SCALE: u64 = 420;

/// The test that a cell holds a block.
pub open spec fn is_block() -> spec_fn(Option<NominoColor>) -> bool {
    |cell: Option<NominoColor>| cell is Some
}

/// The test that a cell holds a block of `color`.
pub open spec fn holds_color(color: NominoColor) -> spec_fn(Option<NominoColor>) -> bool {
    |cell: Option<NominoColor>| cell == Some(color)
}

/// The number of blocks in the bag.
pub open spec fn spec_block_count(g: Seq<Seq<Option<NominoColor>>>) -> nat {
    count_in_grid(g, is_block())
}

/// The number of blocks of the color at position `k` of the list of colors.
pub open spec fn color_count(g: Seq<Seq<Option<NominoColor>>>, k: int) -> nat {
    count_in_grid(g, holds_color(spec_color_from_index(k).unwrap()))
}

/// The number of blocks of each color, in the order of the list of colors.
pub open spec fn color_counts(g: Seq<Seq<Option<NominoColor>>>) -> Seq<u8> {
    Seq::new(NOMINO_COLOR_COUNT as nat, |k: int| color_count(g, k) as u8)
}

/// The order from the largest number to the smallest.
pub open spec fn descending() -> spec_fn(u8, u8) -> bool {
    |a: u8, b: u8| b <= a
}

/// The number of blocks of each color, largest first.
pub open spec fn sorted_color_counts(g: Seq<Seq<Option<NominoColor>>>) -> Seq<u8> {
    color_counts(g).sort_by(descending())
}

/// The raw points of `count` blocks of one color, with the bonus if they fill the bag.
pub open spec fn raw_points(count: nat, capacity: nat) -> nat {
    count * 25 + if count == capacity {
        100nat
    } else {
        0nat
    }
}

/// `BASE_SCORE_SCALE` times the base score of the colors from rank `i` on: each color, down
/// to the first one without blocks, adds its raw points times `1 + 1 / (rank + 1)`.
pub open spec fn spec_base_score_from(counts: Seq<u8>, i: int, capacity: nat) -> int
    decreases counts.len() - i,
{
    if i < 0 || i >= counts.len() || counts[i] == 0 {
        0
    } else {
        raw_points(counts[i] as nat, capacity) * (i + 2) * (420int / (i + 1)) + spec_base_score_from(
            counts,
            i + 1,
            capacity,
        )
    }
}

/// The number of open cells of the bag that no open path links to its top.
pub open spec fn spec_hole_count(g: Seq<Seq<Option<NominoColor>>>, capacity: nat) -> int {
    capacity - spec_block_count(g) - spec_connected_empties_count(g)
}

/// `value / 420`, rounded half away from zero, as a `u16`: negative results become 0 and
/// results above `u16::MAX` become `u16::MAX`.
pub open spec fn round_scaled_to_u16(value: int) -> int {
    if value <= 0 {
        0
    } else if (2 * value + 420) / 840 > u16::MAX {
        u16::MAX as int
    } else {
        (2 * value + 420) / 840
    }
}

/// The score of a bag: its base score less 25 points per hole, times its fill multiplier.
///
/// The sum is exact. Summed in single-precision floating point instead, with the rank
/// weights `1 + 1 / (rank + 1)` rounded, it gives the same score on every bag of 8, 12 or 36
/// cells holding at most five colors; with six colors or more the float sum can land just
/// below a half point that the exact sum reaches, and the score is then one point lower: a
/// 6 by 6 bag with its top two rows empty, 19 blocks of one color and one block of each of
/// five others scores 2223 here and 2222 in floats.
pub open spec fn spec_score_bag(g: Seq<Seq<Option<NominoColor>>>, capacity: nat) -> int {
    let blocks = spec_block_count(g);
    let base = spec_base_score_from(sorted_color_counts(g), 0, capacity);
    let penalty = spec_hole_count(g, capacity) * 25 * 420;
    round_scaled_to_u16(spec_bag_fill_multiplier(blocks as int, capacity as int) * (base - penalty))
}

/// The multiplier a bag earns from how full it is.
pub open spec fn spec_bag_fill_multiplier(block_count: int, capacity: int) -> int {
    let threshold_1 = capacity / 2 + 2;
    let threshold_2 = (capacity / 4) * 3 + 2;
    if 0 <= block_count < threshold_1 {
        1
    } else if threshold_1 <= block_count < threshold_2 {
        2
    } else if threshold_2 <= block_count < capacity {
        5
    } else {
        10
    }
}

/// Computes the fill multiplier of a bag holding `block_count` blocks out of `capacity`.
pub fn calculate_bag_fill_multiplier(block_count: u8, capacity: u8) -> (multiplier: u16)
    ensures
        multiplier == spec_bag_fill_multiplier(block_count as int, capacity as int),
{
    let threshold_1 = capacity / 2 + 2;
    let threshold_2 = (capacity / 4) * 3 + 2;
    if block_count < threshold_1 {
        1
    } else if threshold_1 <= block_count && block_count < threshold_2 {
        2
    } else if threshold_2 <= block_count && block_count < capacity {
        5
    } else {
        10
    }
}

/// Computes `BASE_SCORE_SCALE` times the base score of per-color block counts sorted from the
/// largest: each color, down to the first one without blocks, earns 25 points per block (and
/// 100 more when it fills the bag) times `1 + 1 / (rank + 1)`.
pub fn calculate_base_score(color_map: &[u8], capacity: u8) -> (score: u64)
    requires
        color_map@.len() <= NOMINO_COLOR_COUNT,
    ensures
        score == spec_base_score_from(color_map@, 0, capacity as nat),
{
    let n = color_map.len();
    let mut score: u64 = 0;
    let mut i: usize = 0;
    while i < n
        invariant
            n == color_map@.len(),
            n <= 7,
            i <= n,
            score + spec_base_score_from(color_map@, i as int, capacity as nat) == spec_base_score_from(
                color_map@,
                0,
                capacity as nat,
            ),
            score <= i * 6475 * 8 * 420,
        decreases n - i,
    {
        let color_count = color_map[i];
        if color_count == 0 {
            return score;
        }
        let perfect_bag_bonus = color_count == capacity;
        let mut raw_points: u64 = color_count as u64 * BLOCK_POINT_VALUE as u64;
        if perfect_bag_bonus {
            raw_points += PERFECT_BAG_BONUS as u64;
        }
        let rank = i as u64;
        let rank_bonus = BASE_SCORE_SCALE / (rank + 1);
        proof {
            assert(raw_points <= 6475);
            assert(rank_bonus <= 420) by (nonlinear_arith)
                requires
                    rank_bonus == 420int / (rank + 1),
                    rank >= 0,
            ;
            assert(raw_points * (rank + 2) <= 6475 * 8) by (nonlinear_arith)
                requires
                    raw_points <= 6475,
                    rank < 7,
            ;
            assert(raw_points * (rank + 2) * rank_bonus <= 6475 * 8 * 420) by (nonlinear_arith)
                requires
                    raw_points <= 6475,
                    rank < 7,
                    rank_bonus <= 420,
            ;
            assert(score + raw_points * (rank + 2) * rank_bonus <= (i + 1) * 6475 * 8 * 420) by (nonlinear_arith)
                requires
                    score <= i * 6475 * 8 * 420,
                    raw_points * (rank + 2) * rank_bonus <= 6475 * 8 * 420,
            ;
        }
        score = score + raw_points * (rank + 2) * rank_bonus;
        i += 1;
    }
    score
}
/// Sorts the numbers from the largest to the smallest.
fn sort_descending(v: &mut Vec<u8>)
    ensures
        final(v)@.len() == old(v)@.len(),
        final(v)@.to_multiset() == old(v)@.to_multiset(),
        sorted_by(final(v)@, descending()),
{
    broadcast use vstd::seq_lib::group_to_multiset_ensures;

    let n = v.len();
    let mut i: usize = 0;
    while i < n
        invariant
            n == v@.len(),
            i <= n,
            v@.to_multiset() == old(v)@.to_multiset(),
            forall|a: int, b: int| 0 <= a < b < i ==> v@[b] <= v@[a],
            forall|a: int, b: int| 0 <= a < i <= b < n ==> v@[b] <= v@[a],
        decreases n - i,
    {
        let mut largest = i;
        let mut k = i + 1;
        while k < n
            invariant
                n == v@.len(),
                i < n,
                i <= largest < n,
                i < k <= n,
                forall|x: int| i <= x < k ==> v@[x] <= v@[largest as int],
            decreases n - k,
        {
            if v[k] > v[largest] {
                largest = k;
            }
            k += 1;
        }
        let a = v[i];
        let b = v[largest];
        let ghost before = v@;
        v.set(i, b);
        v.set(largest, a);
        proof {
            broadcast use vstd::multiset::group_multiset_axioms;

            let mid = before.update(i as int, b);
            assert(v@ == mid.update(largest as int, a));
            assert(mid[largest as int] == b);
            vstd::seq_lib::to_multiset_update(before, i as int, b);
            vstd::seq_lib::to_multiset_update(mid, largest as int, a);
            assert(mid.to_multiset() == before.to_multiset().insert(b).remove(a));
            assert(v@.to_multiset() == mid.to_multiset().insert(a).remove(b));
            assert(before[i as int] == a);
            vstd::seq_lib::to_multiset_contains(before, a);
            assert(before.to_multiset().count(a) > 0);
            assert(v@.to_multiset() =~= before.to_multiset());
        }
        i += 1;
    }
}

/// The number of blocks plus the number of open cells connected to the top is at most the
/// number of cells.
pub proof fn lemma_blocks_and_connected_fit(g: Seq<Seq<Option<NominoColor>>>)
    requires
        is_well_formed_bag(g),
    ensures
        spec_block_count(g) + spec_connected_empties_count(g) <= g.len() * g[0].len(),
{
    let cc = connected_cells(g);
    let m = g[0].len();
    assert forall|r: int, c: int|
        0 <= r < g.len() && 0 <= c < g[r].len() implies !(is_block()(g[r][c]) && #[trigger] cc[r][c]) by {
        if cc[r][c] {
            assert(connected_to_top(g, (r, c)));
            let path = choose|path: Seq<(int, int)>| #[trigger]
                is_open_path(g, path) && path.last() == (r, c);
            assert(path[path.len() - 1] == path.last());
        }
    }
    assert(is_rectangular(cc, m)) by {
        assert forall|r: int| 0 <= r < cc.len() implies (#[trigger] cc[r]).len() == m by {
            assert(g[r].len() == m);
        }
    }
    lemma_count_disjoint(g, is_block(), cc, m);
}

/// Two tests that no cell meets both count at most the number of cells together.
proof fn lemma_count_disjoint<T>(
    a: Seq<Seq<T>>,
    p: spec_fn(T) -> bool,
    b: Seq<Seq<bool>>,
    cols: nat,
)
    requires
        a.len() == b.len(),
        is_rectangular(a, cols),
        is_rectangular(b, cols),
        forall|r: int, c: int| 0 <= r < a.len() && 0 <= c < a[r].len() ==> !(p(a[r][c]) && #[trigger] b[r][c]),
    ensures
        count_in_grid(a, p) + count_in_grid(b, marked()) <= a.len() * cols,
    decreases a.len(),
{
    if a.len() > 0 {
        let n = a.len();
        let a2 = a.drop_last();
        let b2 = b.drop_last();
        assert(is_rectangular(a2, cols)) by {
            assert forall|r: int| 0 <= r < a2.len() implies (#[trigger] a2[r]).len() == cols by {
                assert(a2[r] == a[r]);
            }
        }
        assert(is_rectangular(b2, cols)) by {
            assert forall|r: int| 0 <= r < b2.len() implies (#[trigger] b2[r]).len() == cols by {
                assert(b2[r] == b[r]);
            }
        }
        assert forall|r: int, c: int| 0 <= r < a2.len() && 0 <= c < a2[r].len() implies !(p(a2[r][c])
            && #[trigger] b2[r][c]) by {
            assert(a2[r] == a[r] && b2[r] == b[r]);
            assert(b[r][c] == b2[r][c]);
        }
        lemma_count_disjoint(a2, p, b2, cols);
        let ra = a.last();
        let rb = b.last();
        assert(ra.len() == cols && rb.len() == cols) by {
            assert(a[n - 1].len() == cols && b[n - 1].len() == cols);
        }
        assert forall|c: int| 0 <= c < ra.len() implies !(p(ra[c]) && #[trigger] rb[c]) by {
            assert(rb[c] == b[n - 1][c]);
        }
        lemma_count_row_disjoint(ra, p, rb);
        assert((n - 1) * cols + cols == n * cols) by (nonlinear_arith);
    }
}

/// Row version of `lemma_count_disjoint`.
proof fn lemma_count_row_disjoint<T>(ra: Seq<T>, p: spec_fn(T) -> bool, rb: Seq<bool>)
    requires
        ra.len() == rb.len(),
        forall|c: int| 0 <= c < ra.len() ==> !(p(ra[c]) && #[trigger] rb[c]),
    ensures
        count_in_row(ra, p) + count_in_row(rb, marked()) <= ra.len(),
    decreases ra.len(),
{
    if ra.len() > 0 {
        let n = ra.len();
        assert forall|c: int| 0 <= c < ra.drop_last().len() implies !(p(ra.drop_last()[c])
            && #[trigger] rb.drop_last()[c]) by {
            assert(rb.drop_last()[c] == rb[c]);
        }
        lemma_count_row_disjoint(ra.drop_last(), p, rb.drop_last());
        assert(!(p(ra[n - 1]) && rb[n - 1]));
    }
}

/// Counts the holes of a bag: its open cells that no open path links to the top.
pub fn count_holes(matrix: &[Vec<Option<NominoColor>>], block_count: u8, capacity: u8) -> (holes: u8)
    requires
        is_well_formed_bag(bag_grid(matrix@)),
        capacity == matrix@.len() * matrix@[0]@.len(),
        block_count == spec_block_count(bag_grid(matrix@)),
    ensures
        holes == spec_hole_count(bag_grid(matrix@), capacity as nat),
{
    let connected = get_connected_empties_count(matrix);
    proof {
        let g = bag_grid(matrix@);
        assert(g[0] == matrix@[0]@);
        lemma_blocks_and_connected_fit(g);
    }
    capacity - block_count - connected
}

/// Counting cells over the first `r` rows and the first `c` cells of row `r` counts fewer
/// cells than the whole bag holds.
proof fn lemma_partial_count_bound(
    g: Seq<Seq<Option<NominoColor>>>,
    p: spec_fn(Option<NominoColor>) -> bool,
    r: int,
    c: int,
)
    requires
        is_well_formed_bag(g),
        0 <= r < g.len(),
        0 <= c < g[0].len(),
    ensures
        count_in_grid(g.take(r), p) + count_in_row(g[r].take(c), p) < g.len() * g[0].len(),
{
    let m = g[0].len();
    let n = g.len();
    assert(is_rectangular(g.take(r), m)) by {
        assert forall|i: int| 0 <= i < g.take(r).len() implies (#[trigger] g.take(r)[i]).len() == m by {
            assert(g.take(r)[i] == g[i]);
        }
    }
    lemma_count_grid_bound(g.take(r), p, m);
    lemma_count_row_bound(g[r].take(c), p);
    assert(r * m + c < n * m) by (nonlinear_arith)
        requires
            0 <= r < n,
            0 <= c < m,
    ;
}

/// The color at the position of a color is that color.
proof fn lemma_color_index_roundtrip(color: NominoColor)
    ensures
        spec_color_from_index(spec_color_index(color) as int) == Some(color),
{
}

/// Scores a bag from its cells, row by row from the bottom: the points of each color's blocks,
/// weighted by the color's rank, less 25 points per hole, times the fill multiplier, rounded.
pub fn score_bag(bag_matrix: &[Vec<Option<NominoColor>>], capacity: u8) -> (score: u16)
    requires
        is_well_formed_bag(bag_grid(bag_matrix@)),
        capacity == bag_matrix@.len() * bag_matrix@[0]@.len(),
    ensures
        score == spec_score_bag(bag_grid(bag_matrix@), capacity as nat),
{
    let ghost g = bag_grid(bag_matrix@);
    let rows = bag_matrix.len();
    let cols = bag_matrix[0].len();
    proof {
        assert(g[0] == bag_matrix@[0]@);
    }
    let mut block_count: u8 = 0;
    let mut color_block_count_map: Vec<u8> = Vec::new();
    while color_block_count_map.len() < NOMINO_COLOR_COUNT
        invariant
            color_block_count_map@.len() <= NOMINO_COLOR_COUNT,
            forall|k: int| 0 <= k < color_block_count_map@.len() ==> color_block_count_map@[k] == 0,
        decreases NOMINO_COLOR_COUNT - color_block_count_map@.len(),
    {
        color_block_count_map.push(0);
    }
    proof {
        assert forall|k: int| 0 <= k < 7 implies color_block_count_map@[k] == count_in_grid(
            #[trigger] g.take(0),
            holds_color(spec_color_from_index(k).unwrap()),
        ) by {
            assert(g.take(0).len() == 0);
        }
    }
    let mut r: usize = 0;
    while r < rows
        invariant
            g == bag_grid(bag_matrix@),
            is_well_formed_bag(g),
            rows == g.len(),
            cols == g[0].len(),
            r <= rows,
            block_count == count_in_grid(g.take(r as int), is_block()),
            color_block_count_map@.len() == 7,
            forall|k: int|
                0 <= k < 7 ==> color_block_count_map@[k] == count_in_grid(
                    #[trigger] g.take(r as int),
                    holds_color(spec_color_from_index(k).unwrap()),
                ),
        decreases rows - r,
    {
        let row = &bag_matrix[r];
        proof {
            assert(row@ == g[r as int]);
            assert(g[r as int].len() == cols);
        }
        let mut c: usize = 0;
        while c < row.len()
            invariant
                g == bag_grid(bag_matrix@),
                is_well_formed_bag(g),
                rows == g.len(),
                cols == g[0].len(),
                r < rows,
                row@ == g[r as int],
                row@.len() == cols,
                c <= cols,
                block_count == count_in_grid(g.take(r as int), is_block()) + count_in_row(
                    g[r as int].take(c as int),
                    is_block(),
                ),
                color_block_count_map@.len() == 7,
                forall|k: int|
                    0 <= k < 7 ==> color_block_count_map@[k] == count_in_grid(
                        #[trigger] g.take(r as int),
                        holds_color(spec_color_from_index(k).unwrap()),
                    ) + count_in_row(
                        g[r as int].take(c as int),
                        holds_color(spec_color_from_index(k).unwrap()),
                    ),
            decreases cols - c,
        {
            let ghost before = color_block_count_map@;
            let ghost cell = g[r as int][c as int];
            proof {
                lemma_partial_count_bound(g, is_block(), r as int, c as int);
                lemma_count_row_take_step(g[r as int], is_block(), c as int);
                assert forall|k: int| 0 <= k < 7 implies #[trigger] before[k] < g.len() * g[0].len()
                    && count_in_row(
                    g[r as int].take(c as int + 1),
                    holds_color(spec_color_from_index(k).unwrap()),
                ) == count_in_row(
                    g[r as int].take(c as int),
                    holds_color(spec_color_from_index(k).unwrap()),
                ) + if cell == Some(spec_color_from_index(k).unwrap()) {
                    1nat
                } else {
                    0nat
                } by {
                    lemma_partial_count_bound(
                        g,
                        holds_color(spec_color_from_index(k).unwrap()),
                        r as int,
                        c as int,
                    );
                    lemma_count_row_take_step(
                        g[r as int],
                        holds_color(spec_color_from_index(k).unwrap()),
                        c as int,
                    );
                }
            }
            if let Some(color) = row[c] {
                block_count += 1;
                let k = color.index();
                let old_count = color_block_count_map[k];
                color_block_count_map.set(k, old_count + 1);
                proof {
                    lemma_color_index_roundtrip(color);
                    assert forall|j: int| 0 <= j < 7 && j != k implies spec_color_from_index(j).unwrap()
                        != color by {
                        lemma_color_index_roundtrip(spec_color_from_index(j).unwrap());
                    }
                }
            } else {
            }
            c += 1;
        }
        proof {
            assert(g[r as int].take(cols as int) =~= g[r as int]);
            lemma_count_grid_take_step(g, is_block(), r as int);
            assert forall|k: int| 0 <= k < 7 implies color_block_count_map@[k] == count_in_grid(
                #[trigger] g.take(r as int + 1),
                holds_color(spec_color_from_index(k).unwrap()),
            ) by {
                lemma_count_grid_take_step(g, holds_color(spec_color_from_index(k).unwrap()), r as int);
            }
        }
        r += 1;
    }
    proof {
        assert(g.take(rows as int) =~= g);
        assert(color_block_count_map@ =~= color_counts(g));
    }
    sort_descending(&mut color_block_count_map);
    proof {
        let leq = descending();
        assert(total_ordering(leq));
        color_counts(g).lemma_sort_by_ensures(leq);
        vstd::seq_lib::lemma_sorted_unique(color_block_count_map@, sorted_color_counts(g), leq);
    }
    let num_holes = count_holes(bag_matrix, block_count, capacity);
    let base_score = calculate_base_score(color_block_count_map.as_slice(), capacity);
    let multiplier = calculate_bag_fill_multiplier(block_count, capacity);
    proof {
        assert(base_score <= 7 * 6475 * 8 * 420) by {
            lemma_base_score_bound(color_block_count_map@, 0, capacity as nat);
        }
    }
    let hole_penalty = num_holes as u64 * BLOCK_POINT_VALUE as u64 * BASE_SCORE_SCALE;
    let difference = base_score as i64 - hole_penalty as i64;
    proof {
        assert(1 <= multiplier <= 10);
        assert(-1_000_000_000 <= multiplier * difference <= 2_000_000_000) by (nonlinear_arith)
            requires
                1 <= multiplier <= 10,
                -2_700_000 <= difference <= 7 * 6475 * 8 * 420,
        ;
    }
    let value = multiplier as i64 * difference;
    if value <= 0 {
        0
    } else {
        let rounded = (2 * value + BASE_SCORE_SCALE as i64) / (2 * BASE_SCORE_SCALE as i64);
        if rounded > u16::MAX as i64 {
            u16::MAX
        } else {
            rounded as u16
        }
    }
}

/// Each rank from `i` on adds at most `6475 * 8 * 420`.
proof fn lemma_base_score_bound(counts: Seq<u8>, i: int, capacity: nat)
    requires
        0 <= i,
        counts.len() <= 7,
    ensures
        0 <= spec_base_score_from(counts, i, capacity) <= (7 - i) * 6475 * 8 * 420 || i >= 7,
        0 <= spec_base_score_from(counts, i, capacity),
    decreases counts.len() - i,
{
    if i < counts.len() && counts[i] != 0 {
        lemma_base_score_bound(counts, i + 1, capacity);
        let raw = raw_points(counts[i] as nat, capacity);
        assert(raw <= 6475);
        assert(raw * (i + 2) * (420int / (i + 1)) <= 6475 * 8 * 420) by (nonlinear_arith)
            requires
                raw <= 6475,
                0 <= i < 7,
        ;
        assert(raw * (i + 2) * (420int / (i + 1)) >= 0) by (nonlinear_arith)
            requires
                raw >= 0,
                0 <= i,
        ;
    }
}

} // verus!
