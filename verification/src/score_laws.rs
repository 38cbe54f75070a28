use vstd::prelude::*;
use vstd::relations::total_ordering;

use crate::connectivity::{
    connected_cells, connected_to_top, in_grid, is_open, is_open_path, is_well_formed_bag,
};
use crate::grid::{count_in_grid, count_in_row, is_rectangular, lemma_count_grid_bound};
use crate::nominos::{spec_color_from_index, spec_color_index, NominoColor};
use crate::scoring::{
    color_count, color_counts, descending, holds_color, is_block, lemma_blocks_and_connected_fit,
    raw_points, sorted_color_counts, spec_bag_fill_multiplier, spec_base_score_from,
    spec_block_count, spec_hole_count, spec_score_bag,
};

verus! {

/// The fill multiplier never drops as a bag fills up: a fuller bag is worth at least as much
/// per point.
pub proof fn lemma_fill_multiplier_monotonic(fewer: int, more: int, capacity: int)
    requires
        0 <= fewer <= more,
    ensures
        spec_bag_fill_multiplier(fewer, capacity) <= spec_bag_fill_multiplier(more, capacity),
{
}

/// A full bag of at least 5 cells earns the top multiplier, 10, and no bag earns more.
pub proof fn lemma_full_bag_top_multiplier(block_count: int, capacity: int)
    requires
        0 <= block_count,
    ensures
        capacity >= 5 ==> spec_bag_fill_multiplier(capacity, capacity) == 10,
        spec_bag_fill_multiplier(block_count, capacity) <= 10,
{
}

/// Adds the raw points of a count of blocks to a running total.
pub open spec fn raw_adder(capacity: nat) -> spec_fn(int, u8) -> int {
    |acc: int, count: u8| acc + raw_points(count as nat, capacity)
}

/// The raw points of all the counts of a list.
pub open spec fn raw_sum(counts: Seq<u8>, capacity: nat) -> int {
    counts.fold_left(0int, raw_adder(capacity))
}

proof fn lemma_raw_sum_shift(counts: Seq<u8>, start: int, capacity: nat)
    ensures
        counts.fold_left(start, raw_adder(capacity)) == start + raw_sum(counts, capacity),
        raw_sum(counts, capacity) >= 0,
    decreases counts.len(),
{
    if counts.len() > 0 {
        lemma_raw_sum_shift(counts.drop_last(), start, capacity);
        lemma_raw_sum_shift(counts.drop_last(), 0, capacity);
    }
}

proof fn lemma_raw_sum_first(counts: Seq<u8>, capacity: nat)
    requires
        counts.len() > 0,
    ensures
        raw_sum(counts, capacity) == raw_points(counts[0] as nat, capacity) + raw_sum(
            counts.drop_first(),
            capacity,
        ),
    decreases counts.len(),
{
    let f = raw_adder(capacity);
    if counts.len() == 1 {
        assert(counts.drop_last().len() == 0);
        assert(counts.drop_first().len() == 0);
        assert(counts.last() == counts[0]);
        assert(counts.drop_last().fold_left(0int, f) == 0);
        assert(counts.drop_first().fold_left(0int, f) == 0);
        assert(raw_sum(counts, capacity) == f(0int, counts[0]));
    } else {
        let d = counts.drop_last();
        lemma_raw_sum_first(d, capacity);
        assert(d.drop_first() =~= counts.drop_first().drop_last());
        assert(counts.drop_first().last() == counts.last());
        assert(d[0] == counts[0]);
        assert(raw_sum(counts, capacity) == f(raw_sum(d, capacity), counts.last()));
        assert(raw_sum(counts.drop_first(), capacity) == f(
            raw_sum(counts.drop_first().drop_last(), capacity),
            counts.drop_first().last(),
        ));
    }
}

/// Each rank weighs a color's raw points by at most 2, so `BASE_SCORE_SCALE` times the base
/// score is at most 840 times the raw points of all counts.
proof fn lemma_base_within_raw_sum(counts: Seq<u8>, i: int, capacity: nat)
    requires
        0 <= i <= counts.len(),
    ensures
        spec_base_score_from(counts, i, capacity) <= 840 * raw_sum(
            counts.subrange(i, counts.len() as int),
            capacity,
        ),
    decreases counts.len() - i,
{
    let rest = counts.subrange(i, counts.len() as int);
    lemma_raw_sum_shift(rest, 0, capacity);
    if i < counts.len() && counts[i] != 0 {
        lemma_base_within_raw_sum(counts, i + 1, capacity);
        lemma_raw_sum_first(rest, capacity);
        assert(rest.drop_first() =~= counts.subrange(i + 1, counts.len() as int));
        assert(rest[0] == counts[i]);
        let raw = raw_points(counts[i] as nat, capacity);
        let q = 420int / (i + 1);
        assert(q * (i + 1) <= 420) by (nonlinear_arith)
            requires
                q == 420int / (i + 1),
                i >= 0,
        ;
        assert(raw * (i + 2) * q <= 840 * raw) by (nonlinear_arith)
            requires
                q * (i + 1) <= 420,
                q >= 0,
                i >= 0,
                raw >= 0,
        ;
    }
}

/// The number of blocks of each color of a row, summed over all colors.
spec fn row_color_total(row: Seq<Option<NominoColor>>) -> nat {
    count_in_row(row, holds_color(NominoColor::Red)) + count_in_row(row, holds_color(NominoColor::Gold))
        + count_in_row(row, holds_color(NominoColor::Blue)) + count_in_row(
        row,
        holds_color(NominoColor::Green),
    ) + count_in_row(row, holds_color(NominoColor::Pink)) + count_in_row(
        row,
        holds_color(NominoColor::Orange),
    ) + count_in_row(row, holds_color(NominoColor::Debug))
}

/// The number of blocks of each color of a grid, summed over all colors.
spec fn grid_color_total(g: Seq<Seq<Option<NominoColor>>>) -> nat {
    count_in_grid(g, holds_color(NominoColor::Red)) + count_in_grid(g, holds_color(NominoColor::Gold))
        + count_in_grid(g, holds_color(NominoColor::Blue)) + count_in_grid(
        g,
        holds_color(NominoColor::Green),
    ) + count_in_grid(g, holds_color(NominoColor::Pink)) + count_in_grid(
        g,
        holds_color(NominoColor::Orange),
    ) + count_in_grid(g, holds_color(NominoColor::Debug))
}

proof fn lemma_row_colors_are_blocks(row: Seq<Option<NominoColor>>)
    ensures
        row_color_total(row) == count_in_row(row, is_block()),
    decreases row.len(),
{
    if row.len() > 0 {
        lemma_row_colors_are_blocks(row.drop_last());
        let cell = row.last();
        match cell {
            Some(color) => {
                assert(is_block()(cell));
                match color {
                    NominoColor::Red => {},
                    NominoColor::Gold => {},
                    NominoColor::Blue => {},
                    NominoColor::Green => {},
                    NominoColor::Pink => {},
                    NominoColor::Orange => {},
                    NominoColor::Debug => {},
                }
            },
            None => {
                assert(!is_block()(cell));
            },
        }
    }
}

proof fn lemma_grid_colors_are_blocks(g: Seq<Seq<Option<NominoColor>>>)
    ensures
        grid_color_total(g) == count_in_grid(g, is_block()),
    decreases g.len(),
{
    if g.len() > 0 {
        lemma_grid_colors_are_blocks(g.drop_last());
        lemma_row_colors_are_blocks(g.last());
    }
}

/// No bag scores more than a full bag of one color: 20 times its raw points, that is
/// 20 × (25 × capacity + 100), capped at `u16::MAX`.
pub proof fn lemma_score_at_most_full_bag(g: Seq<Seq<Option<NominoColor>>>, capacity: nat)
    requires
        is_well_formed_bag(g),
        capacity == g.len() * g[0].len(),
    ensures
        spec_score_bag(g, capacity) <= 20 * (25 * capacity + 100),
        spec_score_bag(g, capacity) <= u16::MAX,
{
    let m = g[0].len();
    let counts = color_counts(g);
    let sorted = sorted_color_counts(g);
    let blocks = spec_block_count(g);
    lemma_count_grid_bound(g, is_block(), m);
    assert forall|k: int| 0 <= k < 7 implies #[trigger] color_count(g, k) <= capacity by {
        lemma_count_grid_bound(g, holds_color(spec_color_from_index(k).unwrap()), m);
    }
    lemma_grid_colors_are_blocks(g);
    assert(counts[0] as int == count_in_grid(g, holds_color(NominoColor::Red)));
    assert(counts[1] as int == count_in_grid(g, holds_color(NominoColor::Gold)));
    assert(counts[2] as int == count_in_grid(g, holds_color(NominoColor::Blue)));
    assert(counts[3] as int == count_in_grid(g, holds_color(NominoColor::Green)));
    assert(counts[4] as int == count_in_grid(g, holds_color(NominoColor::Pink)));
    assert(counts[5] as int == count_in_grid(g, holds_color(NominoColor::Orange)));
    assert(counts[6] as int == count_in_grid(g, holds_color(NominoColor::Debug)));
    let total_counts = counts[0] + counts[1] + counts[2] + counts[3] + counts[4] + counts[5]
        + counts[6];
    assert(total_counts == blocks);
    let leq = descending();
    assert(total_ordering(leq));
    counts.lemma_sort_by_ensures(leq);
    assert(sorted.len() == 7) by {
        assert(sorted.to_multiset().len() == counts.to_multiset().len());
        vstd::seq_lib::to_multiset_len(counts);
        vstd::seq_lib::to_multiset_len(sorted);
    }
    let base = spec_base_score_from(sorted, 0, capacity);
    let x = 25 * capacity + 100;
    if capacity == 0 {
        assert(sorted.contains(sorted[0]));
        assert(counts.contains(sorted[0]));
        let k = choose|k: int| 0 <= k < counts.len() && counts[k] == sorted[0];
        assert(counts[k] == 0);
        assert(base == 0);
    } else {
        lemma_base_within_raw_sum(sorted, 0, capacity);
        assert(sorted.subrange(0, 7) =~= sorted);
        vstd::seq_lib::lemma_fold_left_permutation(sorted, counts, raw_adder(capacity), 0int);
        assert(raw_sum(counts, capacity) == raw_points(counts[0] as nat, capacity) + raw_points(
            counts[1] as nat,
            capacity,
        ) + raw_points(counts[2] as nat, capacity) + raw_points(counts[3] as nat, capacity)
            + raw_points(counts[4] as nat, capacity) + raw_points(counts[5] as nat, capacity)
            + raw_points(counts[6] as nat, capacity)) by {
            reveal_with_fuel(Seq::fold_left, 8);
        }
        assert(raw_sum(counts, capacity) <= x);
        assert(base <= 840 * x);
    }
    lemma_blocks_and_connected_fit(g);
    let penalty = spec_hole_count(g, capacity) * 25 * 420;
    assert(penalty >= 0);
    let multiplier = spec_bag_fill_multiplier(blocks as int, capacity as int);
    let value = multiplier * (base - penalty);
    assert(1 <= multiplier <= 10);
    assert(value <= 8400 * x) by (nonlinear_arith)
        requires
            1 <= multiplier <= 10,
            base <= 840 * x,
            penalty >= 0,
            value == multiplier * (base - penalty),
            x >= 0,
    ;
    if value > 0 {
        assert((2 * value + 420) / 840 <= 20 * x) by (nonlinear_arith)
            requires
                0 < value <= 8400 * x,
        ;
    }
}

/// An empty bag scores nothing, whatever its shape.
pub proof fn lemma_empty_bag_scores_zero(g: Seq<Seq<Option<NominoColor>>>, capacity: nat)
    requires
        is_well_formed_bag(g),
        capacity == g.len() * g[0].len(),
        forall|r: int, c: int| 0 <= r < g.len() && 0 <= c < g[r].len() ==> (#[trigger] g[r][c]) is None,
    ensures
        spec_score_bag(g, capacity) == 0,
{
    let counts = color_counts(g);
    let sorted = sorted_color_counts(g);
    crate::grid::lemma_count_grid_none(g, is_block());
    assert forall|k: int| 0 <= k < 7 implies #[trigger] counts[k] == 0 by {
        crate::grid::lemma_count_grid_none(g, holds_color(spec_color_from_index(k).unwrap()));
    }
    let leq = descending();
    assert(total_ordering(leq));
    counts.lemma_sort_by_ensures(leq);
    vstd::seq_lib::to_multiset_len(counts);
    vstd::seq_lib::to_multiset_len(sorted);
    assert(sorted.len() == 7);
    assert(sorted.contains(sorted[0]));
    assert(counts.contains(sorted[0]));
    assert(spec_base_score_from(sorted, 0, capacity) == 0);
    lemma_blocks_and_connected_fit(g);
    let multiplier = spec_bag_fill_multiplier(0, capacity as int);
    let penalty = spec_hole_count(g, capacity) * 25 * 420;
    assert(multiplier * (0 - penalty) <= 0) by (nonlinear_arith)
        requires
            multiplier >= 1,
            penalty >= 0,
    ;
}

/// Adds a count of blocks to a running total.
pub open spec fn count_adder() -> spec_fn(int, u8) -> int {
    |acc: int, count: u8| acc + count
}

proof fn lemma_count_grid_all<T>(g: Seq<Seq<T>>, p: spec_fn(T) -> bool, cols: nat)
    requires
        is_rectangular(g, cols),
        forall|r: int, c: int| 0 <= r < g.len() && 0 <= c < g[r].len() ==> p(#[trigger] g[r][c]),
    ensures
        count_in_grid(g, p) == g.len() * cols,
    decreases g.len(),
{
    if g.len() > 0 {
        let n = g.len();
        let d = g.drop_last();
        assert(is_rectangular(d, cols)) by {
            assert forall|r: int| 0 <= r < d.len() implies (#[trigger] d[r]).len() == cols by {
                assert(d[r] == g[r]);
            }
        }
        assert forall|r: int, c: int| 0 <= r < d.len() && 0 <= c < d[r].len() implies p(
            #[trigger] d[r][c],
        ) by {
            assert(d[r] == g[r]);
        }
        lemma_count_grid_all(d, p, cols);
        let last = g.last();
        assert(last.len() == cols) by {
            assert(g[n - 1].len() == cols);
        }
        assert forall|c: int| 0 <= c < last.len() implies p(#[trigger] last[c]) by {
            assert(last[c] == g[n - 1][c]);
        }
        lemma_count_row_all(last, p);
        assert((n - 1) * cols + cols == n * cols) by (nonlinear_arith);
    }
}

proof fn lemma_count_row_all<T>(row: Seq<T>, p: spec_fn(T) -> bool)
    requires
        forall|c: int| 0 <= c < row.len() ==> p(#[trigger] row[c]),
    ensures
        count_in_row(row, p) == row.len(),
    decreases row.len(),
{
    if row.len() > 0 {
        assert forall|c: int| 0 <= c < row.drop_last().len() implies p(#[trigger] row.drop_last()[c]) by {
            assert(row.drop_last()[c] == row[c]);
        }
        lemma_count_row_all(row.drop_last(), p);
        assert(p(row[row.len() - 1]));
    }
}

/// In a full bag of one color, that color's count is the capacity and every other count is 0.
proof fn lemma_full_bag_counts(g: Seq<Seq<Option<NominoColor>>>, capacity: nat, color: NominoColor)
    requires
        is_well_formed_bag(g),
        capacity == g.len() * g[0].len(),
        forall|r: int, c: int| 0 <= r < g.len() && 0 <= c < g[r].len() ==> #[trigger] g[r][c] == Some(
            color,
        ),
    ensures
        spec_block_count(g) == capacity,
        forall|j: int|
            0 <= j < 7 ==> #[trigger] color_counts(g)[j] == if j == crate::nominos::spec_color_index(
                color,
            ) {
                capacity
            } else {
                0
            },
{
    let m = g[0].len();
    let counts = color_counts(g);
    let k = crate::nominos::spec_color_index(color) as int;
    assert(spec_color_from_index(k) == Some(color)) by {
        match color {
            NominoColor::Red => {},
            NominoColor::Gold => {},
            NominoColor::Blue => {},
            NominoColor::Green => {},
            NominoColor::Pink => {},
            NominoColor::Orange => {},
            NominoColor::Debug => {},
        }
    }
    lemma_count_grid_all(g, is_block(), m);
    lemma_count_grid_all(g, holds_color(color), m);
    assert forall|j: int| 0 <= j < 7 implies #[trigger] counts[j] == if j == k {
        capacity
    } else {
        0
    } by {
        if j != k {
            let other = spec_color_from_index(j).unwrap();
            assert(other != color) by {
                match color {
                    NominoColor::Red => {},
                    NominoColor::Gold => {},
                    NominoColor::Blue => {},
                    NominoColor::Green => {},
                    NominoColor::Pink => {},
                    NominoColor::Orange => {},
                    NominoColor::Debug => {},
                }
            }
            crate::grid::lemma_count_grid_none(g, holds_color(other));
        }
    }
}

/// Counts with a single nonzero count `top` sort to `top` followed by zeros.
#[verifier::spinoff_prover]
#[verifier::rlimit(40)]
proof fn lemma_sorted_single_count(counts: Seq<u8>, k: int, top: u8)
    requires
        counts.len() == 7,
        0 <= k < 7,
        top > 0,
        forall|j: int| 0 <= j < 7 ==> #[trigger] counts[j] == if j == k {
            top
        } else {
            0
        },
    ensures
        counts.sort_by(descending()).len() == 7,
        counts.sort_by(descending())[0] == top,
        counts.sort_by(descending())[1] == 0,
{
    let sorted = counts.sort_by(descending());
    let leq = descending();
    assert(total_ordering(leq));
    counts.lemma_sort_by_ensures(leq);
    vstd::seq_lib::to_multiset_len(counts);
    vstd::seq_lib::to_multiset_len(sorted);
    vstd::seq_lib::to_multiset_contains(counts, top);
    vstd::seq_lib::to_multiset_contains(sorted, top);
    assert(counts[k] == top);
    assert(counts.contains(top));
    let j = choose|j: int| 0 <= j < sorted.len() && sorted[j] == top;
    if j != 0 {
        assert(leq(sorted[0], sorted[j]));
    }
    assert(sorted.contains(sorted[0]));
    assert(counts.contains(sorted[0]));
    assert(sorted[0] == top);
    assert(commutative_foldl_counts());
    vstd::seq_lib::lemma_fold_left_permutation(sorted, counts, count_adder(), 0int);
    assert(sorted.fold_left(0int, count_adder()) == sorted[0] + sorted[1] + sorted[2] + sorted[3]
        + sorted[4] + sorted[5] + sorted[6]) by {
        reveal_with_fuel(Seq::fold_left, 8);
    }
    assert(counts.fold_left(0int, count_adder()) == counts[0] + counts[1] + counts[2] + counts[3]
        + counts[4] + counts[5] + counts[6]) by {
        reveal_with_fuel(Seq::fold_left, 8);
    }
}

/// A full bag has no open cell, so no holes.
proof fn lemma_full_bag_no_holes(g: Seq<Seq<Option<NominoColor>>>, capacity: nat, color: NominoColor)
    requires
        is_well_formed_bag(g),
        capacity == g.len() * g[0].len(),
        spec_block_count(g) == capacity,
        forall|r: int, c: int| 0 <= r < g.len() && 0 <= c < g[r].len() ==> #[trigger] g[r][c] == Some(
            color,
        ),
    ensures
        spec_hole_count(g, capacity) == 0,
{
    let cc = crate::connectivity::connected_cells(g);
    assert forall|r: int, c: int| 0 <= r < cc.len() && 0 <= c < cc[r].len() implies !(
    #[trigger] cc[r][c]) by {
        if cc[r][c] {
            let path = choose|path: Seq<(int, int)>| #[trigger]
                crate::connectivity::is_open_path(g, path) && path.last() == (r, c);
            assert(crate::connectivity::is_open(g, path[0]));
            assert(g[path[0].0][path[0].1] == Some(color));
        }
    }
    crate::grid::lemma_count_grid_none(cc, crate::grid::marked());
}

/// A full bag of a single color, of at least 5 cells, scores 20 × (25 × capacity + 100),
/// capped at `u16::MAX`: the most any bag of that capacity can score.
pub proof fn lemma_full_one_color_bag_score(
    g: Seq<Seq<Option<NominoColor>>>,
    capacity: nat,
    color: NominoColor,
)
    requires
        is_well_formed_bag(g),
        capacity == g.len() * g[0].len(),
        capacity >= 5,
        forall|r: int, c: int| 0 <= r < g.len() && 0 <= c < g[r].len() ==> #[trigger] g[r][c] == Some(
            color,
        ),
    ensures
        spec_score_bag(g, capacity) == if 20 * (25 * capacity + 100) > u16::MAX {
            u16::MAX as int
        } else {
            20 * (25 * capacity + 100) as int
        },
{
    lemma_full_bag_counts(g, capacity, color);
    let k = crate::nominos::spec_color_index(color) as int;
    lemma_sorted_single_count(color_counts(g), k, capacity as u8);
    let sorted = sorted_color_counts(g);
    assert(spec_base_score_from(sorted, 1, capacity) == 0);
    let x = 25 * capacity + 100;
    assert(spec_base_score_from(sorted, 0, capacity) == 840 * x);
    lemma_full_bag_no_holes(g, capacity, color);
    assert(spec_bag_fill_multiplier(capacity as int, capacity as int) == 10);
    assert((2 * (10 * (840 * x)) + 420) / 840 == 20 * x) by (nonlinear_arith)
        requires
            x >= 0,
    ;
}

/// Adding up counts gives the same total in any order.
spec fn commutative_foldl_counts() -> bool {
    vstd::seq_lib::commutative_foldl(count_adder())
}

/// The bag `g` with the color `c` of every block turned into `sigma(c)`.
pub open spec fn recolor(
    g: Seq<Seq<Option<NominoColor>>>,
    sigma: spec_fn(NominoColor) -> NominoColor,
) -> Seq<Seq<Option<NominoColor>>> {
    g.map_values(
        |row: Seq<Option<NominoColor>>|
            row.map_values(
                |cell: Option<NominoColor>|
                    match cell {
                        Some(c) => Some(sigma(c)),
                        None => None,
                    },
            ),
    )
}

/// Recoloring a bag by a permutation of the colors (`sigma`, whose inverse is `tau`) does not
/// change its score: only how many blocks each color has, ranked, and where the empty cells
/// are count, not which colors the blocks have.
pub proof fn lemma_recoloring_keeps_score(
    g: Seq<Seq<Option<NominoColor>>>,
    sigma: spec_fn(NominoColor) -> NominoColor,
    tau: spec_fn(NominoColor) -> NominoColor,
    capacity: nat,
)
    requires
        forall|c: NominoColor| #[trigger] tau(sigma(c)) == c,
        forall|c: NominoColor| #[trigger] sigma(tau(c)) == c,
    ensures
        spec_score_bag(recolor(g, sigma), capacity) == spec_score_bag(g, capacity),
{
    let h = recolor(g, sigma);
    assert forall|r: int, c: int| 0 <= r < g.len() && 0 <= c < g[r].len() implies (#[trigger] h[r][c])
        == match g[r][c] {
        Some(x) => Some(sigma(x)),
        None => None,
    } by {}
    lemma_count_grid_congruent(g, h, is_block(), is_block());
    lemma_recolor_connected(g, sigma);
    lemma_recolor_sorted_counts(g, sigma, tau);
}

/// Grids of the same shape whose cells agree under `p` and `q` have as many cells of each.
proof fn lemma_count_grid_congruent<T, U>(
    a: Seq<Seq<T>>,
    b: Seq<Seq<U>>,
    p: spec_fn(T) -> bool,
    q: spec_fn(U) -> bool,
)
    requires
        a.len() == b.len(),
        forall|r: int| 0 <= r < a.len() ==> (#[trigger] b[r]).len() == a[r].len(),
        forall|r: int, c: int|
            0 <= r < a.len() && 0 <= c < a[r].len() ==> q(#[trigger] b[r][c]) == p(a[r][c]),
    ensures
        count_in_grid(b, q) == count_in_grid(a, p),
    decreases a.len(),
{
    if a.len() > 0 {
        let n = a.len() - 1;
        assert forall|r: int| 0 <= r < n implies (#[trigger] b.drop_last()[r]).len()
            == a.drop_last()[r].len() by {
            assert(b.drop_last()[r] == b[r] && a.drop_last()[r] == a[r]);
        }
        assert forall|r: int, c: int|
            0 <= r < n && 0 <= c < a.drop_last()[r].len() implies q(
            #[trigger] b.drop_last()[r][c],
        ) == p(a.drop_last()[r][c]) by {
            assert(b.drop_last()[r] == b[r] && a.drop_last()[r] == a[r]);
        }
        lemma_count_grid_congruent(a.drop_last(), b.drop_last(), p, q);
        assert(b.last() == b[n] && a.last() == a[n]);
        assert forall|c: int| 0 <= c < a[n].len() implies q(#[trigger] b[n][c]) == p(a[n][c]) by {}
        lemma_count_row_congruent(a[n], b[n], p, q);
    }
}

/// Rows of the same length whose cells agree under `p` and `q` have as many cells of each.
proof fn lemma_count_row_congruent<T, U>(
    a: Seq<T>,
    b: Seq<U>,
    p: spec_fn(T) -> bool,
    q: spec_fn(U) -> bool,
)
    requires
        a.len() == b.len(),
        forall|c: int| 0 <= c < a.len() ==> q(#[trigger] b[c]) == p(a[c]),
    ensures
        count_in_row(b, q) == count_in_row(a, p),
    decreases a.len(),
{
    if a.len() > 0 {
        let n = a.len() - 1;
        assert forall|c: int| 0 <= c < n implies q(#[trigger] b.drop_last()[c]) == p(
            a.drop_last()[c],
        ) by {
            assert(b.drop_last()[c] == b[c] && a.drop_last()[c] == a[c]);
        }
        lemma_count_row_congruent(a.drop_last(), b.drop_last(), p, q);
        assert(b.last() == b[n] && a.last() == a[n]);
    }
}

/// Recoloring leaves the same cells connected to the top of the bag.
proof fn lemma_recolor_connected(
    g: Seq<Seq<Option<NominoColor>>>,
    sigma: spec_fn(NominoColor) -> NominoColor,
)
    ensures
        connected_cells(recolor(g, sigma)) == connected_cells(g),
{
    let h = recolor(g, sigma);
    assert forall|cell: (int, int)| #[trigger] is_open(h, cell) == is_open(g, cell) by {
        if in_grid(g, cell) {
            assert(h[cell.0][cell.1] is None <==> g[cell.0][cell.1] is None);
        }
    }
    assert forall|path: Seq<(int, int)>| #[trigger] is_open_path(h, path) == is_open_path(g, path) by {
        if is_open_path(g, path) {
            assert forall|i: int| 0 <= i < path.len() implies is_open(h, #[trigger] path[i]) by {
                assert(is_open(g, path[i]));
            }
        }
        if is_open_path(h, path) {
            assert forall|i: int| 0 <= i < path.len() implies is_open(g, #[trigger] path[i]) by {
                assert(is_open(h, path[i]));
            }
        }
    }
    assert forall|cell: (int, int)| #[trigger] connected_to_top(h, cell) == connected_to_top(
        g,
        cell,
    ) by {
        if connected_to_top(g, cell) {
            let path = choose|path: Seq<(int, int)>| #[trigger] is_open_path(g, path) && path.last()
                == cell;
            assert(is_open_path(h, path));
        }
        if connected_to_top(h, cell) {
            let path = choose|path: Seq<(int, int)>| #[trigger] is_open_path(h, path) && path.last()
                == cell;
            assert(is_open_path(g, path));
        }
    }
    assert(connected_cells(h) =~~= connected_cells(g));
}

/// The per-color counts of a recolored bag are those of the bag in another order.
proof fn lemma_recolor_sorted_counts(
    g: Seq<Seq<Option<NominoColor>>>,
    sigma: spec_fn(NominoColor) -> NominoColor,
    tau: spec_fn(NominoColor) -> NominoColor,
)
    requires
        forall|c: NominoColor| #[trigger] tau(sigma(c)) == c,
        forall|c: NominoColor| #[trigger] sigma(tau(c)) == c,
    ensures
        sorted_color_counts(recolor(g, sigma)) == sorted_color_counts(g),
{
    let h = recolor(g, sigma);
    let counts = color_counts(g);
    let recounted = color_counts(h);
    let pi = |k: int| spec_color_index(tau(spec_color_from_index(k).unwrap())) as int;
    assert forall|k: int| 0 <= k < 7 implies 0 <= #[trigger] pi(k) < 7 && recounted[k] == counts[pi(
        k,
    )] by {
        let ck = spec_color_from_index(k).unwrap();
        let d = tau(ck);
        lemma_index_roundtrip(d);
        assert(spec_color_from_index(pi(k)).unwrap() == d);
        assert forall|r: int, c: int| 0 <= r < g.len() && 0 <= c < g[r].len() implies holds_color(ck)(
            #[trigger] h[r][c],
        ) == holds_color(d)(g[r][c]) by {
            match g[r][c] {
                Some(x) => {
                    assert(tau(sigma(x)) == x);
                    assert(sigma(d) == ck);
                },
                None => {},
            }
        }
        lemma_count_grid_congruent(g, h, holds_color(d), holds_color(ck));
    }
    assert forall|k1: int, k2: int| 0 <= k1 < 7 && 0 <= k2 < 7 && #[trigger] pi(k1) == #[trigger] pi(
        k2,
    ) implies k1 == k2 by {
        let c1 = spec_color_from_index(k1).unwrap();
        let c2 = spec_color_from_index(k2).unwrap();
        lemma_index_roundtrip(tau(c1));
        lemma_index_roundtrip(tau(c2));
        assert(tau(c1) == tau(c2));
        assert(sigma(tau(c1)) == c1 && sigma(tau(c2)) == c2);
        lemma_from_index_injective(k1, k2);
    }
    lemma_permuted_multiset(counts, recounted, pi);
    let leq = descending();
    assert(total_ordering(leq));
    counts.lemma_sort_by_ensures(leq);
    recounted.lemma_sort_by_ensures(leq);
    vstd::seq_lib::lemma_sorted_unique(counts.sort_by(leq), recounted.sort_by(leq), leq);
}

/// The position of a color leads back to that color.
proof fn lemma_index_roundtrip(color: NominoColor)
    ensures
        spec_color_index(color) < 7,
        spec_color_from_index(spec_color_index(color) as int) == Some(color),
{
}

/// Different positions of the list of colors hold different colors.
proof fn lemma_from_index_injective(k1: int, k2: int)
    requires
        0 <= k1 < 7,
        0 <= k2 < 7,
        spec_color_from_index(k1).unwrap() == spec_color_from_index(k2).unwrap(),
    ensures
        k1 == k2,
{
}

/// A sequence whose items are those of `s` taken at distinct places `pi(k)` holds the same
/// items as `s`.
proof fn lemma_permuted_multiset<A>(s: Seq<A>, t: Seq<A>, pi: spec_fn(int) -> int)
    requires
        s.len() == t.len(),
        forall|k: int| 0 <= k < t.len() ==> 0 <= #[trigger] pi(k) < s.len() && t[k] == s[pi(k)],
        forall|k1: int, k2: int|
            0 <= k1 < t.len() && 0 <= k2 < t.len() && #[trigger] pi(k1) == #[trigger] pi(k2) ==> k1
                == k2,
    ensures
        t.to_multiset() == s.to_multiset(),
    decreases t.len(),
{
    broadcast use vstd::seq_lib::group_to_multiset_ensures;
    broadcast use vstd::multiset::group_multiset_axioms;

    if t.len() > 0 {
        let n = t.len() - 1;
        let j = pi(n);
        let s2 = s.remove(j);
        let t2 = t.drop_last();
        let pi2 = |k: int|
            if pi(k) < j {
                pi(k)
            } else {
                pi(k) - 1
            };
        assert forall|k: int| 0 <= k < t2.len() implies 0 <= #[trigger] pi2(k) < s2.len() && t2[k]
            == s2[pi2(k)] by {
            assert(pi(k) != j);
            assert(t2[k] == t[k]);
        }
        assert forall|k1: int, k2: int|
            0 <= k1 < t2.len() && 0 <= k2 < t2.len() && #[trigger] pi2(k1) == #[trigger] pi2(
                k2,
            ) implies k1 == k2 by {
            assert(pi(k1) != j && pi(k2) != j);
        }
        lemma_permuted_multiset(s2, t2, pi2);
        assert(t =~= t2.push(t[n]));
        assert(s.to_multiset().count(s[j]) > 0);
        assert(s.to_multiset() =~= s2.to_multiset().insert(s[j]));
    }
}

/// Every color with blocks counts, whatever its rank: giving `count` blocks to the color at
/// rank `k` (below 7), right after the last color that has blocks, raises 420 times the base
/// score by that color's points, 25 per block (and 100 more if they fill the bag), times
/// `1 + 1 / (k + 1)`.
pub proof fn lemma_base_score_counts_every_rank(
    counts: Seq<u8>,
    k: int,
    count: u8,
    capacity: nat,
)
    requires
        0 <= k < counts.len(),
        k < 7,
        count > 0,
        forall|j: int| 0 <= j < k ==> #[trigger] counts[j] > 0,
        forall|j: int| k <= j < counts.len() ==> #[trigger] counts[j] == 0,
    ensures
        spec_base_score_from(counts.update(k, count), 0, capacity) == spec_base_score_from(
            counts,
            0,
            capacity,
        ) + (count * 25 + if count == capacity {
            100int
        } else {
            0int
        }) * (420 + 420int / (k + 1)),
{
    let points = count * 25 + if count == capacity {
        100int
    } else {
        0int
    };
    let w = 420 + 420int / (k + 1);
    if k == 0 {
        assert((k + 2) * (420int / (k + 1)) == 420 + 420int / (k + 1)) by (nonlinear_arith)
            requires
                k == 0,
        ;
    } else if k == 1 {
        assert((k + 2) * (420int / (k + 1)) == 420 + 420int / (k + 1)) by (nonlinear_arith)
            requires
                k == 1,
        ;
    } else if k == 2 {
        assert((k + 2) * (420int / (k + 1)) == 420 + 420int / (k + 1)) by (nonlinear_arith)
            requires
                k == 2,
        ;
    } else if k == 3 {
        assert((k + 2) * (420int / (k + 1)) == 420 + 420int / (k + 1)) by (nonlinear_arith)
            requires
                k == 3,
        ;
    } else if k == 4 {
        assert((k + 2) * (420int / (k + 1)) == 420 + 420int / (k + 1)) by (nonlinear_arith)
            requires
                k == 4,
        ;
    } else if k == 5 {
        assert((k + 2) * (420int / (k + 1)) == 420 + 420int / (k + 1)) by (nonlinear_arith)
            requires
                k == 5,
        ;
    } else {
        assert((k + 2) * (420int / (k + 1)) == 420 + 420int / (k + 1)) by (nonlinear_arith)
            requires
                k == 6,
        ;
    }
    assert((k + 2) * (420int / (k + 1)) == w);
    lemma_base_score_added_rank(counts, k, count, capacity, 0);
    assert(raw_points(count as nat, capacity) == points);
    assert(points * (k + 2) * (420int / (k + 1)) == points * w) by (nonlinear_arith)
        requires
            (k + 2) * (420int / (k + 1)) == w,
    ;
}

proof fn lemma_base_score_added_rank(counts: Seq<u8>, k: int, count: u8, capacity: nat, i: int)
    requires
        0 <= i <= k < counts.len(),
        count > 0,
        forall|j: int| 0 <= j < k ==> #[trigger] counts[j] > 0,
        forall|j: int| k <= j < counts.len() ==> #[trigger] counts[j] == 0,
    ensures
        spec_base_score_from(counts.update(k, count), i, capacity) == spec_base_score_from(
            counts,
            i,
            capacity,
        ) + raw_points(count as nat, capacity) * (k + 2) * (420int / (k + 1)),
    decreases k - i,
{
    let updated = counts.update(k, count);
    if i < k {
        lemma_base_score_added_rank(counts, k, count, capacity, i + 1);
        assert(updated[i] == counts[i]);
    } else {
        assert(counts[k] == 0);
        if k + 1 < counts.len() {
            assert(updated[k + 1] == 0);
        }
        assert(spec_base_score_from(updated, k + 1, capacity) == 0);
    }
}

/// The fill steps of a bag of `capacity` cells: up to half the bag plus one block the
/// multiplier is 1; from half the bag plus two blocks to three quarters plus one it is 2; from
/// three quarters plus two blocks to one block short of full it is 5; a full bag past the
/// three-quarter step earns 10.
pub proof fn lemma_fill_multiplier_steps(block_count: int, capacity: int)
    requires
        0 <= block_count,
        0 <= capacity,
    ensures
        block_count <= capacity / 2 + 1 ==> spec_bag_fill_multiplier(block_count, capacity) == 1,
        capacity / 2 + 2 <= block_count <= (capacity / 4) * 3 + 1 ==> spec_bag_fill_multiplier(
            block_count,
            capacity,
        ) == 2,
        (capacity / 4) * 3 + 2 <= block_count < capacity && capacity / 2 + 2 <= block_count
            ==> spec_bag_fill_multiplier(block_count, capacity) == 5,
        block_count >= capacity && block_count >= (capacity / 4) * 3 + 2 && block_count
            >= capacity / 2 + 2 ==> spec_bag_fill_multiplier(block_count, capacity) == 10,
{
}

} // verus!
