use vstd::prelude::*;

verus! {

/// The number of elements of `row` that satisfy `p`.
pub open spec fn count_in_row<T>(row: Seq<T>, p: spec_fn(T) -> bool) -> nat
    decreases row.len(),
{
    if row.len() == 0 {
        0
    } else {
        count_in_row(row.drop_last(), p) + if p(row.last()) {
            1nat
        } else {
            0nat
        }
    }
}

/// The number of cells of the grid `g` (a sequence of rows) that satisfy `p`.
pub open spec fn count_in_grid<T>(g: Seq<Seq<T>>, p: spec_fn(T) -> bool) -> nat
    decreases g.len(),
{
    if g.len() == 0 {
        0
    } else {
        count_in_grid(g.drop_last(), p) + count_in_row(g.last(), p)
    }
}

/// The test that a flag is set.
pub open spec fn marked() -> spec_fn(bool) -> bool {
    |b: bool| b
}

/// Every row of `g` has `cols` cells.
pub open spec fn is_rectangular<T>(g: Seq<Seq<T>>, cols: nat) -> bool {
    forall|r: int| 0 <= r < g.len() ==> (#[trigger] g[r]).len() == cols
}

pub proof fn lemma_count_row_bound<T>(row: Seq<T>, p: spec_fn(T) -> bool)
    ensures
        count_in_row(row, p) <= row.len(),
    decreases row.len(),
{
    if row.len() > 0 {
        lemma_count_row_bound(row.drop_last(), p);
    }
}

pub proof fn lemma_count_row_none<T>(row: Seq<T>, p: spec_fn(T) -> bool)
    requires
        forall|i: int| 0 <= i < row.len() ==> !p(#[trigger] row[i]),
    ensures
        count_in_row(row, p) == 0,
    decreases row.len(),
{
    if row.len() > 0 {
        lemma_count_row_none(row.drop_last(), p);
    }
}

pub proof fn lemma_count_grid_none<T>(g: Seq<Seq<T>>, p: spec_fn(T) -> bool)
    requires
        forall|r: int, c: int| 0 <= r < g.len() && 0 <= c < g[r].len() ==> !p(#[trigger] g[r][c]),
    ensures
        count_in_grid(g, p) == 0,
    decreases g.len(),
{
    if g.len() > 0 {
        lemma_count_grid_none(g.drop_last(), p);
        let last = g.last();
        assert forall|i: int| 0 <= i < last.len() implies !p(#[trigger] last[i]) by {
            assert(last[i] == g[g.len() - 1][i]);
        }
        lemma_count_row_none(last, p);
    }
}

pub proof fn lemma_count_grid_bound<T>(g: Seq<Seq<T>>, p: spec_fn(T) -> bool, cols: nat)
    requires
        is_rectangular(g, cols),
    ensures
        count_in_grid(g, p) <= g.len() * cols,
    decreases g.len(),
{
    if g.len() > 0 {
        let n = g.len();
        assert(is_rectangular(g.drop_last(), cols)) by {
            assert forall|r: int| 0 <= r < g.drop_last().len() implies (#[trigger] g.drop_last()[r]).len()
                == cols by {
                assert(g.drop_last()[r] == g[r]);
            }
        }
        lemma_count_grid_bound(g.drop_last(), p, cols);
        lemma_count_row_bound(g.last(), p);
        assert(g.last().len() == cols) by {
            assert(g[n - 1].len() == cols);
        }
        assert((n - 1) * cols + cols == n * cols) by (nonlinear_arith);
    }
}

/// Counting over the first `c + 1` elements adds the element at `c` to the count over the first `c`.
pub proof fn lemma_count_row_take_step<T>(row: Seq<T>, p: spec_fn(T) -> bool, c: int)
    requires
        0 <= c < row.len(),
    ensures
        count_in_row(row.take(c + 1), p) == count_in_row(row.take(c), p) + if p(row[c]) {
            1nat
        } else {
            0nat
        },
{
    assert(row.take(c + 1).drop_last() =~= row.take(c));
    assert(row.take(c + 1).last() == row[c]);
}

/// Counting over the first `r + 1` rows adds row `r` to the count over the first `r` rows.
pub proof fn lemma_count_grid_take_step<T>(g: Seq<Seq<T>>, p: spec_fn(T) -> bool, r: int)
    requires
        0 <= r < g.len(),
    ensures
        count_in_grid(g.take(r + 1), p) == count_in_grid(g.take(r), p) + count_in_row(g[r], p),
{
    assert(g.take(r + 1).drop_last() =~= g.take(r));
    assert(g.take(r + 1).last() == g[r]);
}

/// Replacing one element changes the count by what the old and the new element contribute.
pub proof fn lemma_count_row_update<T>(row: Seq<T>, p: spec_fn(T) -> bool, c: int, v: T)
    requires
        0 <= c < row.len(),
    ensures
        count_in_row(row.update(c, v), p) + (if p(row[c]) {
            1nat
        } else {
            0nat
        }) == count_in_row(row, p) + if p(v) {
            1nat
        } else {
            0nat
        },
    decreases row.len(),
{
    let u = row.update(c, v);
    if c == row.len() - 1 {
        assert(u.drop_last() =~= row.drop_last());
    } else {
        assert(u.drop_last() =~= row.drop_last().update(c, v));
        lemma_count_row_update(row.drop_last(), p, c, v);
    }
}

/// Replacing one cell changes the count by what the old and the new cell contribute.
pub proof fn lemma_count_grid_update<T>(g: Seq<Seq<T>>, p: spec_fn(T) -> bool, r: int, c: int, v: T)
    requires
        0 <= r < g.len(),
        0 <= c < g[r].len(),
    ensures
        count_in_grid(g.update(r, g[r].update(c, v)), p) + (if p(g[r][c]) {
            1nat
        } else {
            0nat
        }) == count_in_grid(g, p) + if p(v) {
            1nat
        } else {
            0nat
        },
    decreases g.len(),
{
    let u = g.update(r, g[r].update(c, v));
    if r == g.len() - 1 {
        assert(u.drop_last() =~= g.drop_last());
        lemma_count_row_update(g[r], p, c, v);
    } else {
        let d = g.drop_last();
        assert(d[r] == g[r]);
        assert(u.drop_last() =~= d.update(r, d[r].update(c, v)));
        lemma_count_grid_update(d, p, r, c, v);
    }
}

} // verus!
