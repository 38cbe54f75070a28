use vstd::prelude::*;

use crate::grid::{
    count_in_grid, is_rectangular, lemma_count_grid_bound, lemma_count_grid_none,
    lemma_count_grid_update, marked,
};
use crate::nominos::NominoColor;

verus! {

/// The cells of a bag, row by row: row 0 is the bottom of the bag, the last row its top.
/// A cell holds the color of the block that fills it, or nothing.
pub open spec fn bag_grid(matrix: Seq<Vec<Option<NominoColor>>>) -> Seq<Seq<Option<NominoColor>>> {
    matrix.map_values(|row: Vec<Option<NominoColor>>| row@)
}

/// The rows of a grid of flags.
pub open spec fn flag_grid(v: Seq<Vec<bool>>) -> Seq<Seq<bool>> {
    v.map_values(|row: Vec<bool>| row@)
}

/// `cell` (row, column) lies inside the grid.
pub open spec fn in_grid<T>(g: Seq<Seq<T>>, cell: (int, int)) -> bool {
    0 <= cell.0 < g.len() && 0 <= cell.1 < g[cell.0].len()
}

/// `cell` lies inside the bag and holds no block.
pub open spec fn is_open(g: Seq<Seq<Option<NominoColor>>>, cell: (int, int)) -> bool {
    in_grid(g, cell) && g[cell.0][cell.1] is None
}

/// The two cells share a side.
pub open spec fn adjacent(a: (int, int), b: (int, int)) -> bool {
    ||| a.0 == b.0 && (a.1 == b.1 + 1 || b.1 == a.1 + 1)
    ||| a.1 == b.1 && (a.0 == b.0 + 1 || b.0 == a.0 + 1)
}

/// A walk through open cells, from side to side, that starts on the top row.
pub open spec fn is_open_path(g: Seq<Seq<Option<NominoColor>>>, path: Seq<(int, int)>) -> bool {
    &&& path.len() > 0
    &&& path[0].0 == g.len() - 1
    &&& forall|i: int| 0 <= i < path.len() ==> is_open(g, #[trigger] path[i])
    &&& forall|i: int| 0 <= i < path.len() - 1 ==> adjacent(#[trigger] path[i], path[i + 1])
}

/// `cell` is an open cell that an open path links to the top of the bag.
pub open spec fn connected_to_top(g: Seq<Seq<Option<NominoColor>>>, cell: (int, int)) -> bool {
    exists|path: Seq<(int, int)>| #[trigger] is_open_path(g, path) && path.last() == cell
}

/// For each cell of the bag, whether it is connected to the top.
pub open spec fn connected_cells(g: Seq<Seq<Option<NominoColor>>>) -> Seq<Seq<bool>> {
    Seq::new(g.len(), |r: int| Seq::new(g[r].len(), |c: int| connected_to_top(g, (r, c))))
}

/// The number of open cells of the bag that are connected to its top.
pub open spec fn spec_connected_empties_count(g: Seq<Seq<Option<NominoColor>>>) -> nat {
    count_in_grid(connected_cells(g), marked())
}

/// The bag has at least one row, all its rows have the same length, it has at most 255
/// cells, and its rows can be numbered with a `u8`.
pub open spec fn is_well_formed_bag(g: Seq<Seq<Option<NominoColor>>>) -> bool {
    &&& 1 <= g.len() <= 256
    &&& is_rectangular(g, g[0].len())
    &&& g.len() * g[0].len() <= 255
}

/// A cell position, row then column.
#[derive(Debug, Clone, Copy, PartialEq, Eq, Structural)]
pub struct RowCol(pub u8, pub u8);

/// The position of a cell as a pair of integers.
pub open spec fn pos(rc: RowCol) -> (int, int) {
    (rc.0 as int, rc.1 as int)
}

impl RowCol {
    /// The cell to the left, if the column is not the first.
    pub fn left(self) -> (neighbor: Option<RowCol>)
        ensures
            neighbor == (if self.1 > 0 {
                Some(RowCol(self.0, (self.1 - 1) as u8))
            } else {
                None
            }),
    {
        if self.1 > 0 {
            Some(RowCol(self.0, self.1 - 1))
        } else {
            None
        }
    }

    /// The cell to the right, if the column is below `max`.
    pub fn right(self, max: u8) -> (neighbor: Option<RowCol>)
        ensures
            neighbor == (if self.1 < max {
                Some(RowCol(self.0, (self.1 + 1) as u8))
            } else {
                None
            }),
    {
        if self.1 < max {
            Some(RowCol(self.0, self.1 + 1))
        } else {
            None
        }
    }

    /// The cell above, if the row is below `max`.
    pub fn up(self, max: u8) -> (neighbor: Option<RowCol>)
        ensures
            neighbor == (if self.0 < max {
                Some(RowCol((self.0 + 1) as u8, self.1))
            } else {
                None
            }),
    {
        if self.0 < max {
            Some(RowCol(self.0 + 1, self.1))
        } else {
            None
        }
    }

    /// The cell below, if the row is not the bottom one.
    pub fn down(self) -> (neighbor: Option<RowCol>)
        ensures
            neighbor == (if self.0 > 0 {
                Some(RowCol((self.0 - 1) as u8, self.1))
            } else {
                None
            }),
    {
        if self.0 > 0 {
            Some(RowCol(self.0 - 1, self.1))
        } else {
            None
        }
    }
}

/// All cells of a path but the last one are open; the last one lies in the bag.
spec fn is_lead_path(g: Seq<Seq<Option<NominoColor>>>, path: Seq<(int, int)>) -> bool {
    &&& path.len() > 0
    &&& path[0].0 == g.len() - 1
    &&& forall|i: int| 0 <= i < path.len() - 1 ==> is_open(g, #[trigger] path[i])
    &&& in_grid(g, path.last())
    &&& forall|i: int| 0 <= i < path.len() - 1 ==> adjacent(#[trigger] path[i], path[i + 1])
}

/// Every neighbor of (r, c) inside the `n` by `m` grid has been reached.
spec fn neighbors_touched(t: Seq<Seq<bool>>, r: int, c: int, n: int, m: int) -> bool {
    &&& r > 0 ==> t[r - 1][c]
    &&& r + 1 < n ==> t[r + 1][c]
    &&& c > 0 ==> t[r][c - 1]
    &&& c + 1 < m ==> t[r][c + 1]
}

/// The grids have `n` rows of `m` cells, and the queue counters are ordered.
spec fn inv_shape(
    g: Seq<Seq<Option<NominoColor>>>,
    n: int,
    m: int,
    t: Seq<Seq<bool>>,
    cnt: Seq<Seq<bool>>,
    fr: Seq<RowCol>,
    head: int,
    done: int,
) -> bool {
    &&& n >= 1
    &&& m >= 0
    &&& g.len() == n
    &&& is_rectangular(g, m as nat)
    &&& t.len() == n
    &&& is_rectangular(t, m as nat)
    &&& cnt.len() == n
    &&& is_rectangular(cnt, m as nat)
    &&& 0 <= done <= head <= fr.len()
}

/// The queue holds distinct reached cells below the top row; those not yet taken out are
/// not counted.
#[verifier::opaque]
spec fn inv_queue(n: int, m: int, t: Seq<Seq<bool>>, cnt: Seq<Seq<bool>>, fr: Seq<RowCol>, head: int) -> bool {
    &&& forall|k: int|
        0 <= k < fr.len() ==> {
            let p = pos(#[trigger] fr[k]);
            &&& p.0 < n - 1
            &&& p.1 < m
            &&& t[p.0][p.1]
        }
    &&& forall|k1: int, k2: int|
        0 <= k1 < fr.len() && 0 <= k2 < fr.len() && k1 != k2 ==> #[trigger] fr[k1] != #[trigger] fr[k2]
    &&& forall|k: int| head <= k < fr.len() ==> !cnt[pos(#[trigger] fr[k]).0][pos(fr[k]).1]
}

/// Counted cells are reached, open and connected to the top.
#[verifier::opaque]
spec fn inv_counted(
    g: Seq<Seq<Option<NominoColor>>>,
    n: int,
    m: int,
    t: Seq<Seq<bool>>,
    cnt: Seq<Seq<bool>>,
) -> bool {
    forall|r: int, c: int|
        0 <= r < n && 0 <= c < m && #[trigger] cnt[r][c] ==> t[r][c] && is_open(g, (r, c))
            && connected_to_top(g, (r, c))
}

/// The top row is reached and its open cells are counted; the cells under them are reached.
#[verifier::opaque]
spec fn inv_top(
    g: Seq<Seq<Option<NominoColor>>>,
    n: int,
    m: int,
    t: Seq<Seq<bool>>,
    cnt: Seq<Seq<bool>>,
) -> bool {
    &&& forall|c: int|
        0 <= c < m ==> #[trigger] t[n - 1][c] && (cnt[n - 1][c] <==> is_open(g, (n - 1, c)))
    &&& forall|c: int| 0 <= c < m && n > 1 && #[trigger] is_open(g, (n - 1, c)) ==> t[n - 2][c]
}

/// Every reached cell below the top row sits in the queue at a known place, at the end of
/// a lead path.
#[verifier::opaque]
spec fn inv_reached(
    g: Seq<Seq<Option<NominoColor>>>,
    n: int,
    m: int,
    t: Seq<Seq<bool>>,
    fr: Seq<RowCol>,
    index: Map<(int, int), int>,
    paths: Map<(int, int), Seq<(int, int)>>,
) -> bool {
    forall|r: int, c: int|
        0 <= r < n - 1 && 0 <= c < m && #[trigger] t[r][c] ==> {
            &&& index.contains_key((r, c))
            &&& 0 <= index[(r, c)] < fr.len()
            &&& pos(fr[index[(r, c)]]) == (r, c)
            &&& paths.contains_key((r, c))
            &&& is_lead_path(g, paths[(r, c)])
            &&& paths[(r, c)].last() == (r, c)
        }
}

/// The first `done` queued cells are handled: if open, they are counted and all their
/// neighbors are reached.
#[verifier::opaque]
spec fn inv_done(
    g: Seq<Seq<Option<NominoColor>>>,
    n: int,
    m: int,
    t: Seq<Seq<bool>>,
    cnt: Seq<Seq<bool>>,
    fr: Seq<RowCol>,
    done: int,
) -> bool {
    forall|k: int|
        0 <= k < done && is_open(g, pos(#[trigger] fr[k])) ==> cnt[pos(fr[k]).0][pos(fr[k]).1]
            && neighbors_touched(t, pos(fr[k]).0, pos(fr[k]).1, n, m)
}

/// The state of the search for open cells connected to the top.
/// `t` marks the cells reached, `cnt` the cells counted, `fr` the queue of cells reached
/// below the top row, of which the first `head` were taken out and the first `done`
/// fully handled.
spec fn search_inv(
    g: Seq<Seq<Option<NominoColor>>>,
    n: int,
    m: int,
    t: Seq<Seq<bool>>,
    cnt: Seq<Seq<bool>>,
    fr: Seq<RowCol>,
    head: int,
    done: int,
    index: Map<(int, int), int>,
    paths: Map<(int, int), Seq<(int, int)>>,
) -> bool {
    &&& inv_shape(g, n, m, t, cnt, fr, head, done)
    &&& inv_queue(n, m, t, cnt, fr, head)
    &&& inv_counted(g, n, m, t, cnt)
    &&& inv_top(g, n, m, t, cnt)
    &&& inv_reached(g, n, m, t, fr, index, paths)
    &&& inv_done(g, n, m, t, cnt, fr, done)
}

/// Extending a lead path that ends in an open cell by a neighbor gives a lead path.
proof fn lemma_extend_lead_path(
    g: Seq<Seq<Option<NominoColor>>>,
    path: Seq<(int, int)>,
    next: (int, int),
)
    requires
        is_lead_path(g, path),
        is_open(g, path.last()),
        adjacent(path.last(), next),
        in_grid(g, next),
    ensures
        is_lead_path(g, path.push(next)),
        path.push(next).last() == next,
{
    let p2 = path.push(next);
    assert forall|i: int| 0 <= i < p2.len() - 1 implies is_open(g, #[trigger] p2[i]) by {
        assert(p2[i] == path[i]);
    }
    assert forall|i: int| 0 <= i < p2.len() - 1 implies adjacent(#[trigger] p2[i], p2[i + 1]) by {
        assert(p2[i] == path[i]);
        if i < path.len() - 1 {
            assert(p2[i + 1] == path[i + 1]);
        }
    }
}

/// Marking a new cell reached and queueing it, with a lead path through the cell being
/// handled, keeps the search state.
proof fn lemma_touch(
    g: Seq<Seq<Option<NominoColor>>>,
    n: int,
    m: int,
    t: Seq<Seq<bool>>,
    cnt: Seq<Seq<bool>>,
    fr: Seq<RowCol>,
    head: int,
    done: int,
    index: Map<(int, int), int>,
    paths: Map<(int, int), Seq<(int, int)>>,
    cur: (int, int),
    nb: RowCol,
)
    requires
        search_inv(g, n, m, t, cnt, fr, head, done, index, paths),
        0 <= cur.0 < n - 1,
        0 <= cur.1 < m,
        t[cur.0][cur.1],
        is_open(g, cur),
        adjacent(cur, pos(nb)),
        0 <= pos(nb).0 < n,
        0 <= pos(nb).1 < m,
        !t[pos(nb).0][pos(nb).1],
    ensures
        pos(nb).0 < n - 1,
        search_inv(
            g,
            n,
            m,
            t.update(pos(nb).0, t[pos(nb).0].update(pos(nb).1, true)),
            cnt,
            fr.push(nb),
            head,
            done,
            index.insert(pos(nb), fr.len() as int),
            paths.insert(pos(nb), paths[cur].push(pos(nb))),
        ),
        paths.insert(pos(nb), paths[cur].push(pos(nb)))[cur] == paths[cur],
{
    let p = pos(nb);
    reveal(inv_top);
    assert(paths.contains_key(cur) && is_lead_path(g, paths[cur]) && paths[cur].last() == cur) by {
        reveal(inv_reached);
    }
    if p.0 == n - 1 {
        assert(t[n - 1][p.1]);
    }
    let t2 = t.update(p.0, t[p.0].update(p.1, true));
    let fr2 = fr.push(nb);
    let index2 = index.insert(p, fr.len() as int);
    let path = paths[cur].push(p);
    let paths2 = paths.insert(p, path);
    assert(p != cur);
    assert(forall|r: int, c: int| 0 <= r < n && 0 <= c < m && #[trigger] t[r][c] ==> t2[r][c]);
    assert(inv_shape(g, n, m, t2, cnt, fr2, head, done)) by {
        assert forall|r: int| 0 <= r < t2.len() implies (#[trigger] t2[r]).len() == m by {
            assert(t[r].len() == m);
        }
    }
    lemma_extend_lead_path(g, paths[cur], p);
    assert(inv_queue(n, m, t2, cnt, fr2, head)) by {
        reveal(inv_queue);
        assert forall|k: int| 0 <= k < fr2.len() implies {
            let q = pos(#[trigger] fr2[k]);
            &&& q.0 < n - 1
            &&& q.1 < m
            &&& t2[q.0][q.1]
        } by {
            if k < fr.len() {
                assert(fr2[k] == fr[k]);
            }
        }
        assert forall|k1: int, k2: int|
            0 <= k1 < fr2.len() && 0 <= k2 < fr2.len() && k1 != k2 implies #[trigger] fr2[k1]
            != #[trigger] fr2[k2] by {
            if k1 < fr.len() && k2 < fr.len() {
                assert(fr2[k1] == fr[k1] && fr2[k2] == fr[k2]);
            } else if k1 < fr.len() {
                assert(fr2[k1] == fr[k1]);
                assert(t[pos(fr[k1]).0][pos(fr[k1]).1]);
            } else {
                assert(fr2[k2] == fr[k2]);
                assert(t[pos(fr[k2]).0][pos(fr[k2]).1]);
            }
        }
        assert forall|k: int| head <= k < fr2.len() implies !cnt[pos(#[trigger] fr2[k]).0][pos(
            fr2[k],
        ).1] by {
            if k < fr.len() {
                assert(fr2[k] == fr[k]);
            } else {
                assert(fr2[k] == nb);
                reveal(inv_counted);
            }
        }
    }
    assert(inv_counted(g, n, m, t2, cnt)) by {
        reveal(inv_counted);
    }
    assert(inv_top(g, n, m, t2, cnt));
    assert(inv_reached(g, n, m, t2, fr2, index2, paths2)) by {
        reveal(inv_reached);
        assert forall|r: int, c: int| 0 <= r < n - 1 && 0 <= c < m && #[trigger] t2[r][c] implies {
            &&& index2.contains_key((r, c))
            &&& 0 <= index2[(r, c)] < fr2.len()
            &&& pos(fr2[index2[(r, c)]]) == (r, c)
            &&& paths2.contains_key((r, c))
            &&& is_lead_path(g, paths2[(r, c)])
            &&& paths2[(r, c)].last() == (r, c)
        } by {
            if (r, c) != p {
                assert(t[r][c]);
                assert(fr2[index[(r, c)]] == fr[index[(r, c)]]);
            }
        }
    }
    assert(inv_done(g, n, m, t2, cnt, fr2, done)) by {
        reveal(inv_done);
        assert forall|k: int|
            0 <= k < done && is_open(g, pos(#[trigger] fr2[k])) implies cnt[pos(fr2[k]).0][pos(
            fr2[k],
        ).1] && neighbors_touched(t2, pos(fr2[k]).0, pos(fr2[k]).1, n, m) by {
            assert(fr2[k] == fr[k]);
            let q = pos(fr[k]);
            assert(neighbors_touched(t, q.0, q.1, n, m));
        }
    }
}

/// A lead path whose last cell is open is an open path.
proof fn lemma_lead_path_open(g: Seq<Seq<Option<NominoColor>>>, path: Seq<(int, int)>)
    requires
        is_lead_path(g, path),
        is_open(g, path.last()),
    ensures
        is_open_path(g, path),
{
    assert forall|i: int| 0 <= i < path.len() implies is_open(g, #[trigger] path[i]) by {
        if i == path.len() - 1 {
            assert(path[i] == path.last());
        }
    }
}

/// Taking a filled cell out of the queue: it is handled at once.
proof fn lemma_visit_filled(
    g: Seq<Seq<Option<NominoColor>>>,
    n: int,
    m: int,
    t: Seq<Seq<bool>>,
    cnt: Seq<Seq<bool>>,
    fr: Seq<RowCol>,
    head: int,
    index: Map<(int, int), int>,
    paths: Map<(int, int), Seq<(int, int)>>,
)
    requires
        search_inv(g, n, m, t, cnt, fr, head, head, index, paths),
        head < fr.len(),
        !is_open(g, pos(fr[head])),
    ensures
        search_inv(g, n, m, t, cnt, fr, head + 1, head + 1, index, paths),
{
    reveal(inv_queue);
    reveal(inv_done);
}

/// Taking an open cell out of the queue and counting it.
proof fn lemma_visit_open(
    g: Seq<Seq<Option<NominoColor>>>,
    n: int,
    m: int,
    t: Seq<Seq<bool>>,
    cnt: Seq<Seq<bool>>,
    fr: Seq<RowCol>,
    head: int,
    index: Map<(int, int), int>,
    paths: Map<(int, int), Seq<(int, int)>>,
)
    requires
        search_inv(g, n, m, t, cnt, fr, head, head, index, paths),
        head < fr.len(),
        is_open(g, pos(fr[head])),
    ensures
        ({
            let cur = pos(fr[head]);
            &&& 0 <= cur.0 < n - 1
            &&& 0 <= cur.1 < m
            &&& t[cur.0][cur.1]
            &&& !cnt[cur.0][cur.1]
            &&& search_inv(
                g,
                n,
                m,
                t,
                cnt.update(cur.0, cnt[cur.0].update(cur.1, true)),
                fr,
                head + 1,
                head,
                index,
                paths,
            )
        }),
{
    let cur = pos(fr[head]);
    reveal(inv_queue);
    let cnt2 = cnt.update(cur.0, cnt[cur.0].update(cur.1, true));
    assert(paths.contains_key(cur) && is_lead_path(g, paths[cur]) && paths[cur].last() == cur) by {
        reveal(inv_reached);
    }
    lemma_lead_path_open(g, paths[cur]);
    assert(forall|r: int, c: int|
        0 <= r < n && 0 <= c < m && #[trigger] cnt[r][c] ==> cnt2[r][c]);
    assert(inv_shape(g, n, m, t, cnt2, fr, head + 1, head)) by {
        assert forall|r: int| 0 <= r < cnt2.len() implies (#[trigger] cnt2[r]).len() == m by {
            assert(cnt[r].len() == m);
        }
    }
    assert(inv_queue(n, m, t, cnt2, fr, head + 1)) by {
        assert forall|k: int| head + 1 <= k < fr.len() implies !cnt2[pos(#[trigger] fr[k]).0][pos(
            fr[k],
        ).1] by {
            assert(fr[k] != fr[head]);
        }
    }
    assert(inv_counted(g, n, m, t, cnt2)) by {
        reveal(inv_counted);
        assert forall|r: int, c: int| 0 <= r < n && 0 <= c < m && #[trigger] cnt2[r][c] implies t[r][c]
            && is_open(g, (r, c)) && connected_to_top(g, (r, c)) by {
            if (r, c) == cur {
                assert(is_open_path(g, paths[cur]));
            } else {
                assert(cnt[r][c]);
            }
        }
    }
    assert(inv_top(g, n, m, t, cnt2)) by {
        reveal(inv_top);
        assert forall|c: int| 0 <= c < m implies #[trigger] t[n - 1][c] && (cnt2[n - 1][c]
            <==> is_open(g, (n - 1, c))) by {
            assert(cnt2[n - 1][c] == cnt[n - 1][c]);
        }
    }
    assert(inv_done(g, n, m, t, cnt2, fr, head)) by {
        reveal(inv_done);
    }
}

/// Once all neighbors of the open cell taken out last are reached, that cell is handled.
proof fn lemma_finish_visit(
    g: Seq<Seq<Option<NominoColor>>>,
    n: int,
    m: int,
    t: Seq<Seq<bool>>,
    cnt: Seq<Seq<bool>>,
    fr: Seq<RowCol>,
    head: int,
    index: Map<(int, int), int>,
    paths: Map<(int, int), Seq<(int, int)>>,
)
    requires
        search_inv(g, n, m, t, cnt, fr, head + 1, head, index, paths),
        is_open(g, pos(fr[head])),
        cnt[pos(fr[head]).0][pos(fr[head]).1],
        neighbors_touched(t, pos(fr[head]).0, pos(fr[head]).1, n, m),
    ensures
        search_inv(g, n, m, t, cnt, fr, head + 1, head + 1, index, paths),
{
    reveal(inv_done);
}

/// When the queue is used up, every open cell connected to the top is counted.
proof fn lemma_path_counted(
    g: Seq<Seq<Option<NominoColor>>>,
    n: int,
    m: int,
    t: Seq<Seq<bool>>,
    cnt: Seq<Seq<bool>>,
    fr: Seq<RowCol>,
    index: Map<(int, int), int>,
    paths: Map<(int, int), Seq<(int, int)>>,
    path: Seq<(int, int)>,
)
    requires
        search_inv(g, n, m, t, cnt, fr, fr.len() as int, fr.len() as int, index, paths),
        is_open_path(g, path),
    ensures
        cnt[path.last().0][path.last().1],
    decreases path.len(),
{
    reveal(inv_top);
    let last = path.last();
    assert(is_open(g, path[path.len() - 1]));
    assert(g[last.0].len() == m);
    if path.len() == 1 {
        assert(path[0] == last);
        assert(t[n - 1][last.1]);
    } else {
        let prefix = path.drop_last();
        assert(is_open_path(g, prefix)) by {
            assert forall|i: int| 0 <= i < prefix.len() implies is_open(g, #[trigger] prefix[i]) by {
                assert(prefix[i] == path[i]);
            }
            assert forall|i: int| 0 <= i < prefix.len() - 1 implies adjacent(
                #[trigger] prefix[i],
                prefix[i + 1],
            ) by {
                assert(prefix[i] == path[i]);
                assert(prefix[i + 1] == path[i + 1]);
            }
        }
        lemma_path_counted(g, n, m, t, cnt, fr, index, paths, prefix);
        let prev = prefix.last();
        assert(prev == path[path.len() - 2]);
        assert(adjacent(path[path.len() - 2], path[path.len() - 1]));
        assert(is_open(g, path[path.len() - 2]));
        assert(g[prev.0].len() == m);
        if prev.0 == n - 1 {
            if last.0 == n - 1 {
                assert(t[n - 1][last.1]);
            } else {
                assert(t[n - 2][prev.1]);
            }
        } else {
            assert(t[prev.0][prev.1]) by {
                reveal(inv_counted);
            }
            assert(t[last.0][last.1]) by {
                reveal(inv_reached);
                reveal(inv_done);
                let k = index[prev];
                assert(pos(fr[k]) == prev);
            }
        }
        if last.0 < n - 1 {
            reveal(inv_reached);
            reveal(inv_done);
            let k = index[last];
            assert(pos(fr[k]) == last);
        } else {
            assert(t[n - 1][last.1]);
        }
    }
}

/// When the queue is used up, the counted cells are exactly the cells connected to the top.
proof fn lemma_search_complete(
    g: Seq<Seq<Option<NominoColor>>>,
    n: int,
    m: int,
    t: Seq<Seq<bool>>,
    cnt: Seq<Seq<bool>>,
    fr: Seq<RowCol>,
    index: Map<(int, int), int>,
    paths: Map<(int, int), Seq<(int, int)>>,
)
    requires
        search_inv(g, n, m, t, cnt, fr, fr.len() as int, fr.len() as int, index, paths),
    ensures
        cnt =~~= connected_cells(g),
{
    let cc = connected_cells(g);
    assert forall|r: int| 0 <= r < n implies #[trigger] cnt[r] =~= cc[r] by {
        assert(cnt[r].len() == m);
        assert(g[r].len() == m);
        assert forall|c: int| 0 <= c < m implies cnt[r][c] == #[trigger] cc[r][c] by {
            if cnt[r][c] {
                reveal(inv_counted);
            }
            if connected_to_top(g, (r, c)) {
                let path = choose|path: Seq<(int, int)>| #[trigger]
                    is_open_path(g, path) && path.last() == (r, c);
                lemma_path_counted(g, n, m, t, cnt, fr, index, paths, path);
            }
        }
    }
}

/// The state after the first `i` cells of the top row were looked at: they are reached,
/// the open ones are counted, and the cells under the open ones are reached and queued.
#[verifier::opaque]
spec fn top_inv(
    g: Seq<Seq<Option<NominoColor>>>,
    n: int,
    m: int,
    i: int,
    t: Seq<Seq<bool>>,
    cnt: Seq<Seq<bool>>,
    fr: Seq<RowCol>,
    index: Map<(int, int), int>,
    paths: Map<(int, int), Seq<(int, int)>>,
) -> bool {
    &&& n >= 1
    &&& m >= 0
    &&& g.len() == n
    &&& is_rectangular(g, m as nat)
    &&& t.len() == n
    &&& is_rectangular(t, m as nat)
    &&& cnt.len() == n
    &&& is_rectangular(cnt, m as nat)
    &&& 0 <= i <= m
    &&& forall|r: int, c: int|
        0 <= r < n && 0 <= c < m ==> #[trigger] t[r][c] == ((r == n - 1 && c < i) || (r == n - 2
            && c < i && is_open(g, (n - 1, c))))
    &&& forall|r: int, c: int|
        0 <= r < n && 0 <= c < m ==> #[trigger] cnt[r][c] == (r == n - 1 && c < i && is_open(
            g,
            (n - 1, c),
        ))
    &&& forall|k: int|
        0 <= k < fr.len() ==> {
            let p = pos(#[trigger] fr[k]);
            &&& p.0 == n - 2
            &&& p.1 < i
            &&& is_open(g, (n - 1, p.1))
        }
    &&& forall|k1: int, k2: int|
        0 <= k1 < k2 < fr.len() ==> pos(#[trigger] fr[k1]).1 < pos(#[trigger] fr[k2]).1
    &&& forall|c: int|
        0 <= c < i && n > 1 && #[trigger] is_open(g, (n - 1, c)) ==> {
            &&& index.contains_key((n - 2, c))
            &&& 0 <= index[(n - 2, c)] < fr.len()
            &&& pos(fr[index[(n - 2, c)]]) == (n - 2, c)
            &&& paths.contains_key((n - 2, c))
            &&& paths[(n - 2, c)] == seq![(n - 1, c), (n - 2, c)]
        }
}

/// Before the top row is looked at, nothing is reached, counted or queued.
proof fn lemma_top_start(
    g: Seq<Seq<Option<NominoColor>>>,
    n: int,
    m: int,
    t: Seq<Seq<bool>>,
    cnt: Seq<Seq<bool>>,
)
    requires
        n >= 1,
        m >= 0,
        g.len() == n,
        is_rectangular(g, m as nat),
        t.len() == n,
        is_rectangular(t, m as nat),
        cnt.len() == n,
        is_rectangular(cnt, m as nat),
        forall|r: int, c: int| 0 <= r < n && 0 <= c < m ==> !#[trigger] t[r][c],
        forall|r: int, c: int| 0 <= r < n && 0 <= c < m ==> !#[trigger] cnt[r][c],
    ensures
        top_inv(g, n, m, 0, t, cnt, Seq::empty(), Map::empty(), Map::empty()),
{
    reveal(top_inv);
}

/// Looking at top cell `i`: if open it is counted and the cell under it, if any, is reached
/// and queued with a two-cell lead path; either way the top cell is reached.
proof fn lemma_top_step(
    g: Seq<Seq<Option<NominoColor>>>,
    n: int,
    m: int,
    i: int,
    t: Seq<Seq<bool>>,
    cnt: Seq<Seq<bool>>,
    fr: Seq<RowCol>,
    index: Map<(int, int), int>,
    paths: Map<(int, int), Seq<(int, int)>>,
    nb: RowCol,
)
    requires
        top_inv(g, n, m, i, t, cnt, fr, index, paths),
        i < m,
        n > 1 ==> pos(nb) == (n - 2, i),
    ensures
        ({
            let open = is_open(g, (n - 1, i));
            let cnt2 = if open {
                cnt.update(n - 1, cnt[n - 1].update(i, true))
            } else {
                cnt
            };
            let below = open && n > 1;
            let t1 = if below {
                t.update(n - 2, t[n - 2].update(i, true))
            } else {
                t
            };
            let fr2 = if below {
                fr.push(nb)
            } else {
                fr
            };
            let index2 = if below {
                index.insert((n - 2, i), fr.len() as int)
            } else {
                index
            };
            let paths2 = if below {
                paths.insert((n - 2, i), seq![(n - 1, i), (n - 2, i)])
            } else {
                paths
            };
            let t2 = t1.update(n - 1, t1[n - 1].update(i, true));
            &&& open ==> !cnt[n - 1][i]
            &&& below ==> !t[n - 2][i]
            &&& !t1[n - 1][i]
            &&& top_inv(g, n, m, i + 1, t2, cnt2, fr2, index2, paths2)
        }),
{
    reveal(top_inv);
    let open = is_open(g, (n - 1, i));
    let cnt2 = if open {
        cnt.update(n - 1, cnt[n - 1].update(i, true))
    } else {
        cnt
    };
    let below = open && n > 1;
    let t1 = if below {
        t.update(n - 2, t[n - 2].update(i, true))
    } else {
        t
    };
    let fr2 = if below {
        fr.push(nb)
    } else {
        fr
    };
    let index2 = if below {
        index.insert((n - 2, i), fr.len() as int)
    } else {
        index
    };
    let paths2 = if below {
        paths.insert((n - 2, i), seq![(n - 1, i), (n - 2, i)])
    } else {
        paths
    };
    let t2 = t1.update(n - 1, t1[n - 1].update(i, true));
    assert(t[n - 1][i] == false);
    if open {
        assert(cnt[n - 1][i] == false);
    }
    if below {
        assert(t[n - 2][i] == false);
    }
    assert forall|r: int| 0 <= r < n implies (#[trigger] t2[r]).len() == m && cnt2[r].len() == m by {
        assert(t[r].len() == m);
        assert(cnt[r].len() == m);
    }
    assert forall|r: int, c: int| 0 <= r < n && 0 <= c < m implies #[trigger] t2[r][c] == ((r == n
        - 1 && c < i + 1) || (r == n - 2 && c < i + 1 && is_open(g, (n - 1, c)))) by {
        assert(t[r][c] == ((r == n - 1 && c < i) || (r == n - 2 && c < i && is_open(g, (n - 1, c)))));
    }
    assert forall|r: int, c: int| 0 <= r < n && 0 <= c < m implies #[trigger] cnt2[r][c] == (r == n
        - 1 && c < i + 1 && is_open(g, (n - 1, c))) by {
        assert(cnt[r][c] == (r == n - 1 && c < i && is_open(g, (n - 1, c))));
    }
    assert forall|k: int| 0 <= k < fr2.len() implies {
        let p = pos(#[trigger] fr2[k]);
        &&& p.0 == n - 2
        &&& p.1 < i + 1
        &&& is_open(g, (n - 1, p.1))
    } by {
        if k < fr.len() {
            assert(fr2[k] == fr[k]);
        }
    }
    assert forall|k1: int, k2: int| 0 <= k1 < k2 < fr2.len() implies pos(#[trigger] fr2[k1]).1 < pos(
        #[trigger] fr2[k2],
    ).1 by {
        assert(fr2[k1] == fr[k1]);
        if k2 < fr.len() {
            assert(fr2[k2] == fr[k2]);
        }
    }
    assert forall|c: int| 0 <= c < i + 1 && n > 1 && #[trigger] is_open(g, (n - 1, c)) implies {
        &&& index2.contains_key((n - 2, c))
        &&& 0 <= index2[(n - 2, c)] < fr2.len()
        &&& pos(fr2[index2[(n - 2, c)]]) == (n - 2, c)
        &&& paths2.contains_key((n - 2, c))
        &&& paths2[(n - 2, c)] == seq![(n - 1, c), (n - 2, c)]
    } by {
        if c < i {
            assert(fr2[index[(n - 2, c)]] == fr[index[(n - 2, c)]]);
        }
    }
}

/// After the whole top row is looked at, the search state holds with nothing taken out.
proof fn lemma_top_end(
    g: Seq<Seq<Option<NominoColor>>>,
    n: int,
    m: int,
    t: Seq<Seq<bool>>,
    cnt: Seq<Seq<bool>>,
    fr: Seq<RowCol>,
    index: Map<(int, int), int>,
    paths: Map<(int, int), Seq<(int, int)>>,
)
    requires
        top_inv(g, n, m, m, t, cnt, fr, index, paths),
    ensures
        search_inv(g, n, m, t, cnt, fr, 0, 0, index, paths),
{
    reveal(top_inv);
    assert(inv_queue(n, m, t, cnt, fr, 0)) by {
        reveal(inv_queue);
        assert forall|k: int| 0 <= k < fr.len() implies {
            let p = pos(#[trigger] fr[k]);
            &&& p.0 < n - 1
            &&& p.1 < m
            &&& t[p.0][p.1]
        } by {
            let p = pos(fr[k]);
            assert(t[p.0][p.1] == ((p.0 == n - 1 && p.1 < m) || (p.0 == n - 2 && p.1 < m && is_open(
                g,
                (n - 1, p.1),
            ))));
        }
        assert forall|k1: int, k2: int|
            0 <= k1 < fr.len() && 0 <= k2 < fr.len() && k1 != k2 implies #[trigger] fr[k1]
            != #[trigger] fr[k2] by {
            if k1 < k2 {
                assert(pos(fr[k1]).1 < pos(fr[k2]).1);
            } else {
                assert(pos(fr[k2]).1 < pos(fr[k1]).1);
            }
        }
        assert forall|k: int| 0 <= k < fr.len() implies !cnt[pos(#[trigger] fr[k]).0][pos(
            fr[k],
        ).1] by {
            let p = pos(fr[k]);
            assert(cnt[p.0][p.1] == (p.0 == n - 1 && p.1 < m && is_open(g, (n - 1, p.1))));
        }
    }
    assert(inv_counted(g, n, m, t, cnt)) by {
        reveal(inv_counted);
        assert forall|r: int, c: int| 0 <= r < n && 0 <= c < m && #[trigger] cnt[r][c] implies t[r][c]
            && is_open(g, (r, c)) && connected_to_top(g, (r, c)) by {
            let path = seq![(r, c)];
            assert(is_open_path(g, path));
        }
    }
    assert(inv_top(g, n, m, t, cnt)) by {
        reveal(inv_top);
        assert forall|c: int| 0 <= c < m implies #[trigger] t[n - 1][c] && (cnt[n - 1][c] <==> is_open(
            g,
            (n - 1, c),
        )) by {
            assert(t[n - 1][c] == ((n - 1 == n - 1 && c < m) || (n - 1 == n - 2 && c < m && is_open(
                g,
                (n - 1, c),
            ))));
            assert(cnt[n - 1][c] == (n - 1 == n - 1 && c < m && is_open(g, (n - 1, c))));
        }
        assert forall|c: int| 0 <= c < m && n > 1 && #[trigger] is_open(g, (n - 1, c)) implies t[n
            - 2][c] by {
            assert(t[n - 2][c] == ((n - 2 == n - 1 && c < m) || (n - 2 == n - 2 && c < m && is_open(
                g,
                (n - 1, c),
            ))));
        }
    }
    assert(inv_reached(g, n, m, t, fr, index, paths)) by {
        reveal(inv_reached);
        assert forall|r: int, c: int| 0 <= r < n - 1 && 0 <= c < m && #[trigger] t[r][c] implies {
            &&& index.contains_key((r, c))
            &&& 0 <= index[(r, c)] < fr.len()
            &&& pos(fr[index[(r, c)]]) == (r, c)
            &&& paths.contains_key((r, c))
            &&& is_lead_path(g, paths[(r, c)])
            &&& paths[(r, c)].last() == (r, c)
        } by {
            assert(r == n - 2 && is_open(g, (n - 1, c)));
            let path = seq![(n - 1, c), (n - 2, c)];
            assert(paths[(r, c)] == path);
            assert(g[r].len() == m);
            assert(is_lead_path(g, path)) by {
                assert(path[0] == (n - 1, c));
                assert(path[1] == (n - 2, c));
            }
        }
    }
    assert(inv_done(g, n, m, t, cnt, fr, 0)) by {
        reveal(inv_done);
    }
}

/// Queued cells lie below the top row, inside the grid, and are reached.
proof fn lemma_queued(
    g: Seq<Seq<Option<NominoColor>>>,
    n: int,
    m: int,
    t: Seq<Seq<bool>>,
    cnt: Seq<Seq<bool>>,
    fr: Seq<RowCol>,
    head: int,
    done: int,
    index: Map<(int, int), int>,
    paths: Map<(int, int), Seq<(int, int)>>,
    k: int,
)
    requires
        search_inv(g, n, m, t, cnt, fr, head, done, index, paths),
        0 <= k < fr.len(),
    ensures
        pos(fr[k]).0 < n - 1,
        pos(fr[k]).1 < m,
        t[pos(fr[k]).0][pos(fr[k]).1],
{
    reveal(inv_queue);
}

/// Counts the open cells of the bag that an open path links to its top row: the cells
/// that a search from the open top cells reaches through neighboring open cells.
pub fn get_connected_empties_count(matrix: &[Vec<Option<NominoColor>>]) -> (count: u8)
    requires
        is_well_formed_bag(bag_grid(matrix@)),
    ensures
        count == spec_connected_empties_count(bag_grid(matrix@)),
{
    let ghost g = bag_grid(matrix@);
    let rows = matrix.len();
    let top = rows - 1;
    let cols = matrix[top].len();
    let ghost n = rows as int;
    let ghost m = cols as int;
    proof {
        assert(g[n - 1].len() == g[0].len());
        assert(m <= 255) by (nonlinear_arith)
            requires
                n >= 1,
                n * m <= 255,
                m >= 0,
        ;
    }
    let mut touched: Vec<Vec<bool>> = Vec::new();
    let mut r: usize = 0;
    while r < rows
        invariant
            r <= rows,
            touched@.len() == r,
            forall|k: int| 0 <= k < r ==> (#[trigger] touched@[k])@ == Seq::new(cols as nat, |c: int| false),
        decreases rows - r,
    {
        let mut row: Vec<bool> = Vec::new();
        let mut c: usize = 0;
        while c < cols
            invariant
                c <= cols,
                row@ == Seq::new(c as nat, |x: int| false),
            decreases cols - c,
        {
            row.push(false);
            c += 1;
        }
        touched.push(row);
        r += 1;
    }
    let ghost mut cnt: Seq<Seq<bool>> = Seq::new(n as nat, |r: int| Seq::new(m as nat, |c: int| false));
    let ghost mut index: Map<(int, int), int> = Map::empty();
    let ghost mut paths: Map<(int, int), Seq<(int, int)>> = Map::empty();
    let mut frontier: Vec<RowCol> = Vec::new();
    let mut connected_to_top: u8 = 0;
    let top_row_index = top as u8;
    proof {
        let t = flag_grid(touched@);
        assert forall|r: int| 0 <= r < n implies (#[trigger] t[r]).len() == m && cnt[r].len() == m by {
            assert(touched@[r]@ == Seq::new(cols as nat, |c: int| false));
        }
        assert forall|r: int, c: int| 0 <= r < n && 0 <= c < m implies !#[trigger] t[r][c] by {
            assert(touched@[r]@ == Seq::new(cols as nat, |c: int| false));
        }
        assert forall|r: int| 0 <= r < n implies (#[trigger] g[r]).len() == m by {
            assert(g[r].len() == g[0].len());
        }
        lemma_top_start(g, n, m, t, cnt);
        lemma_count_grid_none(t, marked());
        lemma_count_grid_none(cnt, marked());
    }
    let top_row = &matrix[top];
    let mut i: usize = 0;
    while i < cols
        invariant
            rows == n,
            cols == m,
            top == n - 1,
            top_row_index == n - 1,
            1 <= n <= 256,
            0 <= m <= 255,
            n * m <= 255,
            g == bag_grid(matrix@),
            top_row@ == g[n - 1],
            i <= cols,
            top_inv(g, n, m, i as int, flag_grid(touched@), cnt, frontier@, index, paths),
            touched@.len() == n,
            forall|r: int| 0 <= r < n ==> (#[trigger] touched@[r])@.len() == m,
            connected_to_top == count_in_grid(cnt, marked()),
            count_in_grid(flag_grid(touched@), marked()) == i + frontier@.len(),
        decreases cols - i,
    {
        let ghost t0 = flag_grid(touched@);
        let ghost open = is_open(g, (n - 1, i as int));
        let block = RowCol(top_row_index, i as u8);
        let below = block.down();
        proof {
            let nb = match below {
                Some(x) => x,
                None => RowCol(0, 0),
            };
            lemma_top_step(g, n, m, i as int, t0, cnt, frontier@, index, paths, nb);
            reveal(top_inv);
        }
        if top_row[i].is_none() {
            proof {
                assert(open);
                lemma_count_grid_update(cnt, marked(), n - 1, i as int, true);
                cnt = cnt.update(n - 1, cnt[n - 1].update(i as int, true));
                assert(is_rectangular(cnt, m as nat)) by {
                    reveal(top_inv);
                    assert forall|r: int| 0 <= r < cnt.len() implies (#[trigger] cnt[r]).len() == m by {}
                }
                lemma_count_grid_bound(cnt, marked(), m as nat);
            }
            connected_to_top += 1;
            if let Some(neighbor) = below {
                let ghost t1 = flag_grid(touched@);
                frontier.push(neighbor);
                touched[neighbor.0 as usize][neighbor.1 as usize] = true;
                proof {
                    index = index.insert((n - 2, i as int), (frontier@.len() - 1) as int);
                    paths = paths.insert((n - 2, i as int), seq![(n - 1, i as int), (n - 2, i as int)]);
                    lemma_count_grid_update(t1, marked(), n - 2, i as int, true);
                    assert(flag_grid(touched@) =~~= t1.update(n - 2, t1[n - 2].update(i as int, true)));
                }
            }
        }
        let ghost t2 = flag_grid(touched@);
        touched[top][i] = true;
        proof {
            lemma_count_grid_update(t2, marked(), n - 1, i as int, true);
            assert(flag_grid(touched@) =~~= t2.update(n - 1, t2[n - 1].update(i as int, true)));
        }
        i += 1;
    }
    proof {
        lemma_top_end(g, n, m, flag_grid(touched@), cnt, frontier@, index, paths);
        reveal(top_inv);
        lemma_count_grid_bound(flag_grid(touched@), marked(), m as nat);
    }
    let mut head: usize = 0;
    while head < frontier.len()
        invariant
            rows == n,
            cols == m,
            top == n - 1,
            top_row_index == n - 1,
            1 <= n <= 256,
            0 <= m <= 255,
            n * m <= 255,
            g == bag_grid(matrix@),
            search_inv(g, n, m, flag_grid(touched@), cnt, frontier@, head as int, head as int, index, paths),
            touched@.len() == n,
            forall|r: int| 0 <= r < n ==> (#[trigger] touched@[r])@.len() == m,
            connected_to_top == count_in_grid(cnt, marked()),
            count_in_grid(flag_grid(touched@), marked()) == m + frontier@.len(),
            frontier@.len() <= n * m,
        decreases n * m - head,
    {
        let block = frontier[head];
        let ghost h = head as int;
        let ghost cur = pos(block);
        proof {
            lemma_queued(g, n, m, flag_grid(touched@), cnt, frontier@, h, h, index, paths, h);
        }
        head += 1;
        let row = &matrix[block.0 as usize];
        proof {
            assert(row@ == g[cur.0]);
            assert(g[cur.0].len() == m);
        }
        if row[block.1 as usize].is_some() {
            proof {
                lemma_visit_filled(g, n, m, flag_grid(touched@), cnt, frontier@, h, index, paths);
            }
        } else {
            proof {
                lemma_visit_open(g, n, m, flag_grid(touched@), cnt, frontier@, h, index, paths);
                lemma_count_grid_update(cnt, marked(), cur.0, cur.1, true);
                cnt = cnt.update(cur.0, cnt[cur.0].update(cur.1, true));
                lemma_count_grid_bound(cnt, marked(), m as nat);
            }
            connected_to_top += 1;
            let right_max = (row.len() - 1) as u8;
            if let Some(nb) = block.left() {
                if !touched[nb.0 as usize][nb.1 as usize] {
                    let ghost t1 = flag_grid(touched@);
                    proof {
                        lemma_touch(g, n, m, t1, cnt, frontier@, h + 1, h, index, paths, cur, nb);
                        index = index.insert(pos(nb), frontier@.len() as int);
                        paths = paths.insert(pos(nb), paths[cur].push(pos(nb)));
                        lemma_count_grid_update(t1, marked(), pos(nb).0, pos(nb).1, true);
                    }
                    touched[nb.0 as usize][nb.1 as usize] = true;
                    frontier.push(nb);
                    proof {
                        assert(flag_grid(touched@) =~~= t1.update(pos(nb).0, t1[pos(nb).0].update(pos(nb).1, true)));
                    }
                }
            }
            proof {
                assert(cur.1 > 0 ==> flag_grid(touched@)[cur.0][cur.1 - 1]);
            }
            if let Some(nb) = block.right(right_max) {
                if !touched[nb.0 as usize][nb.1 as usize] {
                    let ghost t1 = flag_grid(touched@);
                    proof {
                        lemma_touch(g, n, m, t1, cnt, frontier@, h + 1, h, index, paths, cur, nb);
                        index = index.insert(pos(nb), frontier@.len() as int);
                        paths = paths.insert(pos(nb), paths[cur].push(pos(nb)));
                        lemma_count_grid_update(t1, marked(), pos(nb).0, pos(nb).1, true);
                    }
                    touched[nb.0 as usize][nb.1 as usize] = true;
                    frontier.push(nb);
                    proof {
                        assert(flag_grid(touched@) =~~= t1.update(pos(nb).0, t1[pos(nb).0].update(pos(nb).1, true)));
                    }
                }
            }
            proof {
                assert(cur.1 > 0 ==> flag_grid(touched@)[cur.0][cur.1 - 1]);
                assert(cur.1 + 1 < m ==> flag_grid(touched@)[cur.0][cur.1 + 1]);
            }
            if let Some(nb) = block.up(top_row_index) {
                if !touched[nb.0 as usize][nb.1 as usize] {
                    let ghost t1 = flag_grid(touched@);
                    proof {
                        lemma_touch(g, n, m, t1, cnt, frontier@, h + 1, h, index, paths, cur, nb);
                        index = index.insert(pos(nb), frontier@.len() as int);
                        paths = paths.insert(pos(nb), paths[cur].push(pos(nb)));
                        lemma_count_grid_update(t1, marked(), pos(nb).0, pos(nb).1, true);
                    }
                    touched[nb.0 as usize][nb.1 as usize] = true;
                    frontier.push(nb);
                    proof {
                        assert(flag_grid(touched@) =~~= t1.update(pos(nb).0, t1[pos(nb).0].update(pos(nb).1, true)));
                    }
                }
            }
            proof {
                assert(cur.1 > 0 ==> flag_grid(touched@)[cur.0][cur.1 - 1]);
                assert(cur.1 + 1 < m ==> flag_grid(touched@)[cur.0][cur.1 + 1]);
                assert(cur.0 + 1 < n ==> flag_grid(touched@)[cur.0 + 1][cur.1]);
            }
            if let Some(nb) = block.down() {
                if !touched[nb.0 as usize][nb.1 as usize] {
                    let ghost t1 = flag_grid(touched@);
                    proof {
                        lemma_touch(g, n, m, t1, cnt, frontier@, h + 1, h, index, paths, cur, nb);
                        index = index.insert(pos(nb), frontier@.len() as int);
                        paths = paths.insert(pos(nb), paths[cur].push(pos(nb)));
                        lemma_count_grid_update(t1, marked(), pos(nb).0, pos(nb).1, true);
                    }
                    touched[nb.0 as usize][nb.1 as usize] = true;
                    frontier.push(nb);
                    proof {
                        assert(flag_grid(touched@) =~~= t1.update(pos(nb).0, t1[pos(nb).0].update(pos(nb).1, true)));
                    }
                }
            }
            proof {
                let t = flag_grid(touched@);
                assert(neighbors_touched(t, cur.0, cur.1, n, m));
                lemma_finish_visit(g, n, m, t, cnt, frontier@, h, index, paths);
            }
        }
        proof {
            lemma_count_grid_bound(flag_grid(touched@), marked(), m as nat);
        }
    }
    proof {
        lemma_search_complete(g, n, m, flag_grid(touched@), cnt, frontier@, index, paths);
    }
    connected_to_top
}

} // verus!
