//! Breadth-first search: the shortest distance from a start cell to every
//! cell that can be reached from it.

use crate::grid::{
    lemma_closed_source, lemma_no_gap, lemma_shortest_pred, lemma_walk_has_shortest,
    lemma_walk_step, is_traversable, nb_col, nb_row, neighbor, open_at, reachable, shortest, walk, Cell, Grid,
    Point,
};
use crate::square::Square;
use vstd::prelude::*;

verus! {

/// Step counts by cell; a cell without an entry holds `None`.
pub type DistanceMap = Square<Option<usize>>;

/// The map gives every reachable cell its shortest distance from
/// `(sr, sc)`, and no entry to any other cell.
pub open spec fn is_distance_map(dm: DistanceMap, g: Grid, sr: int, sc: int) -> bool {
    &&& dm.wf()
    &&& dm.dim() == g.dim()
    &&& forall|r: int, c: int|
        dm.has(r, c) ==> match #[trigger] dm.at(r, c) {
            Some(d) => shortest(g, sr, sc, r, c, d as nat),
            None => !reachable(g, sr, sc, r, c),
        }
}

/// Every entry is a true shortest distance, none above `bound`.
spec fn sound(dm: DistanceMap, g: Grid, sr: int, sc: int, bound: int) -> bool {
    forall|r: int, c: int|
        dm.has(r, c) ==> match #[trigger] dm.at(r, c) {
            Some(d) => d <= bound && shortest(g, sr, sc, r, c, d as nat),
            None => true,
        }
}

/// Every cell at shortest distance up to `bound` has its entry.
spec fn complete(dm: DistanceMap, g: Grid, sr: int, sc: int, bound: int) -> bool {
    forall|r: int, c: int, d: nat|
        d <= bound && #[trigger] shortest(g, sr, sc, r, c, d) ==> dm.at(r, c) == Some(d as usize)
}

spec fn holds(f: Seq<Point>, r: int, c: int) -> bool {
    exists|j: int| 0 <= j < f.len() && (#[trigger] f[j]).0 == r && f[j].1 == c
}

/// `f` lists exactly the cells whose entry is `k`.
spec fn level(dm: DistanceMap, f: Seq<Point>, k: usize) -> bool {
    &&& forall|j: int|
        0 <= j < f.len() ==> dm.has((#[trigger] f[j]).0 as int, f[j].1 as int) && dm.at(
            f[j].0 as int,
            f[j].1 as int,
        ) == Some(k)
    &&& forall|r: int, c: int|
        dm.has(r, c) && #[trigger] dm.at(r, c) == Some(k) ==> holds(f, r, c)
}

/// The neighbour of `p` in direction `t`, if open, has an entry.
spec fn served(dm: DistanceMap, g: Grid, p: Point, t: int) -> bool {
    open_at(g, nb_row(p.0 as int, t), nb_col(p.1 as int, t)) ==> dm.at(
        nb_row(p.0 as int, t),
        nb_col(p.1 as int, t),
    ).is_some()
}

proof fn lemma_next_level(
    dm: DistanceMap,
    g: Grid,
    sr: int,
    sc: int,
    f: Seq<Point>,
    k: usize,
    r: int,
    c: int,
)
    requires
        dm.wf(),
        dm.dim() == g.dim(),
        k < usize::MAX,
        sound(dm, g, sr, sc, k + 1),
        complete(dm, g, sr, sc, k as int),
        level(dm, f, k),
        forall|j: int, t: int| 0 <= j < f.len() && 0 <= t < 4 ==> #[trigger] served(dm, g, f[j], t),
        shortest(g, sr, sc, r, c, (k + 1) as nat),
    ensures
        dm.at(r, c) == Some((k + 1) as usize),
{
    lemma_shortest_pred(g, sr, sc, r, c, (k + 1) as nat);
    let t = choose|t: int|
        0 <= t < 4 && #[trigger] shortest(g, sr, sc, nb_row(r, t), nb_col(c, t), k as nat);
    let qr = nb_row(r, t);
    let qc = nb_col(c, t);
    assert(dm.at(qr, qc) == Some(k));
    assert(holds(f, qr, qc));
    let j = choose|j: int| 0 <= j < f.len() && (#[trigger] f[j]).0 == qr && f[j].1 == qc;
    let back: int = if t == 0 {
        1
    } else if t == 1 {
        0
    } else if t == 2 {
        3
    } else {
        2
    };
    assert(served(dm, g, f[j], back));
    assert(nb_row(qr, back) == r && nb_col(qc, back) == c);
    assert(dm.at(r, c).is_some());
    let d = dm.at(r, c).unwrap();
    assert(shortest(g, sr, sc, r, c, d as nat));
    if d < k + 1 {
        assert(!walk(g, sr, sc, r, c, d as nat));
    }
}

/// The distance map of `grid` from `start`, by breadth-first search.
///
/// Every cell that can be reached from `start` over passages, the start and
/// the goal gets the length of a shortest such walk; every other cell gets
/// no entry: no wall, no cell that carries the mark of a route, and nothing
/// outside the grid. A start that cannot be stepped on, or that lies outside
/// the grid, reaches nothing.
pub fn search(grid: &Grid, start: Point) -> (dm: DistanceMap)
    requires
        grid.wf(),
    ensures
        is_distance_map(dm, *grid, start.0 as int, start.1 as int),
        forall|r: int, c: int|
            dm.has(r, c) && (#[trigger] dm.at(r, c)).is_some() ==> open_at(*grid, r, c),
{
    let ghost g = *grid;
    let ghost sr = start.0 as int;
    let ghost sc = start.1 as int;
    let n: usize = grid.side();
    proof {
        grid.lemma_count_le_area(Cell::Wall);
    }
    let mut dm: DistanceMap = match Square::filled(n, None) {
        Some(t) => t,
        None => vstd::pervasive::unreached(),
    };
    let open: bool = match grid.peek(start.0, start.1) {
        Some(cell) => is_traversable(cell),
        None => false,
    };
    if !open {
        proof {
            assert forall|r: int, c: int| dm.has(r, c) implies !reachable(g, sr, sc, r, c) by {
                assert forall|k: nat| !walk(g, sr, sc, r, c, k) by {
                    lemma_closed_source(g, sr, sc, r, c, k);
                }
            }
        }
        return dm;
    }
    proof {
        dm.lemma_count_le_area(None);
    }
    dm.set(start.0 as usize, start.1 as usize, Some(0));
    let mut frontier: Vec<Point> = Vec::new();
    frontier.push(start);
    let mut k: usize = 0;
    let mut done: bool = false;
    proof {
        assert(walk(g, sr, sc, sr, sc, 0));
        assert(shortest(g, sr, sc, sr, sc, 0));
        assert(frontier@[0] == start);
        assert(holds(frontier@, sr, sc));
    }
    while !done
        invariant
            grid.wf(),
            g == *grid,
            sr == start.0 as int,
            sc == start.1 as int,
            n == grid.dim(),
            n * n <= usize::MAX,
            n <= i32::MAX,
            dm.wf(),
            dm.dim() == n,
            done ==> is_distance_map(dm, g, sr, sc),
            !done ==> sound(dm, g, sr, sc, k as int),
            !done ==> complete(dm, g, sr, sc, k as int),
            !done ==> level(dm, frontier@, k),
            !done ==> k + dm.count(None) < n * n,
        decreases
            dm.count(None) + (if done {
                0nat
            } else {
                1nat
            }),
    {
        let ghost count0 = dm.count(None);
        let mut next: Vec<Point> = Vec::new();
        let mut i: usize = 0;
        while i < frontier.len()
            invariant
                grid.wf(),
                g == *grid,
                sr == start.0 as int,
                sc == start.1 as int,
                n == grid.dim(),
                n * n <= usize::MAX,
                n <= i32::MAX,
                dm.wf(),
                dm.dim() == n,
                i <= frontier.len(),
                k + count0 < n * n,
                dm.count(None) + next.len() == count0,
                sound(dm, g, sr, sc, k + 1),
                complete(dm, g, sr, sc, k as int),
                level(dm, frontier@, k),
                level(dm, next@, (k + 1) as usize),
                forall|j: int, t: int|
                    0 <= j < i && 0 <= t < 4 ==> #[trigger] served(dm, g, frontier@[j], t),
            decreases frontier.len() - i,
        {
            let p: Point = frontier[i];
            let mut t: usize = 0;
            while t < 4
                invariant
                    grid.wf(),
                    g == *grid,
                    sr == start.0 as int,
                    sc == start.1 as int,
                    n == grid.dim(),
                    n * n <= usize::MAX,
                    n <= i32::MAX,
                    dm.wf(),
                    dm.dim() == n,
                    i < frontier.len(),
                    p == frontier@[i as int],
                    t <= 4,
                    k + count0 < n * n,
                    dm.count(None) + next.len() == count0,
                    sound(dm, g, sr, sc, k + 1),
                    complete(dm, g, sr, sc, k as int),
                    level(dm, frontier@, k),
                    level(dm, next@, (k + 1) as usize),
                    forall|j: int, u: int|
                        0 <= j < i && 0 <= u < 4 ==> #[trigger] served(dm, g, frontier@[j], u),
                    forall|u: int| 0 <= u < t ==> #[trigger] served(dm, g, p, u),
                decreases 4 - t,
            {
                let q: Point = neighbor(p, t);
                let free: bool = match grid.peek(q.0, q.1) {
                    Some(cell) => is_traversable(cell),
                    None => false,
                };
                if free {
                    let seen: Option<usize> = dm.get(q.0 as usize, q.1 as usize);
                    if seen.is_none() {
                        let ghost before = dm;
                        let ghost next_before = next@;
                        dm.set(q.0 as usize, q.1 as usize, Some(k + 1));
                        next.push(q);
                        proof {
                            let qr = q.0 as int;
                            let qc = q.1 as int;
                            assert(shortest(g, sr, sc, p.0 as int, p.1 as int, k as nat));
                            lemma_walk_step(g, sr, sc, p.0 as int, p.1 as int, qr, qc, k as nat);
                            assert forall|j: nat| j < k + 1 implies !walk(g, sr, sc, qr, qc, j) by {
                                if walk(g, sr, sc, qr, qc, j) {
                                    lemma_walk_has_shortest(g, sr, sc, qr, qc, j);
                                    let d = choose|d: nat|
                                        d <= j && shortest(g, sr, sc, qr, qc, d);
                                    assert(before.at(qr, qc) == Some(d as usize));
                                }
                            }
                            assert(shortest(g, sr, sc, qr, qc, (k + 1) as nat));
                            assert forall|r: int, c: int, d: nat|
                                d <= k && #[trigger] shortest(
                                    g,
                                    sr,
                                    sc,
                                    r,
                                    c,
                                    d,
                                ) implies dm.at(r, c) == Some(d as usize) by {
                                assert(before.at(r, c) == Some(d as usize));
                            }
                            assert forall|j: int| 0 <= j < frontier@.len() implies dm.has(
                                (#[trigger] frontier@[j]).0 as int,
                                frontier@[j].1 as int,
                            ) && dm.at(frontier@[j].0 as int, frontier@[j].1 as int) == Some(
                                k,
                            ) by {}
                            assert forall|r: int, c: int|
                                dm.has(r, c) && #[trigger] dm.at(r, c) == Some(k) implies holds(
                                frontier@,
                                r,
                                c,
                            ) by {
                                assert(before.at(r, c) == Some(k));
                            }
                            assert(next@[next_before.len() as int] == q);
                            assert forall|r: int, c: int|
                                dm.has(r, c) && #[trigger] dm.at(r, c) == Some(
                                    (k + 1) as usize,
                                ) implies holds(next@, r, c) by {
                                if r == qr && c == qc {
                                    assert(next@[next_before.len() as int].0 == r);
                                } else {
                                    assert(before.at(r, c) == Some((k + 1) as usize));
                                    assert(holds(next_before, r, c));
                                    let j = choose|j: int|
                                        0 <= j < next_before.len() && (
                                        #[trigger] next_before[j]).0 == r && next_before[j].1 == c;
                                    assert(next@[j] == next_before[j]);
                                }
                            }
                            assert forall|j: int| 0 <= j < next@.len() implies dm.has(
                                (#[trigger] next@[j]).0 as int,
                                next@[j].1 as int,
                            ) && dm.at(next@[j].0 as int, next@[j].1 as int) == Some(
                                (k + 1) as usize,
                            ) by {
                                if j < next_before.len() {
                                    assert(next@[j] == next_before[j]);
                                }
                            }
                            assert forall|j: int, u: int|
                                0 <= j < i && 0 <= u < 4 implies #[trigger] served(
                                dm,
                                g,
                                frontier@[j],
                                u,
                            ) by {
                                assert(served(before, g, frontier@[j], u));
                            }
                            assert forall|u: int| 0 <= u < t implies #[trigger] served(
                                dm,
                                g,
                                p,
                                u,
                            ) by {
                                assert(served(before, g, p, u));
                            }
                        }
                    }
                }
                t += 1;
            }
            i += 1;
        }
        proof {
            assert forall|r: int, c: int, d: nat|
                d <= k + 1 && #[trigger] shortest(g, sr, sc, r, c, d) implies dm.at(r, c) == Some(
                d as usize,
            ) by {
                if d == k + 1 {
                    lemma_next_level(dm, g, sr, sc, frontier@, k, r, c);
                }
            }
        }
        if next.len() == 0 {
            proof {
                let m = (k + 1) as nat;
                assert forall|r: int, c: int| !#[trigger] shortest(g, sr, sc, r, c, m) by {
                    if shortest(g, sr, sc, r, c, m) {
                        assert(dm.at(r, c) == Some((k + 1) as usize));
                        assert(holds(next@, r, c));
                    }
                }
                assert forall|r: int, c: int| dm.has(r, c) implies match #[trigger] dm.at(r, c) {
                    Some(d) => shortest(g, sr, sc, r, c, d as nat),
                    None => !reachable(g, sr, sc, r, c),
                } by {
                    if dm.at(r, c).is_none() && reachable(g, sr, sc, r, c) {
                        let w = choose|w: nat| walk(g, sr, sc, r, c, w);
                        lemma_walk_has_shortest(g, sr, sc, r, c, w);
                        let d = choose|d: nat| d <= w && shortest(g, sr, sc, r, c, d);
                        if d > k {
                            lemma_no_gap(g, sr, sc, m, r, c, d);
                        }
                    }
                }
            }
            done = true;
        } else {
            frontier = next;
            k = k + 1;
        }
    }
    dm
}

} // verus!
