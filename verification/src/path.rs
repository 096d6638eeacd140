//! Rebuilding the shortest route from a distance map, walking back from the
//! goal.

use crate::grid::{
    adjacent, lemma_shortest_pred, nb_col, nb_row, neighbor, reachable, shortest, walk, Grid,
    MazeError, Point,
};
use crate::solver::{is_distance_map, DistanceMap};
use vstd::prelude::*;

verus! {

/// The entry of a cell, `None` for a cell without one or outside the map.
pub open spec fn dist_at(dm: DistanceMap, r: int, c: int) -> Option<usize> {
    if dm.has(r, c) {
        dm.at(r, c)
    } else {
        None
    }
}

/// The first direction, from `t` on in the order up, down, left, right,
/// whose neighbour of `(r, c)` has the entry `want`.
pub open spec fn first_dir(dm: DistanceMap, r: int, c: int, want: usize, t: int) -> Option<int>
    decreases 4 - t,
{
    if t < 0 || t >= 4 {
        None
    } else if dist_at(dm, nb_row(r, t), nb_col(c, t)) == Some(want) {
        Some(t)
    } else {
        first_dir(dm, r, c, want, t + 1)
    }
}

/// The route that ends in `(r, c)`, found by stepping back `step` times, each
/// time to the first neighbour whose entry is one less; `None` where some
/// step finds no such neighbour.
pub open spec fn back_walk(dm: DistanceMap, r: int, c: int, step: nat) -> Option<Seq<(int, int)>>
    decreases step,
{
    if step == 0 {
        Some(seq![(r, c)])
    } else {
        match first_dir(dm, r, c, (step - 1) as usize, 0) {
            None => None,
            Some(t) => match back_walk(dm, nb_row(r, t), nb_col(c, t), (step - 1) as nat) {
                None => None,
                Some(s) => Some(s.push((r, c))),
            },
        }
    }
}

/// The points of a route as pairs of row and column.
pub open spec fn coords(path: Seq<Point>) -> Seq<(int, int)> {
    Seq::new(path.len(), |i: int| (path[i].0 as int, path[i].1 as int))
}

spec fn extend(o: Option<Seq<(int, int)>>, tail: Seq<(int, int)>) -> Option<Seq<(int, int)>> {
    match o {
        None => None,
        Some(s) => Some(s + tail),
    }
}

pub proof fn lemma_first_dir(dm: DistanceMap, r: int, c: int, want: usize, t: int)
    requires
        0 <= t <= 4,
    ensures
        match first_dir(dm, r, c, want, t) {
            Some(u) => t <= u < 4 && dist_at(dm, nb_row(r, u), nb_col(c, u)) == Some(want),
            None => forall|u: int|
                t <= u < 4 ==> dist_at(dm, nb_row(r, u), nb_col(c, u)) != Some(want),
        },
    decreases 4 - t,
{
    if t < 4 {
        lemma_first_dir(dm, r, c, want, t + 1);
    }
}

/// A route found by walking back has one point per step and one more, ends
/// where the walk began, moves between cells that share an edge, and passes
/// at its `i`-th point a cell whose entry is `i`.
pub proof fn lemma_back_walk_shape(dm: DistanceMap, r: int, c: int, step: nat)
    requires
        dist_at(dm, r, c) == Some(step as usize),
        step <= usize::MAX,
        back_walk(dm, r, c, step).is_some(),
    ensures
        ({
            let s = back_walk(dm, r, c, step).unwrap();
            &&& s.len() == step + 1
            &&& s[step as int] == (r, c)
            &&& forall|i: int| 0 <= i <= step ==> dist_at(dm, s[i].0, s[i].1) == Some(i as usize)
            &&& forall|i: int|
                0 <= i < step ==> adjacent((#[trigger] s[i]).0, s[i].1, s[i + 1].0, s[i + 1].1)
        }),
    decreases step,
{
    if step > 0 {
        let want = (step - 1) as usize;
        lemma_first_dir(dm, r, c, want, 0);
        let t = first_dir(dm, r, c, want, 0).unwrap();
        let qr = nb_row(r, t);
        let qc = nb_col(c, t);
        lemma_back_walk_shape(dm, qr, qc, (step - 1) as nat);
        let s0 = back_walk(dm, qr, qc, (step - 1) as nat).unwrap();
        let s = back_walk(dm, r, c, step).unwrap();
        assert(s == s0.push((r, c)));
        assert forall|i: int| 0 <= i < step implies adjacent(
            (#[trigger] s[i]).0,
            s[i].1,
            s[i + 1].0,
            s[i + 1].1,
        ) by {
            if i < step - 1 {
                assert(s0[i] == s[i]);
                assert(adjacent(s0[i].0, s0[i].1, s0[i + 1].0, s0[i + 1].1));
            }
        }
    }
}

/// On the distance map of a grid, walking back from any cell with an entry
/// succeeds, and the route begins at the start cell.
pub proof fn lemma_back_walk_reaches_start(
    dm: DistanceMap,
    g: Grid,
    sr: int,
    sc: int,
    r: int,
    c: int,
    d: nat,
)
    requires
        is_distance_map(dm, g, sr, sc),
        dist_at(dm, r, c) == Some(d as usize),
        d <= usize::MAX,
    ensures
        back_walk(dm, r, c, d).is_some(),
        back_walk(dm, r, c, d).unwrap()[0] == (sr, sc),
    decreases d,
{
    assert(dm.at(r, c) == Some(d as usize));
    assert(shortest(g, sr, sc, r, c, d));
    if d > 0 {
        let e = (d - 1) as nat;
        lemma_shortest_pred(g, sr, sc, r, c, d);
        let t = choose|t: int|
            0 <= t < 4 && #[trigger] shortest(g, sr, sc, nb_row(r, t), nb_col(c, t), e);
        let pr = nb_row(r, t);
        let pc = nb_col(c, t);
        assert(walk(g, sr, sc, pr, pc, e));
        assert(reachable(g, sr, sc, pr, pc));
        assert(dm.has(pr, pc));
        assert(dm.at(pr, pc).is_some());
        let x = dm.at(pr, pc).unwrap();
        assert(shortest(g, sr, sc, pr, pc, x as nat));
        if x < e {
            assert(!walk(g, sr, sc, pr, pc, x as nat));
        }
        if x > e {
            assert(!walk(g, sr, sc, pr, pc, e));
        }
        assert(dist_at(dm, pr, pc) == Some(e as usize));
        lemma_first_dir(dm, r, c, e as usize, 0);
        let u = first_dir(dm, r, c, e as usize, 0).unwrap();
        lemma_back_walk_reaches_start(dm, g, sr, sc, nb_row(r, u), nb_col(c, u), e);
    }
}

/// The first neighbour of `p`, in the order up, down, left, right, whose
/// entry is `want`.
pub fn find_prev(dm: &DistanceMap, p: Point, want: usize) -> (res: Option<Point>)
    requires
        dm.wf(),
        dm.has(p.0 as int, p.1 as int),
    ensures
        match first_dir(*dm, p.0 as int, p.1 as int, want, 0) {
            Some(t) => res.is_some() && res.unwrap().0 == nb_row(p.0 as int, t) && res.unwrap().1
                == nb_col(p.1 as int, t),
            None => res.is_none(),
        },
{
    proof {
        dm.lemma_count_le_area(None);
    }
    let mut t: usize = 0;
    while t < 4
        invariant
            dm.wf(),
            t <= 4,
            0 <= p.0 < i32::MAX,
            0 <= p.1 < i32::MAX,
            first_dir(*dm, p.0 as int, p.1 as int, want, 0) == first_dir(
                *dm,
                p.0 as int,
                p.1 as int,
                want,
                t as int,
            ),
        decreases 4 - t,
    {
        let q: Point = neighbor(p, t);
        let hit: bool = match dm.peek(q.0, q.1) {
            Some(Some(d)) => d == want,
            _ => false,
        };
        if hit {
            return Some(q);
        }
        t += 1;
    }
    None
}

/// The shortest route to `goal` that the distance map records, from the
/// cell with entry zero to `goal` inclusive.
///
/// It is `NoPathFound` when `goal` has no entry, or when walking back from
/// it some cell has no neighbour whose entry is one less (which cannot
/// happen on a map that a search has made).
pub fn shortest_path(dm: &DistanceMap, goal: Point) -> (res: Result<Vec<Point>, MazeError>)
    requires
        dm.wf(),
    ensures
        match res {
            Ok(path) => dist_at(*dm, goal.0 as int, goal.1 as int).is_some() && back_walk(
                *dm,
                goal.0 as int,
                goal.1 as int,
                dist_at(*dm, goal.0 as int, goal.1 as int).unwrap() as nat,
            ) == Some(coords(path@)),
            Err(e) => e == MazeError::NoPathFound && (dist_at(
                *dm,
                goal.0 as int,
                goal.1 as int,
            ).is_none() || back_walk(
                *dm,
                goal.0 as int,
                goal.1 as int,
                dist_at(*dm, goal.0 as int, goal.1 as int).unwrap() as nat,
            ).is_none()),
        },
{
    let d: usize = match dm.peek(goal.0, goal.1) {
        Some(Some(d)) => d,
        _ => {
            return Err(MazeError::NoPathFound);
        },
    };
    let ghost gr = goal.0 as int;
    let ghost gc = goal.1 as int;
    let mut rev: Vec<Point> = Vec::new();
    rev.push(goal);
    let mut cur: Point = goal;
    let mut step: usize = d;
    let ghost mut tail: Seq<(int, int)> = Seq::empty();
    proof {
        assert(extend(back_walk(*dm, gr, gc, d as nat), tail) == back_walk(*dm, gr, gc, d as nat))
            by {
            if back_walk(*dm, gr, gc, d as nat).is_some() {
                assert(back_walk(*dm, gr, gc, d as nat).unwrap() + tail =~= back_walk(
                    *dm,
                    gr,
                    gc,
                    d as nat,
                ).unwrap());
            }
        }
    }
    while step > 0
        invariant
            dm.wf(),
            gr == goal.0 as int,
            gc == goal.1 as int,
            dist_at(*dm, gr, gc) == Some(d),
            dm.has(cur.0 as int, cur.1 as int),
            rev.len() == tail.len() + 1,
            rev@[rev.len() - 1] == cur,
            forall|j: int|
                0 <= j < tail.len() ==> tail[j] == (
                    rev@[tail.len() - 1 - j].0 as int,
                    rev@[tail.len() - 1 - j].1 as int,
                ),
            back_walk(*dm, gr, gc, d as nat) == extend(
                back_walk(*dm, cur.0 as int, cur.1 as int, step as nat),
                tail,
            ),
        decreases step,
    {
        let ghost here = (cur.0 as int, cur.1 as int);
        let ghost old_tail = tail;
        let ghost old_rev = rev@;
        match find_prev(dm, cur, step - 1) {
            None => {
                proof {
                    assert(back_walk(*dm, here.0, here.1, step as nat).is_none());
                }
                return Err(MazeError::NoPathFound);
            },
            Some(q) => {
                proof {
                    lemma_first_dir(*dm, here.0, here.1, (step - 1) as usize, 0);
                    tail = seq![here] + old_tail;
                    let inner = back_walk(*dm, q.0 as int, q.1 as int, (step - 1) as nat);
                    if inner.is_some() {
                        assert(inner.unwrap().push(here) + old_tail =~= inner.unwrap() + tail);
                    }
                }
                rev.push(q);
                cur = q;
                step = step - 1;
                proof {
                    assert forall|j: int| 0 <= j < tail.len() implies tail[j] == (
                        rev@[tail.len() - 1 - j].0 as int,
                        rev@[tail.len() - 1 - j].1 as int,
                    ) by {
                        if j > 0 {
                            assert(tail[j] == old_tail[j - 1]);
                            assert(rev@[tail.len() - 1 - j] == old_rev[old_tail.len() - 1 - (j
                                - 1)]);
                        } else {
                            assert(rev@[tail.len() - 1] == old_rev[old_rev.len() - 1]);
                        }
                    }
                }
            },
        }
    }
    let ghost full = seq![(cur.0 as int, cur.1 as int)] + tail;
    let mut path: Vec<Point> = Vec::new();
    let mut i: usize = rev.len();
    while i > 0
        invariant
            i <= rev.len(),
            path.len() == rev.len() - i,
            forall|j: int| 0 <= j < path.len() ==> path@[j] == rev@[rev.len() - 1 - j],
        decreases i,
    {
        i = i - 1;
        path.push(rev[i]);
    }
    proof {
        assert(coords(path@) =~= full);
    }
    Ok(path)
}

} // verus!
