//! Solving a maze: the distance map, the shortest route and the grid with
//! the route marked on it, together with the laws that hold of them.

use crate::grid::{
    adjacent, locate, open_at, reachable, shortest, walk, Cell, Grid, MazeError, Point,
};
use crate::path::{
    back_walk, coords, dist_at, lemma_back_walk_reaches_start, lemma_back_walk_shape,
    shortest_path,
};
use crate::solver::{is_distance_map, search, DistanceMap};
use vstd::prelude::*;

verus! {

/// What solving yields.
pub struct Solved {
    /// Shortest distances from the start.
    pub distances: DistanceMap,
    /// The route from the start to the goal, both included.
    pub path: Vec<Point>,
    /// The grid with every cell of the route in state `Path`.
    pub marked: Grid,
}

/// `h` is `g` with the cells listed in `s` turned to `Path`.
pub open spec fn overlay(g: Grid, h: Grid, s: Seq<(int, int)>) -> bool {
    &&& h.wf()
    &&& h.dim() == g.dim()
    &&& forall|r: int, c: int|
        g.has(r, c) ==> #[trigger] h.at(r, c) == (if s.contains((r, c)) {
            Cell::Path
        } else {
            g.at(r, c)
        })
}

/// The outcome owed for a grid, a start and a goal: a solution made of the
/// distance map from the start, the route found by walking back from the
/// goal, and the grid with that route marked; or `NoPathFound` exactly when
/// the goal cannot be reached.
pub open spec fn solved_between(
    g: Grid,
    sr: int,
    sc: int,
    gr: int,
    gc: int,
    res: Result<Solved, MazeError>,
) -> bool {
    match res {
        Ok(sol) => {
            &&& is_distance_map(sol.distances, g, sr, sc)
            &&& dist_at(sol.distances, gr, gc).is_some()
            &&& back_walk(sol.distances, gr, gc, dist_at(sol.distances, gr, gc).unwrap() as nat)
                == Some(coords(sol.path@))
            &&& overlay(g, sol.marked, coords(sol.path@))
        },
        Err(e) => e == MazeError::NoPathFound && !reachable(g, sr, sc, gr, gc),
    }
}

/// A solution's route has one point more than the goal's distance, which is
/// the length of a shortest walk; it starts at the start, ends at the goal,
/// each point shares an edge with the next, and every point is a passage,
/// the start or the goal.
pub proof fn lemma_route_shape(g: Grid, sr: int, sc: int, gr: int, gc: int, sol: Solved)
    requires
        solved_between(g, sr, sc, gr, gc, Ok(sol)),
    ensures
        sol.path@.len() >= 1,
        shortest(g, sr, sc, gr, gc, (sol.path@.len() - 1) as nat),
        dist_at(sol.distances, gr, gc) == Some((sol.path@.len() - 1) as usize),
        coords(sol.path@)[0] == (sr, sc),
        coords(sol.path@)[sol.path@.len() - 1] == (gr, gc),
        forall|i: int|
            0 <= i < sol.path@.len() - 1 ==> adjacent(
                (#[trigger] sol.path@[i]).0 as int,
                sol.path@[i].1 as int,
                sol.path@[i + 1].0 as int,
                sol.path@[i + 1].1 as int,
            ),
        forall|i: int|
            0 <= i < sol.path@.len() ==> dist_at(
                sol.distances,
                (#[trigger] sol.path@[i]).0 as int,
                sol.path@[i].1 as int,
            ) == Some(i as usize),
        forall|i: int|
            0 <= i < sol.path@.len() ==> open_at(
                g,
                (#[trigger] sol.path@[i]).0 as int,
                sol.path@[i].1 as int,
            ),
{
    let dm = sol.distances;
    let d = dist_at(dm, gr, gc).unwrap();
    lemma_back_walk_shape(dm, gr, gc, d as nat);
    lemma_back_walk_reaches_start(dm, g, sr, sc, gr, gc, d as nat);
    let s = coords(sol.path@);
    assert(s.len() == sol.path@.len());
    assert forall|i: int| 0 <= i < sol.path@.len() - 1 implies adjacent(
        (#[trigger] sol.path@[i]).0 as int,
        sol.path@[i].1 as int,
        sol.path@[i + 1].0 as int,
        sol.path@[i + 1].1 as int,
    ) by {
        assert(adjacent(s[i].0, s[i].1, s[i + 1].0, s[i + 1].1));
    }
    assert forall|i: int| 0 <= i < sol.path@.len() implies dist_at(
        sol.distances,
        (#[trigger] sol.path@[i]).0 as int,
        sol.path@[i].1 as int,
    ) == Some(i as usize) by {
        assert(dist_at(dm, s[i].0, s[i].1) == Some(i as usize));
    }
    assert forall|i: int| 0 <= i < sol.path@.len() implies open_at(
        g,
        (#[trigger] sol.path@[i]).0 as int,
        sol.path@[i].1 as int,
    ) by {
        assert(dist_at(dm, s[i].0, s[i].1) == Some(i as usize));
        assert(dm.at(s[i].0, s[i].1) == Some(i as usize));
        assert(walk(g, sr, sc, s[i].0, s[i].1, i as nat));
    }
}

/// A start that is also the goal gives a route of that one cell.
pub proof fn lemma_route_to_self(g: Grid, sr: int, sc: int, sol: Solved)
    requires
        solved_between(g, sr, sc, sr, sc, Ok(sol)),
    ensures
        sol.path@.len() == 1,
        coords(sol.path@)[0] == (sr, sc),
{
    lemma_route_shape(g, sr, sc, sr, sc, sol);
    let d = (sol.path@.len() - 1) as nat;
    assert(walk(g, sr, sc, sr, sc, d));
    assert(walk(g, sr, sc, sr, sc, 0));
}

/// Solving is a function of the grid, the start and the goal: two outcomes
/// for the same three agree in failure, in every distance and in the route.
pub proof fn lemma_solving_is_deterministic(
    g: Grid,
    sr: int,
    sc: int,
    gr: int,
    gc: int,
    a: Result<Solved, MazeError>,
    b: Result<Solved, MazeError>,
)
    requires
        solved_between(g, sr, sc, gr, gc, a),
        solved_between(g, sr, sc, gr, gc, b),
    ensures
        a.is_ok() == b.is_ok(),
        a.is_err() ==> a == b,
        a.is_ok() ==> a.unwrap().path@ == b.unwrap().path@,
        a.is_ok() ==> forall|r: int, c: int|
            dist_at(a.unwrap().distances, r, c) == dist_at(b.unwrap().distances, r, c),
        a.is_ok() ==> forall|r: int, c: int|
            g.has(r, c) ==> a.unwrap().marked.at(r, c) == b.unwrap().marked.at(r, c),
{
    if a.is_ok() && b.is_err() {
        lemma_route_shape(g, sr, sc, gr, gc, a.unwrap());
        assert(walk(g, sr, sc, gr, gc, (a.unwrap().path@.len() - 1) as nat));
    }
    if b.is_ok() && a.is_err() {
        lemma_route_shape(g, sr, sc, gr, gc, b.unwrap());
        assert(walk(g, sr, sc, gr, gc, (b.unwrap().path@.len() - 1) as nat));
    }
    if a.is_ok() && b.is_ok() {
        let x = a.unwrap();
        let y = b.unwrap();
        lemma_same_distances(x.distances, y.distances, g, sr, sc);
        let d = dist_at(x.distances, gr, gc).unwrap();
        lemma_same_back_walk(x.distances, y.distances, gr, gc, d as nat);
        assert(coords(x.path@) == coords(y.path@));
        assert(x.path@.len() == coords(x.path@).len());
        assert(y.path@.len() == coords(y.path@).len());
        assert forall|i: int| 0 <= i < x.path@.len() implies x.path@[i] == y.path@[i] by {
            assert(coords(x.path@)[i] == coords(y.path@)[i]);
        }
        assert(x.path@ =~= y.path@);
    }
}

/// Two distance maps of one grid and start hold the same entries.
pub proof fn lemma_same_distances(a: DistanceMap, b: DistanceMap, g: Grid, sr: int, sc: int)
    requires
        is_distance_map(a, g, sr, sc),
        is_distance_map(b, g, sr, sc),
    ensures
        forall|r: int, c: int| dist_at(a, r, c) == dist_at(b, r, c),
{
    assert forall|r: int, c: int| dist_at(a, r, c) == dist_at(b, r, c) by {
        if a.has(r, c) {
            let x = a.at(r, c);
            let y = b.at(r, c);
            if x.is_some() && y.is_some() {
                let dx = x.unwrap() as nat;
                let dy = y.unwrap() as nat;
                assert(shortest(g, sr, sc, r, c, dx));
                assert(shortest(g, sr, sc, r, c, dy));
                if dx < dy {
                    assert(!walk(g, sr, sc, r, c, dx));
                }
                if dy < dx {
                    assert(!walk(g, sr, sc, r, c, dy));
                }
            } else if x.is_some() {
                assert(walk(g, sr, sc, r, c, x.unwrap() as nat));
            } else if y.is_some() {
                assert(walk(g, sr, sc, r, c, y.unwrap() as nat));
            }
        }
    }
}

/// Maps with the same entries give the same route.
pub proof fn lemma_same_back_walk(a: DistanceMap, b: DistanceMap, r: int, c: int, step: nat)
    requires
        forall|r2: int, c2: int| dist_at(a, r2, c2) == dist_at(b, r2, c2),
    ensures
        back_walk(a, r, c, step) == back_walk(b, r, c, step),
    decreases step,
{
    if step > 0 {
        let want = (step - 1) as usize;
        lemma_same_first_dir(a, b, r, c, want, 0);
        match crate::path::first_dir(a, r, c, want, 0) {
            Some(t) => {
                lemma_same_back_walk(
                    a,
                    b,
                    crate::grid::nb_row(r, t),
                    crate::grid::nb_col(c, t),
                    (step - 1) as nat,
                );
            },
            None => {},
        }
    }
}

proof fn lemma_same_first_dir(a: DistanceMap, b: DistanceMap, r: int, c: int, want: usize, t: int)
    requires
        forall|r2: int, c2: int| dist_at(a, r2, c2) == dist_at(b, r2, c2),
    ensures
        crate::path::first_dir(a, r, c, want, t) == crate::path::first_dir(b, r, c, want, t),
    decreases 4 - t,
{
    if 0 <= t < 4 {
        lemma_same_first_dir(a, b, r, c, want, t + 1);
    }
}

/// Solves `grid` from `start` to `goal`: breadth-first distances, the
/// shortest route, and the grid with the route marked.
pub fn solve_between(grid: &Grid, start: Point, goal: Point) -> (res: Result<Solved, MazeError>)
    requires
        grid.wf(),
    ensures
        solved_between(*grid, start.0 as int, start.1 as int, goal.0 as int, goal.1 as int, res),
{
    let ghost g = *grid;
    let ghost sr = start.0 as int;
    let ghost sc = start.1 as int;
    let ghost gr = goal.0 as int;
    let ghost gc = goal.1 as int;
    let dm: DistanceMap = search(grid, start);
    let path: Vec<Point> = match shortest_path(&dm, goal) {
        Ok(p) => p,
        Err(_) => {
            proof {
                if dist_at(dm, gr, gc).is_some() {
                    lemma_back_walk_reaches_start(
                        dm,
                        g,
                        sr,
                        sc,
                        gr,
                        gc,
                        dist_at(dm, gr, gc).unwrap() as nat,
                    );
                }
                if reachable(g, sr, sc, gr, gc) {
                    let k = choose|k: nat| walk(g, sr, sc, gr, gc, k);
                    assert(open_at(g, gr, gc));
                    assert(dm.at(gr, gc).is_none());
                }
            }
            return Err(MazeError::NoPathFound);
        },
    };
    let ghost s = coords(path@);
    proof {
        lemma_back_walk_shape(dm, gr, gc, dist_at(dm, gr, gc).unwrap() as nat);
        grid.lemma_count_le_area(Cell::Wall);
    }
    let mut marked: Grid = grid.duplicate();
    let mut i: usize = 0;
    while i < path.len()
        invariant
            i <= path.len(),
            s == coords(path@),
            s.len() == path.len(),
            marked.wf(),
            marked.dim() == g.dim(),
            dm.dim() == g.dim(),
            forall|j: int| 0 <= j < s.len() ==> dist_at(dm, s[j].0, s[j].1) == Some(j as usize),
            forall|r: int, c: int|
                g.has(r, c) ==> #[trigger] marked.at(r, c) == (if s.take(i as int).contains(
                    (r, c),
                ) {
                    Cell::Path
                } else {
                    g.at(r, c)
                }),
        decreases path.len() - i,
    {
        let p: Point = path[i];
        let ghost before = marked;
        proof {
            assert(dist_at(dm, s[i as int].0, s[i as int].1) == Some(i as usize));
            assert(s[i as int] == (p.0 as int, p.1 as int));
        }
        marked.set(p.0 as usize, p.1 as usize, Cell::Path);
        proof {
            let t0 = s.take(i as int);
            let t1 = s.take(i + 1);
            assert(t1 =~= t0.push(s[i as int]));
            assert forall|r: int, c: int| g.has(r, c) implies #[trigger] marked.at(r, c) == (
            if t1.contains((r, c)) {
                Cell::Path
            } else {
                g.at(r, c)
            }) by {
                if r == p.0 && c == p.1 {
                    assert(t1[i as int] == (r, c));
                } else {
                    assert(marked.at(r, c) == before.at(r, c));
                    if t0.contains((r, c)) {
                        let j = choose|j: int| 0 <= j < t0.len() && t0[j] == (r, c);
                        assert(t1[j] == (r, c));
                    }
                    if t1.contains((r, c)) {
                        let j = choose|j: int| 0 <= j < t1.len() && t1[j] == (r, c);
                        assert(j < i);
                        assert(t0[j] == (r, c));
                    }
                }
            }
        }
        i += 1;
    }
    proof {
        assert(s.take(path.len() as int) =~= s);
    }
    Ok(Solved { distances: dm, path, marked })
}

/// Solves a grid that carries its own start and goal markers.
///
/// `MalformedGrid` exactly when the grid does not hold one start and one
/// goal; otherwise the outcome of solving between the two.
pub fn solve(grid: &Grid) -> (res: Result<Solved, MazeError>)
    requires
        grid.wf(),
    ensures
        res == Err::<Solved, MazeError>(MazeError::MalformedGrid) <==> grid.count(Cell::Start) != 1
            || grid.count(Cell::Goal) != 1,
        forall|sr: int, sc: int, gr: int, gc: int|
            grid.count(Cell::Start) == 1 && grid.count(Cell::Goal) == 1 && grid.has(sr, sc)
                && grid.has(gr, gc) && grid.at(sr, sc) == Cell::Start && grid.at(gr, gc)
                == Cell::Goal ==> #[trigger] solved_between(*grid, sr, sc, gr, gc, res),
{
    let start: Point = match locate(grid, Cell::Start) {
        Ok(p) => p,
        Err(e) => {
            return Err(e);
        },
    };
    let goal: Point = match locate(grid, Cell::Goal) {
        Ok(p) => p,
        Err(e) => {
            return Err(e);
        },
    };
    let res = solve_between(grid, start, goal);
    proof {
        assert forall|sr: int, sc: int, gr: int, gc: int|
            grid.count(Cell::Start) == 1 && grid.count(Cell::Goal) == 1 && grid.has(sr, sc)
                && grid.has(gr, gc) && grid.at(sr, sc) == Cell::Start && grid.at(gr, gc)
                == Cell::Goal implies #[trigger] solved_between(*grid, sr, sc, gr, gc, res) by {
            grid.lemma_unique(Cell::Start, sr, sc, start.0 as int, start.1 as int);
            grid.lemma_unique(Cell::Goal, gr, gc, goal.0 as int, goal.1 as int);
        }
    }
    res
}

} // verus!
