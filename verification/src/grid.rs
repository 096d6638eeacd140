//! The maze's data model: points, cell states, the grid, and what it means
//! to walk through a grid.

use crate::square::{count_in, lemma_count_bound, Square};
use vstd::prelude::*;

verus! {

/// A position: row, then column.
#[derive(Debug, Default, Copy, Clone, PartialEq, Eq, Hash, Structural)]
pub struct Point(pub i32, pub i32);

#[derive(Debug, Copy, Clone, PartialEq, Eq, Structural)]
pub enum Cell {
    Wall,
    Passage,
    Start,
    Goal,
    Path,
}

/// The recoverable failures of generating, loading and solving.
#[derive(Debug, Copy, Clone, PartialEq, Eq, Structural)]
pub enum MazeError {
    /// The side is even, below five, or too large for the machine.
    InvalidDimension,
    /// The goal cannot be reached from the start.
    NoPathFound,
    /// The grid is not square, or lacks or repeats a start or goal marker.
    MalformedGrid,
}

pub type Grid = Square<Cell>;

/// A state that can be stepped on: a passage, the start or the goal. A wall
/// cannot, nor can a cell that carries the mark of a route.
pub open spec fn traversable(cell: Cell) -> bool {
    cell == Cell::Passage || cell == Cell::Start || cell == Cell::Goal
}

/// A cell that can be stepped on: inside the grid and in a traversable
/// state.
pub open spec fn open_at(g: Grid, r: int, c: int) -> bool {
    g.has(r, c) && traversable(g.at(r, c))
}

/// Row of the neighbour in direction `t`: 0 up, 1 down, 2 left, 3 right.
pub open spec fn nb_row(r: int, t: int) -> int {
    if t == 0 {
        r - 1
    } else if t == 1 {
        r + 1
    } else {
        r
    }
}

/// Column of the neighbour in direction `t`: 0 up, 1 down, 2 left, 3 right.
pub open spec fn nb_col(c: int, t: int) -> int {
    if t == 2 {
        c - 1
    } else if t == 3 {
        c + 1
    } else {
        c
    }
}

/// Two cells share an edge.
pub open spec fn adjacent(r1: int, c1: int, r2: int, c2: int) -> bool {
    (c1 == c2 && (r1 == r2 + 1 || r2 == r1 + 1)) || (r1 == r2 && (c1 == c2 + 1 || c2 == c1 + 1))
}

/// Some walk of exactly `k` steps over open cells leads from `(sr, sc)` to
/// `(r, c)`.
pub open spec fn walk(g: Grid, sr: int, sc: int, r: int, c: int, k: nat) -> bool
    decreases k,
{
    open_at(g, r, c) && if k == 0 {
        r == sr && c == sc
    } else {
        walk(g, sr, sc, r - 1, c, (k - 1) as nat) || walk(g, sr, sc, r + 1, c, (k - 1) as nat)
            || walk(g, sr, sc, r, c - 1, (k - 1) as nat) || walk(
            g,
            sr,
            sc,
            r,
            c + 1,
            (k - 1) as nat,
        )
    }
}

/// `d` is the length of a shortest walk from `(sr, sc)` to `(r, c)`.
pub open spec fn shortest(g: Grid, sr: int, sc: int, r: int, c: int, d: nat) -> bool {
    walk(g, sr, sc, r, c, d) && forall|j: nat| j < d ==> !walk(g, sr, sc, r, c, j)
}

/// `(r, c)` can be reached from `(sr, sc)`.
pub open spec fn reachable(g: Grid, sr: int, sc: int, r: int, c: int) -> bool {
    exists|k: nat| walk(g, sr, sc, r, c, k)
}

/// A reachable cell has a shortest distance.
pub proof fn lemma_walk_has_shortest(g: Grid, sr: int, sc: int, r: int, c: int, k: nat)
    requires
        walk(g, sr, sc, r, c, k),
    ensures
        exists|d: nat| d <= k && shortest(g, sr, sc, r, c, d),
    decreases k,
{
    if exists|j: nat| j < k && walk(g, sr, sc, r, c, j) {
        let j = choose|j: nat| j < k && walk(g, sr, sc, r, c, j);
        lemma_walk_has_shortest(g, sr, sc, r, c, j);
    } else {
        assert(shortest(g, sr, sc, r, c, k));
    }
}

/// One more step onto an adjacent open cell extends a walk.
pub proof fn lemma_walk_step(
    g: Grid,
    sr: int,
    sc: int,
    r: int,
    c: int,
    r2: int,
    c2: int,
    k: nat,
)
    requires
        walk(g, sr, sc, r, c, k),
        adjacent(r, c, r2, c2),
        open_at(g, r2, c2),
    ensures
        walk(g, sr, sc, r2, c2, k + 1),
{
    assert((k + 1 - 1) as nat == k);
}

/// A cell at shortest distance `d > 0` has a neighbour at shortest distance
/// `d - 1`.
pub proof fn lemma_shortest_pred(g: Grid, sr: int, sc: int, r: int, c: int, d: nat)
    requires
        shortest(g, sr, sc, r, c, d),
        d > 0,
    ensures
        exists|t: int|
            0 <= t < 4 && #[trigger] shortest(
                g,
                sr,
                sc,
                nb_row(r, t),
                nb_col(c, t),
                (d - 1) as nat,
            ),
{
    let e = (d - 1) as nat;
    let t: int = if walk(g, sr, sc, r - 1, c, e) {
        0
    } else if walk(g, sr, sc, r + 1, c, e) {
        1
    } else if walk(g, sr, sc, r, c - 1, e) {
        2
    } else {
        3
    };
    let qr = nb_row(r, t);
    let qc = nb_col(c, t);
    assert(walk(g, sr, sc, qr, qc, e));
    lemma_walk_has_shortest(g, sr, sc, qr, qc, e);
    let m = choose|m: nat| m <= e && shortest(g, sr, sc, qr, qc, m);
    if m < e {
        lemma_walk_step(g, sr, sc, qr, qc, r, c, m);
        assert(!walk(g, sr, sc, r, c, m + 1));
    }
    assert(shortest(g, sr, sc, nb_row(r, t), nb_col(c, t), e));
}

/// If no cell lies at shortest distance `m`, none lies farther either.
pub proof fn lemma_no_gap(g: Grid, sr: int, sc: int, m: nat, r: int, c: int, d: nat)
    requires
        forall|r2: int, c2: int| !shortest(g, sr, sc, r2, c2, m),
        d >= m,
    ensures
        !shortest(g, sr, sc, r, c, d),
    decreases d,
{
    if d > m && shortest(g, sr, sc, r, c, d) {
        lemma_shortest_pred(g, sr, sc, r, c, d);
        let t = choose|t: int|
            0 <= t < 4 && #[trigger] shortest(
                g,
                sr,
                sc,
                nb_row(r, t),
                nb_col(c, t),
                (d - 1) as nat,
            );
        lemma_no_gap(g, sr, sc, m, nb_row(r, t), nb_col(c, t), (d - 1) as nat);
    }
}

/// Nothing can be reached from a cell that is not open.
pub proof fn lemma_closed_source(g: Grid, sr: int, sc: int, r: int, c: int, k: nat)
    requires
        !open_at(g, sr, sc),
    ensures
        !walk(g, sr, sc, r, c, k),
    decreases k,
{
    if k > 0 {
        let e = (k - 1) as nat;
        lemma_closed_source(g, sr, sc, r - 1, c, e);
        lemma_closed_source(g, sr, sc, r + 1, c, e);
        lemma_closed_source(g, sr, sc, r, c - 1, e);
        lemma_closed_source(g, sr, sc, r, c + 1, e);
    }
}

/// Opening more cells keeps every walk.
pub proof fn lemma_walk_monotone(g: Grid, h: Grid, sr: int, sc: int, r: int, c: int, k: nat)
    requires
        walk(g, sr, sc, r, c, k),
        forall|r2: int, c2: int| open_at(g, r2, c2) ==> open_at(h, r2, c2),
    ensures
        walk(h, sr, sc, r, c, k),
    decreases k,
{
    if k > 0 {
        let e = (k - 1) as nat;
        if walk(g, sr, sc, r - 1, c, e) {
            lemma_walk_monotone(g, h, sr, sc, r - 1, c, e);
        } else if walk(g, sr, sc, r + 1, c, e) {
            lemma_walk_monotone(g, h, sr, sc, r + 1, c, e);
        } else if walk(g, sr, sc, r, c - 1, e) {
            lemma_walk_monotone(g, h, sr, sc, r, c - 1, e);
        } else {
            lemma_walk_monotone(g, h, sr, sc, r, c + 1, e);
        }
    }
}

/// A walk followed by a walk is a walk.
pub proof fn lemma_walk_concat(
    g: Grid,
    ar: int,
    ac: int,
    br: int,
    bc: int,
    r: int,
    c: int,
    k1: nat,
    k2: nat,
)
    requires
        walk(g, ar, ac, br, bc, k1),
        walk(g, br, bc, r, c, k2),
    ensures
        walk(g, ar, ac, r, c, k1 + k2),
    decreases k2,
{
    if k2 > 0 {
        let e = (k2 - 1) as nat;
        let t: int = if walk(g, br, bc, r - 1, c, e) {
            0
        } else if walk(g, br, bc, r + 1, c, e) {
            1
        } else if walk(g, br, bc, r, c - 1, e) {
            2
        } else {
            3
        };
        lemma_walk_concat(g, ar, ac, br, bc, nb_row(r, t), nb_col(c, t), k1, e);
        lemma_walk_step(g, ar, ac, nb_row(r, t), nb_col(c, t), r, c, k1 + e);
    }
}

/// A walk can be walked back.
pub proof fn lemma_walk_reverse(g: Grid, ar: int, ac: int, r: int, c: int, k: nat)
    requires
        walk(g, ar, ac, r, c, k),
    ensures
        walk(g, r, c, ar, ac, k),
    decreases k,
{
    if k > 0 {
        let e = (k - 1) as nat;
        let t: int = if walk(g, ar, ac, r - 1, c, e) {
            0
        } else if walk(g, ar, ac, r + 1, c, e) {
            1
        } else if walk(g, ar, ac, r, c - 1, e) {
            2
        } else {
            3
        };
        let qr = nb_row(r, t);
        let qc = nb_col(c, t);
        assert(walk(g, ar, ac, qr, qc, e));
        lemma_walk_reverse(g, ar, ac, qr, qc, e);
        assert(open_at(g, qr, qc));
        assert(walk(g, r, c, r, c, 0));
        lemma_walk_step(g, r, c, r, c, qr, qc, 0);
        lemma_walk_concat(g, r, c, qr, qc, ar, ac, 1, e);
    }
}

/// Whether a state can be stepped on.
pub fn is_traversable(cell: Cell) -> (b: bool)
    ensures
        b == traversable(cell),
{
    match cell {
        Cell::Passage => true,
        Cell::Start => true,
        Cell::Goal => true,
        Cell::Wall => false,
        Cell::Path => false,
    }
}

/// The neighbour of `p` in direction `t`: 0 up, 1 down, 2 left, 3 right.
pub fn neighbor(p: Point, t: usize) -> (q: Point)
    requires
        t < 4,
        i32::MIN < p.0 < i32::MAX,
        i32::MIN < p.1 < i32::MAX,
    ensures
        q.0 == nb_row(p.0 as int, t as int),
        q.1 == nb_col(p.1 as int, t as int),
{
    if t == 0 {
        Point(p.0 - 1, p.1)
    } else if t == 1 {
        Point(p.0 + 1, p.1)
    } else if t == 2 {
        Point(p.0, p.1 - 1)
    } else {
        Point(p.0, p.1 + 1)
    }
}

/// Where the one cell in state `marker` lies.
///
/// `MalformedGrid` when no cell, or more than one, is in that state.
pub fn locate(grid: &Grid, marker: Cell) -> (res: Result<Point, MazeError>)
    requires
        grid.wf(),
    ensures
        match res {
            Ok(p) => grid.count(marker) == 1 && grid.has(p.0 as int, p.1 as int) && grid.at(
                p.0 as int,
                p.1 as int,
            ) == marker,
            Err(e) => e == MazeError::MalformedGrid && grid.count(marker) != 1,
        },
{
    let n: usize = grid.side();
    let ghost flat = grid.flat();
    proof {
        grid.lemma_flat();
        grid.lemma_count_le_area(marker);
    }
    let mut seen: usize = 0;
    let mut found: Point = Point(0, 0);
    let mut r: usize = 0;
    while r < n
        invariant
            grid.wf(),
            n == grid.dim(),
            n <= i32::MAX,
            flat == grid.flat(),
            flat.len() == n * n,
            n * n <= usize::MAX,
            r <= n,
            0 <= r * n <= n * n,
            seen == count_in(flat.take(r * n), marker),
            seen > 0 ==> grid.has(found.0 as int, found.1 as int) && grid.at(
                found.0 as int,
                found.1 as int,
            ) == marker,
        decreases n - r,
    {
        let mut c: usize = 0;
        while c < n
            invariant
                grid.wf(),
                n == grid.dim(),
                n <= i32::MAX,
                flat == grid.flat(),
                flat.len() == n * n,
                n * n <= usize::MAX,
                r < n,
                c <= n,
                0 <= r * n + c <= n * n,
                seen == count_in(flat.take(r * n + c), marker),
                seen > 0 ==> grid.has(found.0 as int, found.1 as int) && grid.at(
                    found.0 as int,
                    found.1 as int,
                ) == marker,
            decreases n - c,
        {
            let v: Cell = grid.get(r, c);
            proof {
                let i = r * n + c;
                grid.lemma_flat();
                crate::square::lemma_flat_in_range(n as int, r as int, c as int);
                assert(flat.take(i + 1).drop_last() =~= flat.take(i));
                assert(flat.take(i + 1).last() == grid.at(r as int, c as int));
                lemma_count_bound(flat.take(i + 1), marker);
            }
            if v == marker {
                seen = seen + 1;
                found = Point(r as i32, c as i32);
            }
            c += 1;
        }
        proof {
            assert(r * n + n == (r + 1) * n) by (nonlinear_arith);
            assert((r + 1) * n <= n * n) by (nonlinear_arith)
                requires
                    r + 1 <= n,
            ;
        }
        r += 1;
    }
    proof {
        assert(flat.take(n * n) =~= flat);
    }
    if seen == 1 {
        Ok(found)
    } else {
        Err(MazeError::MalformedGrid)
    }
}

} // verus!
