//! Carving a perfect maze by randomized depth-first search with
//! backtracking.

use crate::grid::{
    lemma_walk_concat, lemma_walk_monotone, lemma_walk_reverse, lemma_walk_step, nb_col, nb_row, neighbor, open_at, reachable, walk,
    Cell, Grid, MazeError, Point,
};
use crate::random::choose_from;
use crate::square::Square;
use rand::rngs::StdRng;
use vstd::prelude::*;

verus! {

/// Row two steps from `r` in direction `t`.
pub open spec fn far_row(r: int, t: int) -> int {
    nb_row(nb_row(r, t), t)
}

/// Column two steps from `c` in direction `t`.
pub open spec fn far_col(c: int, t: int) -> int {
    nb_col(nb_col(c, t), t)
}

/// No carving leads from `(r, c)` in direction `t`: the cell two steps away
/// lies outside the grid or is no wall.
pub open spec fn blocked(g: Grid, r: int, c: int, t: int) -> bool {
    !(g.has(far_row(r, t), far_col(c, t)) && g.at(far_row(r, t), far_col(c, t)) == Cell::Wall)
}

/// `h` is `g` after carving from `(r, c)` in direction `t`: the cell two
/// steps away was a wall, it and the cell between have become passages, and
/// nothing else has changed. There are fewer walls, and two passages more,
/// or one more where the cell between was a passage already.
pub open spec fn carved_from(g: Grid, h: Grid, r: int, c: int, t: int) -> bool {
    &&& 0 <= t < 4
    &&& h.wf()
    &&& h.dim() == g.dim()
    &&& g.has(far_row(r, t), far_col(c, t))
    &&& g.at(far_row(r, t), far_col(c, t)) == Cell::Wall
    &&& h.at(far_row(r, t), far_col(c, t)) == Cell::Passage
    &&& h.at(nb_row(r, t), nb_col(c, t)) == Cell::Passage
    &&& forall|r2: int, c2: int|
        g.has(r2, c2) && !(r2 == far_row(r, t) && c2 == far_col(c, t)) && !(r2 == nb_row(r, t)
            && c2 == nb_col(c, t)) ==> #[trigger] h.at(r2, c2) == g.at(r2, c2)
    &&& h.count(Cell::Wall) < g.count(Cell::Wall)
    &&& h.count(Cell::Passage) + (if g.at(nb_row(r, t), nb_col(c, t)) == Cell::Passage {
        1nat
    } else {
        0nat
    }) == g.count(Cell::Passage) + 2
}

/// Carves from `p` in direction `t` (0 up, 1 down, 2 left, 3 right) if the
/// cell two steps away is inside the grid and still a wall, and returns that
/// cell; otherwise leaves the grid as it is.
pub fn try_carve(grid: &mut Grid, p: Point, t: usize) -> (res: Option<Point>)
    requires
        old(grid).wf(),
        old(grid).has(p.0 as int, p.1 as int),
        t < 4,
    ensures
        match res {
            Some(q) => q.0 == far_row(p.0 as int, t as int) && q.1 == far_col(
                p.1 as int,
                t as int,
            ) && carved_from(*old(grid), *final(grid), p.0 as int, p.1 as int, t as int),
            None => *final(grid) == *old(grid) && blocked(
                *old(grid),
                p.0 as int,
                p.1 as int,
                t as int,
            ),
        },
{
    proof {
        grid.lemma_count_le_area(Cell::Wall);
    }
    let o: Point = neighbor(p, t);
    if grid.peek(o.0, o.1).is_none() {
        return None;
    }
    let q: Point = neighbor(o, t);
    match grid.peek(q.0, q.1) {
        Some(Cell::Wall) => {
            grid.set(o.0 as usize, o.1 as usize, Cell::Passage);
            grid.set(q.0 as usize, q.1 as usize, Cell::Passage);
            Some(q)
        },
        _ => None,
    }
}

/// The items of `items` that differ from `d`, in their order.
fn without(items: &Vec<usize>, d: usize) -> (out: Vec<usize>)
    ensures
        out@ == items@.filter(|v: usize| v != d),
        forall|v: usize| out@.contains(v) <==> items@.contains(v) && v != d,
        out.len() <= items.len(),
        items@.contains(d) ==> out.len() < items.len(),
{
    let mut out: Vec<usize> = Vec::new();
    let mut j: usize = 0;
    let ghost keep = |v: usize| v != d;
    proof {
        reveal(Seq::filter);
        assert(items@.take(0).filter(keep) =~= out@);
    }
    while j < items.len()
        invariant
            j <= items.len(),
            out.len() <= j,
            keep == (|v: usize| v != d),
            out@ == items@.take(j as int).filter(keep),
            forall|v: usize|
                out@.contains(v) <==> (exists|i: int| 0 <= i < j && items@[i] == v) && v != d,
            (exists|i: int| 0 <= i < j && items@[i] == d) ==> out.len() < j,
        decreases items.len() - j,
    {
        let x: usize = items[j];
        let ghost before = out@;
        proof {
            reveal(Seq::filter);
            assert(items@.take(j + 1).drop_last() =~= items@.take(j as int));
            assert(items@.take(j + 1).last() == x);
        }
        if x != d {
            out.push(x);
            proof {
                assert(out@[before.len() as int] == x);
                assert forall|v: usize| out@.contains(v) implies (exists|i: int|
                    0 <= i < j + 1 && items@[i] == v) && v != d by {
                    let k = choose|k: int| 0 <= k < out@.len() && out@[k] == v;
                    if k < before.len() {
                        assert(before[k] == v);
                        assert(before.contains(v));
                    } else {
                        assert(items@[j as int] == v);
                    }
                }
                assert forall|v: usize|
                    (exists|i: int| 0 <= i < j + 1 && items@[i] == v) && v != d implies out@.contains(
                    v,
                ) by {
                    let i = choose|i: int| 0 <= i < j + 1 && items@[i] == v;
                    if i < j {
                        assert(before.contains(v));
                        let k = choose|k: int| 0 <= k < before.len() && before[k] == v;
                        assert(out@[k] == v);
                    }
                }
            }
        }
        j += 1;
    }
    proof {
        assert(items@.take(items.len() as int) =~= items@);
    }
    out
}

/// Tries the four directions from `p` in random order, each once, and carves
/// in the first that leads to a wall two steps away. Returns the cell carved
/// to, or `None`, with the grid unchanged, when every direction is blocked.
pub fn move_maze(grid: &mut Grid, p: Point, rng: &mut StdRng) -> (res: Option<Point>)
    requires
        old(grid).wf(),
        old(grid).has(p.0 as int, p.1 as int),
    ensures
        match res {
            Some(q) => exists|t: int|
                #![trigger far_row(p.0 as int, t)]
                q.0 == far_row(p.0 as int, t) && q.1 == far_col(p.1 as int, t) && carved_from(
                    *old(grid),
                    *final(grid),
                    p.0 as int,
                    p.1 as int,
                    t,
                ),
            None => *final(grid) == *old(grid) && forall|t: int|
                0 <= t < 4 ==> #[trigger] blocked(*old(grid), p.0 as int, p.1 as int, t),
        },
{
    let mut lst: Vec<usize> = Vec::new();
    lst.push(0);
    lst.push(1);
    lst.push(2);
    lst.push(3);
    proof {
        assert(lst@[0] == 0 && lst@[1] == 1 && lst@[2] == 2 && lst@[3] == 3);
    }
    while lst.len() > 0
        invariant
            *grid == *old(grid),
            grid.wf(),
            grid.has(p.0 as int, p.1 as int),
            forall|v: usize| lst@.contains(v) ==> v < 4,
            forall|t: int|
                0 <= t < 4 ==> lst@.contains(t as usize) || #[trigger] blocked(
                    *grid,
                    p.0 as int,
                    p.1 as int,
                    t,
                ),
        decreases lst.len(),
    {
        let d: usize = choose_from(rng, &lst);
        match try_carve(grid, p, d) {
            Some(q) => {
                proof {
                    assert(far_row(p.0 as int, d as int) == q.0);
                }
                return Some(q);
            },
            None => {},
        }
        lst = without(&lst, d);
    }
    None
}

/// From `g` to `h` cells have only turned from wall to passage.
pub open spec fn only_opened(g: Grid, h: Grid) -> bool {
    forall|r: int, c: int|
        g.has(r, c) ==> (#[trigger] h.at(r, c)) == g.at(r, c) || (g.at(r, c) == Cell::Wall
            && h.at(r, c) == Cell::Passage)
}

/// A node of the carving lattice: both coordinates odd.
pub open spec fn is_node(r: int, c: int) -> bool {
    r % 2 == 1 && c % 2 == 1
}

/// The carved cells at lattice nodes.
pub open spec fn passage_nodes(g: Grid) -> Set<(int, int)> {
    Set::new(|p: (int, int)| g.has(p.0, p.1) && is_node(p.0, p.1) && g.at(p.0, p.1) != Cell::Wall)
}

/// The carved cells between lattice nodes.
pub open spec fn passage_links(g: Grid) -> Set<(int, int)> {
    Set::new(
        |p: (int, int)| g.has(p.0, p.1) && !is_node(p.0, p.1) && g.at(p.0, p.1) != Cell::Wall,
    )
}

/// Every cell is a wall or a passage, and every passage lies strictly inside
/// the grid with at least one odd coordinate: the border and the cells with
/// two even coordinates stay walls.
pub open spec fn lattice(g: Grid) -> bool {
    forall|r: int, c: int| g.has(r, c) ==> #[trigger] shaped(g, r, c)
}

/// The cell is a wall, or a passage strictly inside the grid with at least
/// one odd coordinate.
pub open spec fn shaped(g: Grid, r: int, c: int) -> bool {
    g.at(r, c) == Cell::Wall || (g.at(r, c) == Cell::Passage && 0 < r < g.dim() - 1 && 0 < c
        < g.dim() - 1 && (r % 2 == 1 || c % 2 == 1))
}

/// Every carved cell between nodes joins the two nodes on either side of it,
/// and both are carved.
pub open spec fn links_join(g: Grid) -> bool {
    forall|r: int, c: int| g.has(r, c) ==> #[trigger] joined(g, r, c)
}

/// If the cell is carved and has an even coordinate, its two neighbours
/// along that coordinate are carved.
pub open spec fn joined(g: Grid, r: int, c: int) -> bool {
    g.at(r, c) == Cell::Passage ==> (r % 2 == 0 ==> g.at(r - 1, c) == Cell::Passage && g.at(
        r + 1,
        c,
    ) == Cell::Passage) && (c % 2 == 0 ==> g.at(r, c - 1) == Cell::Passage && g.at(r, c + 1)
        == Cell::Passage)
}

/// Every open cell can be reached from `(sr, sc)`, itself open.
pub open spec fn connected_from(g: Grid, sr: int, sc: int) -> bool {
    open_at(g, sr, sc) && forall|r: int, c: int| #[trigger]
        open_at(g, r, c) ==> reachable(g, sr, sc, r, c)
}

/// Every lattice node is carved.
pub open spec fn all_nodes_carved(g: Grid) -> bool {
    forall|r: int, c: int| g.has(r, c) && is_node(r, c) ==> (#[trigger] g.at(r, c)) == Cell::Passage
}

/// One fewer carved links than carved nodes.
pub open spec fn tree_count(g: Grid) -> bool {
    &&& passage_nodes(g).finite()
    &&& passage_links(g).finite()
    &&& passage_links(g).len() + 1 == passage_nodes(g).len()
}

/// A perfect maze: the passages lie on the lattice of odd coordinates, cover
/// all its nodes, hang together, and form a tree (connected, with one link
/// fewer than nodes).
pub open spec fn perfect(g: Grid) -> bool {
    &&& lattice(g)
    &&& links_join(g)
    &&& all_nodes_carved(g)
    &&& exists|sr: int, sc: int| connected_from(g, sr, sc)
    &&& tree_count(g)
}

/// In a perfect maze every open cell can be reached from every other.
pub proof fn lemma_perfect_connects_all(g: Grid, r1: int, c1: int, r2: int, c2: int)
    requires
        perfect(g),
        open_at(g, r1, c1),
        open_at(g, r2, c2),
    ensures
        reachable(g, r1, c1, r2, c2),
{
    let (sr, sc) = choose|sr: int, sc: int| connected_from(g, sr, sc);
    assert(reachable(g, sr, sc, r1, c1));
    assert(reachable(g, sr, sc, r2, c2));
    let k1 = choose|k: nat| walk(g, sr, sc, r1, c1, k);
    let k2 = choose|k: nat| walk(g, sr, sc, r2, c2, k);
    lemma_walk_reverse(g, sr, sc, r1, c1, k1);
    lemma_walk_concat(g, r1, c1, sr, sc, r2, c2, k1, k2);
}

/// The carved cells.
pub open spec fn passage_cells(g: Grid) -> Set<(int, int)> {
    Set::new(|p: (int, int)| g.has(p.0, p.1) && g.at(p.0, p.1) != Cell::Wall)
}

/// The lattice nodes of row `r` whose column lies below `2 * m`.
pub open spec fn row_nodes(r: int, m: int) -> Set<(int, int)> {
    Set::new(|p: (int, int)| p.0 == r && p.1 % 2 == 1 && 0 <= p.1 < 2 * m)
}

/// The lattice nodes whose row lies below `2 * a` and whose column lies
/// below `2 * k`.
pub open spec fn block_nodes(a: int, k: int) -> Set<(int, int)> {
    Set::new(|p: (int, int)| is_node(p.0, p.1) && 0 <= p.0 < 2 * a && 0 <= p.1 < 2 * k)
}

/// A row holds `m` nodes below column `2 * m`.
pub proof fn lemma_row_nodes(r: int, m: nat)
    ensures
        row_nodes(r, m as int).finite(),
        row_nodes(r, m as int).len() == m,
    decreases m,
{
    if m == 0 {
        assert(row_nodes(r, 0) =~= Set::<(int, int)>::empty());
    } else {
        lemma_row_nodes(r, (m - 1) as nat);
        let before = row_nodes(r, m - 1);
        assert(row_nodes(r, m as int) =~= before.insert((r, 2 * m - 1)));
        assert(!before.contains((r, 2 * m - 1)));
    }
}

/// A block of `a` rows of nodes and `k` columns of nodes holds `a * k`
/// nodes.
pub proof fn lemma_block_nodes(a: nat, k: nat)
    ensures
        block_nodes(a as int, k as int).finite(),
        block_nodes(a as int, k as int).len() == a * k,
    decreases a,
{
    if a == 0 {
        assert(block_nodes(0, k as int) =~= Set::<(int, int)>::empty());
        assert(a * k == 0) by (nonlinear_arith)
            requires
                a == 0,
        ;
    } else {
        lemma_block_nodes((a - 1) as nat, k);
        lemma_row_nodes(2 * a - 1, k);
        let above = block_nodes(a - 1, k as int);
        let row = row_nodes(2 * a - 1, k as int);
        assert(block_nodes(a as int, k as int) =~= above + row);
        assert(above.disjoint(row));
        vstd::set_lib::lemma_set_disjoint_lens(above, row);
        assert((a - 1) * k + k == a * k) by (nonlinear_arith);
    }
}

/// The numbers of a perfect maze of side `2 * k + 1`: `k * k` carved nodes,
/// one link fewer, and `2 * k * k - 1` passages in all, counted as a set of
/// cells and as entries of the grid.
pub open spec fn has_tree_counts(g: Grid) -> bool {
    let k = (g.dim() - 1) / 2;
    &&& passage_nodes(g).len() == k * k
    &&& passage_links(g).len() == k * k - 1
    &&& passage_cells(g).finite()
    &&& passage_cells(g).len() == 2 * (k * k) - 1
    &&& g.count(Cell::Passage) == 2 * (k * k) - 1
}

/// A perfect maze of side `2 * k + 1` has `k * k` carved nodes, one link
/// fewer, and so `2 * k * k - 1` carved cells in all.
pub proof fn lemma_perfect_counts(g: Grid, k: nat)
    requires
        g.wf(),
        g.dim() == 2 * k + 1,
        perfect(g),
    ensures
        passage_nodes(g).len() == k * k,
        passage_links(g).len() == k * k - 1,
        passage_cells(g).finite(),
        passage_cells(g).len() == 2 * (k * k) - 1,
{
    lemma_block_nodes(k, k);
    assert forall|p: (int, int)| block_nodes(k as int, k as int).contains(p) implies passage_nodes(
        g,
    ).contains(p) by {
        assert(g.has(p.0, p.1));
        assert(g.at(p.0, p.1) == Cell::Passage);
    }
    assert(passage_nodes(g) =~= block_nodes(k as int, k as int));
    assert(passage_cells(g) =~= passage_nodes(g) + passage_links(g));
    assert(passage_nodes(g).disjoint(passage_links(g)));
    vstd::set_lib::lemma_set_disjoint_lens(passage_nodes(g), passage_links(g));
}

/// No carving leads away from `(r, c)`.
pub open spec fn closed(g: Grid, r: int, c: int) -> bool {
    blocked(g, r, c, 0) && blocked(g, r, c, 1) && blocked(g, r, c, 2) && blocked(g, r, c, 3)
}

spec fn on_stack(s: Seq<Point>, r: int, c: int) -> bool {
    exists|j: int| 0 <= j < s.len() && (#[trigger] s[j]).0 == r && s[j].1 == c
}

/// Every carved node is still on the stack or has nowhere left to carve to.
spec fn pending(g: Grid, s: Seq<Point>) -> bool {
    forall|r: int, c: int| g.has(r, c) && is_node(r, c) ==> #[trigger] settled(g, s, r, c)
}

spec fn settled(g: Grid, s: Seq<Point>, r: int, c: int) -> bool {
    g.at(r, c) == Cell::Passage ==> on_stack(s, r, c) || closed(g, r, c)
}

spec fn stack_ok(g: Grid, s: Seq<Point>) -> bool {
    forall|j: int|
        0 <= j < s.len() ==> g.has((#[trigger] s[j]).0 as int, s[j].1 as int) && is_node(
            s[j].0 as int,
            s[j].1 as int,
        ) && g.at(s[j].0 as int, s[j].1 as int) == Cell::Passage
}

/// Carving from a carved node keeps the passages on the lattice and every
/// link between two carved nodes; the cell between was a wall, and the far
/// cell is the only node that changed.
proof fn lemma_carve_shape(g: Grid, h: Grid, r: int, c: int, t: int)
    requires
        g.wf(),
        g.dim() % 2 == 1,
        g.has(r, c),
        is_node(r, c),
        g.at(r, c) == Cell::Passage,
        carved_from(g, h, r, c, t),
        lattice(g),
        links_join(g),
    ensures
        lattice(h),
        links_join(h),
        g.at(nb_row(r, t), nb_col(c, t)) == Cell::Wall,
        g.has(nb_row(r, t), nb_col(c, t)),
        is_node(far_row(r, t), far_col(c, t)),
        !is_node(nb_row(r, t), nb_col(c, t)),
        only_opened(g, h),
        forall|r2: int, c2: int|
            g.has(r2, c2) && is_node(r2, c2) && !(r2 == far_row(r, t) && c2 == far_col(c, t)) ==> (
            #[trigger] h.at(r2, c2)) == g.at(r2, c2),
{
    let qr = far_row(r, t);
    let qc = far_col(c, t);
    let or = nb_row(r, t);
    let oc = nb_col(c, t);
    assert(shaped(g, r, c));
    assert(g.has(or, oc));
    assert(shaped(g, or, oc));
    assert(joined(g, or, oc));
    assert(g.at(or, oc) == Cell::Wall);
    assert forall|r2: int, c2: int| g.has(r2, c2) implies (#[trigger] h.at(r2, c2)) == g.at(r2, c2)
        || (g.at(r2, c2) == Cell::Wall && h.at(r2, c2) == Cell::Passage) by {}
    assert forall|r2: int, c2: int| h.has(r2, c2) implies #[trigger] shaped(h, r2, c2) by {
        assert(shaped(g, r2, c2));
        assert(h.at(r2, c2) == g.at(r2, c2) || (g.at(r2, c2) == Cell::Wall && h.at(r2, c2)
            == Cell::Passage));
    }
    assert forall|r2: int, c2: int| h.has(r2, c2) implies #[trigger] joined(h, r2, c2) by {
        assert(shaped(h, r2, c2));
        if h.at(r2, c2) == Cell::Passage {
            if r2 == qr && c2 == qc {
            } else if r2 == or && c2 == oc {
                assert(h.at(r, c) == g.at(r, c));
            } else {
                assert(h.at(r2, c2) == g.at(r2, c2));
                assert(joined(g, r2, c2));
                assert(shaped(g, r2, c2));
                if r2 % 2 == 0 {
                    assert(g.has(r2 - 1, c2) && g.has(r2 + 1, c2));
                    assert(h.at(r2 - 1, c2) == Cell::Passage);
                    assert(h.at(r2 + 1, c2) == Cell::Passage);
                }
                if c2 % 2 == 0 {
                    assert(g.has(r2, c2 - 1) && g.has(r2, c2 + 1));
                    assert(h.at(r2, c2 - 1) == Cell::Passage);
                    assert(h.at(r2, c2 + 1) == Cell::Passage);
                }
            }
        }
    }
}

/// Carving never reopens a direction.
proof fn lemma_carve_keeps_closed(g: Grid, h: Grid, r2: int, c2: int)
    requires
        h.dim() == g.dim(),
        closed(g, r2, c2),
        only_opened(g, h),
    ensures
        closed(h, r2, c2),
{
}

/// Carving from a cell that the seed reaches keeps every open cell within
/// reach of the seed.
proof fn lemma_carve_connected(g: Grid, h: Grid, sr: int, sc: int, r: int, c: int, t: int)
    requires
        g.wf(),
        g.has(r, c),
        g.at(r, c) == Cell::Passage,
        carved_from(g, h, r, c, t),
        connected_from(g, sr, sc),
        only_opened(g, h),
    ensures
        connected_from(h, sr, sc),
{
    assert forall|r2: int, c2: int| open_at(g, r2, c2) implies open_at(h, r2, c2) by {
        assert(h.at(r2, c2) == g.at(r2, c2) || (g.at(r2, c2) == Cell::Wall && h.at(r2, c2)
            == Cell::Passage));
    }
    let qr = far_row(r, t);
    let qc = far_col(c, t);
    let or = nb_row(r, t);
    let oc = nb_col(c, t);
    assert(open_at(g, r, c));
    assert(reachable(g, sr, sc, r, c));
    let k = choose|k: nat| walk(g, sr, sc, r, c, k);
    lemma_walk_monotone(g, h, sr, sc, r, c, k);
    assert(h.has(or, oc));
    lemma_walk_step(h, sr, sc, r, c, or, oc, k);
    lemma_walk_step(h, sr, sc, or, oc, qr, qc, k + 1);
    assert(open_at(g, sr, sc));
    assert forall|r2: int, c2: int| #[trigger] open_at(h, r2, c2) implies reachable(
        h,
        sr,
        sc,
        r2,
        c2,
    ) by {
        if r2 == qr && c2 == qc {
        } else if r2 == or && c2 == oc {
        } else {
            assert(h.at(r2, c2) == g.at(r2, c2));
            assert(open_at(g, r2, c2));
            let w = choose|w: nat| walk(g, sr, sc, r2, c2, w);
            lemma_walk_monotone(g, h, sr, sc, r2, c2, w);
        }
    }
}

/// Carving adds one node and one link.
proof fn lemma_carve_count(g: Grid, h: Grid, r: int, c: int, t: int)
    requires
        carved_from(g, h, r, c, t),
        g.has(nb_row(r, t), nb_col(c, t)),
        g.at(nb_row(r, t), nb_col(c, t)) == Cell::Wall,
        is_node(far_row(r, t), far_col(c, t)),
        !is_node(nb_row(r, t), nb_col(c, t)),
        tree_count(g),
    ensures
        tree_count(h),
        passage_nodes(h).len() == passage_nodes(g).len() + 1,
        passage_links(h).len() == passage_links(g).len() + 1,
{
    let q = (far_row(r, t), far_col(c, t));
    let o = (nb_row(r, t), nb_col(c, t));
    assert forall|p: (int, int)| passage_nodes(h).contains(p) <==> passage_nodes(g).insert(
        q,
    ).contains(p) by {
        if g.has(p.0, p.1) && p != q && p != o {
            assert(h.at(p.0, p.1) == g.at(p.0, p.1));
        }
    }
    assert(passage_nodes(h) =~= passage_nodes(g).insert(q));
    assert forall|p: (int, int)| passage_links(h).contains(p) <==> passage_links(g).insert(
        o,
    ).contains(p) by {
        if g.has(p.0, p.1) && p != q && p != o {
            assert(h.at(p.0, p.1) == g.at(p.0, p.1));
        }
    }
    assert(passage_links(h) =~= passage_links(g).insert(o));
    assert(!passage_nodes(g).contains(q));
    assert(!passage_links(g).contains(o));
}

/// Where every carved node is closed, carving has reached every node.
proof fn lemma_closed_covers(g: Grid, sr: int, sc: int, r: int, c: int)
    requires
        g.wf(),
        lattice(g),
        g.has(sr, sc),
        is_node(sr, sc),
        g.at(sr, sc) == Cell::Passage,
        g.has(r, c),
        is_node(r, c),
        pending(g, Seq::<Point>::empty()),
    ensures
        g.at(r, c) == Cell::Passage,
    decreases (if r > sr {
            r - sr
        } else {
            sr - r
        }) + (if c > sc {
            c - sc
        } else {
            sc - c
        }),
{
    if r > sr {
        lemma_closed_covers(g, sr, sc, r - 2, c);
        assert(settled(g, Seq::<Point>::empty(), r - 2, c));
        assert(shaped(g, r, c));
        assert(blocked(g, r - 2, c, 1));
    } else if r < sr {
        lemma_closed_covers(g, sr, sc, r + 2, c);
        assert(settled(g, Seq::<Point>::empty(), r + 2, c));
        assert(shaped(g, r, c));
        assert(blocked(g, r + 2, c, 0));
    } else if c > sc {
        lemma_closed_covers(g, sr, sc, r, c - 2);
        assert(settled(g, Seq::<Point>::empty(), r, c - 2));
        assert(shaped(g, r, c));
        assert(blocked(g, r, c - 2, 3));
    } else if c < sc {
        lemma_closed_covers(g, sr, sc, r, c + 2);
        assert(settled(g, Seq::<Point>::empty(), r, c + 2));
        assert(shaped(g, r, c));
        assert(blocked(g, r, c + 2, 2));
    }
}

/// After a carving the new node goes on the stack: every carved node is on
/// the stack or closed, as before.
proof fn lemma_push_keeps(g: Grid, h: Grid, s: Seq<Point>, s2: Seq<Point>, q: Point)
    requires
        h.dim() == g.dim(),
        s2 == s.push(q),
        h.has(q.0 as int, q.1 as int),
        is_node(q.0 as int, q.1 as int),
        h.at(q.0 as int, q.1 as int) == Cell::Passage,
        g.at(q.0 as int, q.1 as int) == Cell::Wall,
        stack_ok(g, s),
        pending(g, s),
        only_opened(g, h),
        forall|r2: int, c2: int|
            g.has(r2, c2) && is_node(r2, c2) && !(r2 == q.0 && c2 == q.1) ==> (#[trigger] h.at(
                r2,
                c2,
            )) == g.at(r2, c2),
    ensures
        stack_ok(h, s2),
        pending(h, s2),
{
    assert forall|j: int| 0 <= j < s2.len() implies h.has(
        (#[trigger] s2[j]).0 as int,
        s2[j].1 as int,
    ) && is_node(s2[j].0 as int, s2[j].1 as int) && h.at(s2[j].0 as int, s2[j].1 as int)
        == Cell::Passage by {
        if j < s.len() {
            assert(s2[j] == s[j]);
            assert(h.at(s[j].0 as int, s[j].1 as int) == g.at(s[j].0 as int, s[j].1 as int));
        }
    }
    assert forall|r: int, c: int| h.has(r, c) && is_node(r, c) implies #[trigger] settled(
        h,
        s2,
        r,
        c,
    ) by {
        if h.at(r, c) == Cell::Passage {
            if r == q.0 && c == q.1 {
                assert(s2[s.len() as int].0 == r);
            } else {
                assert(settled(g, s, r, c));
                if g.at(r, c) == Cell::Passage {
                    if on_stack(s, r, c) {
                        let j = choose|j: int|
                            0 <= j < s.len() && (#[trigger] s[j]).0 == r && s[j].1 == c;
                        assert(s2[j] == s[j]);
                    } else {
                        lemma_carve_keeps_closed(g, h, r, c);
                    }
                }
            }
        }
    }
}

/// The direction is blocked at the top of the stack, which leaves: every
/// other carved node stays on the stack or closed.
proof fn lemma_pop_keeps(g: Grid, s: Seq<Point>, s2: Seq<Point>)
    requires
        s.len() > 0,
        s2 == s.subrange(0, s.len() - 1),
        stack_ok(g, s),
        pending(g, s),
        forall|t: int|
            0 <= t < 4 ==> #[trigger] blocked(g, s[s.len() - 1].0 as int, s[s.len() - 1].1 as int, t),
    ensures
        stack_ok(g, s2),
        pending(g, s2),
{
    let top = s[s.len() - 1];
    assert(blocked(g, top.0 as int, top.1 as int, 0) && blocked(g, top.0 as int, top.1 as int, 1)
        && blocked(g, top.0 as int, top.1 as int, 2) && blocked(g, top.0 as int, top.1 as int, 3));
    assert forall|j: int| 0 <= j < s2.len() implies g.has(
        (#[trigger] s2[j]).0 as int,
        s2[j].1 as int,
    ) && is_node(s2[j].0 as int, s2[j].1 as int) && g.at(s2[j].0 as int, s2[j].1 as int)
        == Cell::Passage by {
        assert(s2[j] == s[j]);
    }
    assert forall|r: int, c: int| g.has(r, c) && is_node(r, c) implies #[trigger] settled(
        g,
        s2,
        r,
        c,
    ) by {
        assert(settled(g, s, r, c));
        if g.at(r, c) == Cell::Passage && !(r == top.0 && c == top.1) && on_stack(s, r, c) {
            let j = choose|j: int| 0 <= j < s.len() && (#[trigger] s[j]).0 == r && s[j].1 == c;
            assert(s2[j] == s[j]);
        }
    }
}

/// The odd numbers below `n - 1`, ascending.
fn odd_inside(n: usize) -> (odd: Vec<usize>)
    requires
        n >= 3,
        n % 2 == 1,
    ensures
        odd.len() == (n - 1) / 2,
        forall|i: int| 0 <= i < odd.len() ==> odd@[i] == 2 * i + 1,
{
    let mut odd: Vec<usize> = Vec::new();
    let mut x: usize = 1;
    while x < n - 1
        invariant
            n >= 3,
            n % 2 == 1,
            x % 2 == 1,
            x <= n,
            x == 2 * odd.len() + 1,
            forall|i: int| 0 <= i < odd.len() ==> odd@[i] == 2 * i + 1,
        decreases n - x,
    {
        odd.push(x);
        x += 2;
    }
    odd
}

/// Carves a perfect maze of side `n`.
///
/// The side must be odd and at least five (and small enough for the
/// machine); any other is refused as `InvalidDimension`. Carving starts at a
/// node drawn at random, row and column each from the odd numbers inside the
/// grid. Whatever the generator draws, the result is a perfect maze.
pub fn anahori(n: usize, rng: &mut StdRng) -> (res: Result<Grid, MazeError>)
    ensures
        res.is_ok() <==> n % 2 == 1 && n >= 5 && n <= i32::MAX && n * n <= usize::MAX,
        match res {
            Ok(g) => g.wf() && g.dim() == n && perfect(g) && has_tree_counts(g),
            Err(e) => e == MazeError::InvalidDimension,
        },
{
    if n % 2 == 0 || n < 5 || n > 0x7fff_ffff || n.checked_mul(n).is_none() {
        return Err(MazeError::InvalidDimension);
    }
    let odd: Vec<usize> = odd_inside(n);
    let row: usize = choose_from(rng, &odd);
    let col: usize = choose_from(rng, &odd);
    proof {
        let i = choose|i: int| 0 <= i < odd@.len() && odd@[i] == row;
        let j = choose|j: int| 0 <= j < odd@.len() && odd@[j] == col;
        assert(row == 2 * i + 1 && col == 2 * j + 1);
    }
    carve_from(n, row, col, rng)
}

/// Carves a perfect maze of side `n`, starting at the node in row `row` and
/// column `col`.
///
/// Carving runs depth first with an explicit stack: from the top of the
/// stack it carves two cells in a random direction whose far cell is still a
/// wall and pushes that cell, and it pops when no direction is left.
/// Whatever the generator draws, the result is a perfect maze, every open
/// cell of which can be reached from the starting node.
pub fn carve_from(n: usize, row: usize, col: usize, rng: &mut StdRng) -> (res: Result<
    Grid,
    MazeError,
>)
    requires
        row % 2 == 1,
        col % 2 == 1,
        row + 1 < n,
        col + 1 < n,
    ensures
        res.is_ok() <==> n % 2 == 1 && n >= 5 && n <= i32::MAX && n * n <= usize::MAX,
        match res {
            Ok(g) => g.wf() && g.dim() == n && perfect(g) && has_tree_counts(g)
                && connected_from(g, row as int, col as int),
            Err(e) => e == MazeError::InvalidDimension,
        },
{
    if n % 2 == 0 || n < 5 {
        return Err(MazeError::InvalidDimension);
    }
    let mut grid: Grid = match Square::filled(n, Cell::Wall) {
        Some(g) => g,
        None => {
            return Err(MazeError::InvalidDimension);
        },
    };
    let ghost blank = grid;
    grid.set(row, col, Cell::Passage);
    let seed: Point = Point(row as i32, col as i32);
    let ghost sr = row as int;
    let ghost sc = col as int;
    let mut stack: Vec<Point> = Vec::new();
    stack.push(seed);
    proof {
        assert(stack@[0] == seed);
        assert(on_stack(stack@, sr, sc));
        assert(walk(grid, sr, sc, sr, sc, 0));
        assert(passage_nodes(grid) =~= Set::<(int, int)>::empty().insert((sr, sc)));
        assert(passage_links(grid) =~= Set::<(int, int)>::empty());
        assert forall|r: int, c: int| #[trigger] open_at(grid, r, c) implies reachable(
            grid,
            sr,
            sc,
            r,
            c,
        ) by {
            assert(r == sr && c == sc);
        }
        assert forall|r: int, c: int| grid.has(r, c) implies #[trigger] shaped(grid, r, c) by {
            assert(blank.has(r, c));
        }
        assert forall|r: int, c: int| grid.has(r, c) implies #[trigger] joined(grid, r, c) by {
            assert(blank.has(r, c));
        }
        assert forall|r: int, c: int| grid.has(r, c) && is_node(r, c) implies #[trigger] settled(
            grid,
            stack@,
            r,
            c,
        ) by {
            assert(blank.has(r, c));
        }
    }
    while stack.len() > 0
        invariant
            n % 2 == 1,
            n >= 5,
            grid.wf(),
            grid.dim() == n,
            sr == row as int,
            sc == col as int,
            grid.has(sr, sc),
            is_node(sr, sc),
            grid.at(sr, sc) == Cell::Passage,
            lattice(grid),
            links_join(grid),
            connected_from(grid, sr, sc),
            tree_count(grid),
            grid.count(Cell::Passage) == passage_nodes(grid).len() + passage_links(grid).len(),
            stack_ok(grid, stack@),
            pending(grid, stack@),
        decreases grid.count(Cell::Wall), stack.len(),
    {
        let cur: Point = stack[stack.len() - 1];
        let ghost g = grid;
        let ghost s = stack@;
        match move_maze(&mut grid, cur, rng) {
            Some(q) => {
                stack.push(q);
                proof {
                    let cr = cur.0 as int;
                    let cc = cur.1 as int;
                    let t = choose|t: int|
                        #![trigger far_row(cr, t)]
                        q.0 == far_row(cr, t) && q.1 == far_col(cc, t) && carved_from(
                            g,
                            grid,
                            cr,
                            cc,
                            t,
                        );
                    lemma_carve_shape(g, grid, cr, cc, t);
                    lemma_carve_connected(g, grid, sr, sc, cr, cc, t);
                    lemma_carve_count(g, grid, cr, cc, t);
                    lemma_push_keeps(g, grid, s, stack@, q);
                }
            },
            None => {
                stack.pop();
                proof {
                    lemma_pop_keeps(g, s, stack@);
                }
            },
        }
    }
    proof {
        assert forall|r: int, c: int| grid.has(r, c) && is_node(r, c) implies #[trigger] settled(
            grid,
            Seq::<Point>::empty(),
            r,
            c,
        ) by {
            assert(settled(grid, stack@, r, c));
            assert(!on_stack(stack@, r, c));
        }
        assert forall|r: int, c: int| grid.has(r, c) && is_node(r, c) implies (#[trigger] grid.at(
            r,
            c,
        )) == Cell::Passage by {
            lemma_closed_covers(grid, sr, sc, r, c);
        }
    }
    proof {
        lemma_perfect_counts(grid, ((n - 1) / 2) as nat);
    }
    Ok(grid)
}

} // verus!
