//! The textual form of a grid: one row per line, one character per cell.

use crate::grid::{locate, Cell, Grid, MazeError};
use crate::square::Square;
use vstd::prelude::*;

verus! {

/// The state that a character stands for: a blank is a passage, `S` the
/// start, `G` the goal, `+` the marked route, anything else a wall. Only the
/// first three can be stepped on.
pub open spec fn cell_of(ch: char) -> Cell {
    if ch == ' ' {
        Cell::Passage
    } else if ch == 'S' {
        Cell::Start
    } else if ch == 'G' {
        Cell::Goal
    } else if ch == '+' {
        Cell::Path
    } else {
        Cell::Wall
    }
}

/// The character that is written for a state.
pub open spec fn char_of(cell: Cell) -> char {
    match cell {
        Cell::Wall => '#',
        Cell::Passage => ' ',
        Cell::Start => 'S',
        Cell::Goal => 'G',
        Cell::Path => '+',
    }
}

/// Reading a character back after writing it gives the state again.
pub proof fn lemma_char_round_trip(cell: Cell)
    ensures
        cell_of(char_of(cell)) == cell,
{
}

pub fn cell_from_char(ch: char) -> (cell: Cell)
    ensures
        cell == cell_of(ch),
{
    if ch == ' ' {
        Cell::Passage
    } else if ch == 'S' {
        Cell::Start
    } else if ch == 'G' {
        Cell::Goal
    } else if ch == '+' {
        Cell::Path
    } else {
        Cell::Wall
    }
}

pub fn char_from_cell(cell: Cell) -> (ch: char)
    ensures
        ch == char_of(cell),
{
    match cell {
        Cell::Wall => '#',
        Cell::Passage => ' ',
        Cell::Start => 'S',
        Cell::Goal => 'G',
        Cell::Path => '+',
    }
}

/// The rows of a table of characters, as sequences.
pub open spec fn rows_view(rows: Seq<Vec<char>>) -> Seq<Seq<char>> {
    Seq::new(rows.len(), |i: int| rows[i]@)
}

/// After reading `s`: the lines that a line break has closed, empty ones
/// left out, and the line still open.
pub open spec fn split_state(s: Seq<char>) -> (Seq<Seq<char>>, Seq<char>)
    decreases s.len(),
{
    if s.len() == 0 {
        (Seq::empty(), Seq::empty())
    } else {
        let before = split_state(s.drop_last());
        if s.last() == '\n' {
            (
                if before.1.len() > 0 {
                    before.0.push(before.1)
                } else {
                    before.0
                },
                Seq::empty(),
            )
        } else {
            (before.0, before.1.push(s.last()))
        }
    }
}

/// The lines of a text that are not empty, in their order.
pub open spec fn lines_of(s: Seq<char>) -> Seq<Seq<char>> {
    let st = split_state(s);
    if st.1.len() > 0 {
        st.0.push(st.1)
    } else {
        st.0
    }
}

/// A closed line, and the open one, hold no line break, and no closed line
/// is empty.
pub proof fn lemma_split_state_shape(s: Seq<char>)
    ensures
        !split_state(s).1.contains('\n'),
        forall|i: int|
            0 <= i < split_state(s).0.len() ==> (#[trigger] split_state(s).0[i]).len() > 0
                && !split_state(s).0[i].contains('\n'),
    decreases s.len(),
{
    if s.len() > 0 {
        lemma_split_state_shape(s.drop_last());
        let before = split_state(s.drop_last());
        if s.last() != '\n' {
            let cur = before.1.push(s.last());
            if cur.contains('\n') {
                let k = choose|k: int| 0 <= k < cur.len() && cur[k] == '\n';
                assert(before.1[k] == '\n');
                assert(before.1.contains('\n'));
            }
        }
    }
}

/// No line of a text is empty, and none holds a line break.
pub proof fn lemma_lines_shape(s: Seq<char>)
    ensures
        forall|i: int|
            0 <= i < lines_of(s).len() ==> (#[trigger] lines_of(s)[i]).len() > 0 && !lines_of(
                s,
            )[i].contains('\n'),
{
    lemma_split_state_shape(s);
}

/// Splits a text at its line breaks and keeps the lines that are not empty.
pub fn make_vec(arg: &str) -> (v: Vec<Vec<char>>)
    ensures
        rows_view(v@) == lines_of(arg@),
{
    let mut v: Vec<Vec<char>> = Vec::new();
    let mut cur: Vec<char> = Vec::new();
    let len: usize = arg.unicode_len();
    let mut i: usize = 0;
    while i < len
        invariant
            len == arg@.len(),
            i <= len,
            split_state(arg@.take(i as int)) == (rows_view(v@), cur@),
        decreases len - i,
    {
        let ch: char = arg.get_char(i);
        proof {
            assert(arg@.take(i + 1).drop_last() =~= arg@.take(i as int));
            assert(arg@.take(i + 1).last() == ch);
        }
        let ghost rows_before = rows_view(v@);
        let ghost cur_before = cur@;
        if ch == '\n' {
            if cur.len() > 0 {
                v.push(cur);
                proof {
                    assert(rows_view(v@) =~= rows_before.push(cur_before));
                }
            }
            cur = Vec::new();
        } else {
            cur.push(ch);
        }
        i += 1;
    }
    proof {
        assert(arg@.take(len as int) =~= arg@);
    }
    if cur.len() > 0 {
        let ghost rows_before = rows_view(v@);
        let ghost cur_before = cur@;
        v.push(cur);
        proof {
            assert(rows_view(v@) =~= rows_before.push(cur_before));
        }
    }
    v
}

/// The grid shows what the table spells: one cell per character.
pub open spec fn depicts(g: Grid, rows: Seq<Seq<char>>) -> bool {
    &&& g.wf()
    &&& g.dim() == rows.len()
    &&& forall|r: int, c: int| g.has(r, c) ==> #[trigger] g.at(r, c) == cell_of(rows[r][c])
}

/// Two grids that show the same table hold the same cells, and so count
/// every state alike.
pub proof fn lemma_depicts_one_grid(g: Grid, h: Grid, rows: Seq<Seq<char>>)
    requires
        depicts(g, rows),
        depicts(h, rows),
    ensures
        g.flat() == h.flat(),
        forall|v: Cell| #[trigger] g.count(v) == h.count(v),
{
    g.lemma_same_entries(&h);
}

/// As many rows as each row has characters, and few enough for the machine.
pub open spec fn is_square(rows: Seq<Seq<char>>) -> bool {
    &&& rows.len() <= i32::MAX
    &&& rows.len() * rows.len() <= usize::MAX
    &&& forall|i: int| 0 <= i < rows.len() ==> (#[trigger] rows[i]).len() == rows.len()
}

/// The grid that a square table of characters stands for; `MalformedGrid`
/// for a table that is not square.
pub fn grid_of_rows(rows: &Vec<Vec<char>>) -> (res: Result<Grid, MazeError>)
    ensures
        res.is_ok() <==> is_square(rows_view(rows@)),
        match res {
            Ok(g) => depicts(g, rows_view(rows@)),
            Err(e) => e == MazeError::MalformedGrid,
        },
{
    let n: usize = rows.len();
    let ghost view = rows_view(rows@);
    let mut k: usize = 0;
    while k < n
        invariant
            n == rows.len(),
            k <= n,
            view == rows_view(rows@),
            forall|i: int| 0 <= i < k ==> (#[trigger] view[i]).len() == n,
        decreases n - k,
    {
        if rows[k].len() != n {
            proof {
                assert(view[k as int].len() != n);
            }
            return Err(MazeError::MalformedGrid);
        }
        k += 1;
    }
    let mut grid: Grid = match Square::filled(n, Cell::Wall) {
        Some(g) => g,
        None => {
            return Err(MazeError::MalformedGrid);
        },
    };
    let mut r: usize = 0;
    while r < n
        invariant
            n == rows.len(),
            view == rows_view(rows@),
            is_square(view),
            r <= n,
            grid.wf(),
            grid.dim() == n,
            forall|r2: int, c2: int|
                0 <= r2 < r && 0 <= c2 < n ==> #[trigger] grid.at(r2, c2) == cell_of(
                    rows@[r2]@[c2],
                ),
        decreases n - r,
    {
        let mut c: usize = 0;
        while c < n
            invariant
                n == rows.len(),
                view == rows_view(rows@),
            is_square(view),
                r < n,
                c <= n,
                grid.wf(),
                grid.dim() == n,
                forall|r2: int, c2: int|
                    0 <= r2 < r && 0 <= c2 < n ==> #[trigger] grid.at(r2, c2) == cell_of(
                        rows@[r2]@[c2],
                    ),
                forall|c2: int|
                    0 <= c2 < c ==> #[trigger] grid.at(r as int, c2) == cell_of(
                        rows@[r as int]@[c2],
                    ),
            decreases n - c,
        {
            assert(view[r as int].len() == n);
            let ch: char = rows[r][c];
            grid.set(r, c, cell_from_char(ch));
            c += 1;
        }
        r += 1;
    }
    Ok(grid)
}

/// Loads a maze to solve from its text: the lines that are not empty must
/// form a square, with one start marker and one goal marker.
///
/// `MalformedGrid` when the lines form no square, or when the grid they
/// spell lacks or repeats a marker.
pub fn load_maze(arg: &str) -> (res: Result<Grid, MazeError>)
    ensures
        match res {
            Ok(g) => depicts(g, lines_of(arg@)) && g.count(Cell::Start) == 1 && g.count(
                Cell::Goal,
            ) == 1,
            Err(e) => e == MazeError::MalformedGrid && (!is_square(lines_of(arg@)) || forall|
                g: Grid,
            |
                depicts(g, lines_of(arg@)) ==> g.count(Cell::Start) != 1 || g.count(Cell::Goal)
                    != 1),
        },
{
    let rows: Vec<Vec<char>> = make_vec(arg);
    let grid: Grid = match grid_of_rows(&rows) {
        Ok(g) => g,
        Err(e) => {
            return Err(e);
        },
    };
    proof {
        assert forall|g: Grid| depicts(g, lines_of(arg@)) implies g.count(Cell::Start)
            == grid.count(Cell::Start) && g.count(Cell::Goal) == grid.count(Cell::Goal) by {
            lemma_depicts_one_grid(g, grid, lines_of(arg@));
        }
    }
    match locate(&grid, Cell::Start) {
        Ok(_) => {},
        Err(e) => {
            return Err(e);
        },
    }
    match locate(&grid, Cell::Goal) {
        Ok(_) => {},
        Err(e) => {
            return Err(e);
        },
    }
    Ok(grid)
}

/// The table of characters that stands for a grid.
pub fn rows_of_grid(grid: &Grid) -> (rows: Vec<Vec<char>>)
    requires
        grid.wf(),
    ensures
        rows.len() == grid.dim(),
        forall|r: int| 0 <= r < rows.len() ==> (#[trigger] rows@[r]).len() == grid.dim(),
        forall|r: int, c: int|
            grid.has(r, c) ==> rows@[r]@[c] == char_of(#[trigger] grid.at(r, c)),
{
    let n: usize = grid.side();
    let mut rows: Vec<Vec<char>> = Vec::new();
    let mut r: usize = 0;
    while r < n
        invariant
            grid.wf(),
            n == grid.dim(),
            r <= n,
            rows.len() == r,
            forall|r2: int| 0 <= r2 < r ==> (#[trigger] rows@[r2]).len() == n,
            forall|r2: int, c2: int|
                0 <= r2 < r && 0 <= c2 < n ==> rows@[r2]@[c2] == char_of(
                    #[trigger] grid.at(r2, c2),
                ),
        decreases n - r,
    {
        let mut row: Vec<char> = Vec::new();
        let mut c: usize = 0;
        while c < n
            invariant
                grid.wf(),
                n == grid.dim(),
                r < n,
                c <= n,
                row.len() == c,
                forall|c2: int|
                    0 <= c2 < c ==> row@[c2] == char_of(#[trigger] grid.at(r as int, c2)),
            decreases n - c,
        {
            row.push(char_from_cell(grid.get(r, c)));
            c += 1;
        }
        rows.push(row);
        r += 1;
    }
    rows
}

/// The text of a table: each row followed by a line break.
pub open spec fn text_of(rows: Seq<Seq<char>>) -> Seq<char>
    decreases rows.len(),
{
    if rows.len() == 0 {
        Seq::empty()
    } else {
        text_of(rows.drop_last()) + rows.last() + seq!['\n']
    }
}

/// Writes a table as text, one row per line.
pub fn write_rows(rows: &Vec<Vec<char>>) -> (out: Vec<char>)
    ensures
        out@ == text_of(rows_view(rows@)),
{
    let ghost view = rows_view(rows@);
    let mut out: Vec<char> = Vec::new();
    let mut r: usize = 0;
    while r < rows.len()
        invariant
            r <= rows.len(),
            view == rows_view(rows@),
            out@ == text_of(view.take(r as int)),
        decreases rows.len() - r,
    {
        let row: &Vec<char> = &rows[r];
        let ghost start = out@;
        let mut c: usize = 0;
        while c < row.len()
            invariant
                c <= row.len(),
                out@ == start + row@.take(c as int),
            decreases row.len() - c,
        {
            out.push(row[c]);
            proof {
                assert(row@.take(c + 1) =~= row@.take(c as int).push(row@[c as int]));
                assert(out@ =~= start + row@.take(c + 1));
            }
            c += 1;
        }
        out.push('\n');
        proof {
            assert(row@.take(row.len() as int) =~= row@);
            assert(view.take(r + 1).drop_last() =~= view.take(r as int));
            assert(view.take(r + 1).last() == row@);
            assert(out@ =~= start + row@ + seq!['\n']);
        }
        r += 1;
    }
    proof {
        assert(view.take(rows.len() as int) =~= view);
    }
    out
}

/// Characters without a line break, read after `s`, extend the open line.
pub proof fn lemma_split_plain(s: Seq<char>, t: Seq<char>)
    requires
        !t.contains('\n'),
    ensures
        split_state(s + t) == (split_state(s).0, split_state(s).1 + t),
    decreases t.len(),
{
    if t.len() == 0 {
        assert(s + t =~= s);
        assert(split_state(s).1 + t =~= split_state(s).1);
    } else {
        let u = t.drop_last();
        assert((s + t).drop_last() =~= s + u);
        assert((s + t).last() == t.last());
        assert(t[t.len() - 1] != '\n');
        assert(!u.contains('\n')) by {
            if u.contains('\n') {
                let k = choose|k: int| 0 <= k < u.len() && u[k] == '\n';
                assert(t[k] == '\n');
            }
        }
        lemma_split_plain(s, u);
        assert((split_state(s).1 + u).push(t.last()) =~= split_state(s).1 + t);
    }
}

/// Reading back the text of a table gives the table, if no row is empty and
/// none holds a line break.
pub proof fn lemma_text_round_trip(rows: Seq<Seq<char>>)
    requires
        forall|i: int| 0 <= i < rows.len() ==> (#[trigger] rows[i]).len() > 0 && !rows[i].contains(
            '\n',
        ),
    ensures
        split_state(text_of(rows)) == (rows, Seq::<char>::empty()),
        lines_of(text_of(rows)) == rows,
    decreases rows.len(),
{
    if rows.len() > 0 {
        let head = rows.drop_last();
        let last = rows.last();
        assert forall|i: int| 0 <= i < head.len() implies (#[trigger] head[i]).len() > 0
            && !head[i].contains('\n') by {
            assert(head[i] == rows[i]);
        }
        lemma_text_round_trip(head);
        lemma_split_plain(text_of(head), last);
        let s1 = text_of(head) + last;
        let s2 = s1 + seq!['\n'];
        assert(s2.drop_last() =~= s1);
        assert(s2.last() == '\n');
        assert(Seq::<char>::empty() + last =~= last);
        assert(head.push(last) =~= rows);
    }
}

/// Writing a grid and reading the text back shows the same grid.
pub proof fn lemma_grid_round_trip(g: Grid, rows: Seq<Seq<char>>)
    requires
        g.wf(),
        rows.len() == g.dim(),
        forall|r: int| 0 <= r < rows.len() ==> (#[trigger] rows[r]).len() == g.dim(),
        forall|r: int, c: int| g.has(r, c) ==> rows[r][c] == char_of(#[trigger] g.at(r, c)),
    ensures
        lines_of(text_of(rows)) == rows,
        is_square(rows),
        depicts(g, rows),
{
    g.lemma_count_le_area(Cell::Wall);
    assert forall|i: int| 0 <= i < rows.len() implies (#[trigger] rows[i]).len() > 0
        && !rows[i].contains('\n') by {
        if rows[i].contains('\n') {
            let k = choose|k: int| 0 <= k < rows[i].len() && rows[i][k] == '\n';
            assert(rows[i][k] == char_of(g.at(i, k)));
        }
    }
    lemma_text_round_trip(rows);
    assert forall|r: int, c: int| g.has(r, c) implies #[trigger] g.at(r, c) == cell_of(
        rows[r][c],
    ) by {
        lemma_char_round_trip(g.at(r, c));
    }
}

} // verus!
