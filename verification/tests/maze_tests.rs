use maze::generator::{anahori, carve_from, move_maze, try_carve};
use maze::grid::{is_traversable, locate, neighbor, Cell, Grid, MazeError, Point};
use maze::path::{find_prev, shortest_path};
use maze::solution::{solve, solve_between};
use maze::solver::{search, DistanceMap};
use maze::square::Square;
use maze::text::{
    cell_from_char, char_from_cell, grid_of_rows, load_maze, make_vec, rows_of_grid, write_rows,
};
use rand::rngs::StdRng;
use rand::SeedableRng;

fn grid_from(lines: &[&str]) -> Grid {
    let text: String = lines.join("\n");
    let rows = make_vec(&text);
    grid_of_rows(&rows).unwrap()
}

fn count_cells(grid: &Grid, cell: Cell) -> usize {
    let n = grid.side();
    let mut k = 0;
    for r in 0..n {
        for c in 0..n {
            if grid.get(r, c) == cell {
                k += 1;
            }
        }
    }
    k
}

fn can_step(cell: Cell) -> bool {
    cell == Cell::Passage || cell == Cell::Start || cell == Cell::Goal
}

fn brute_force(grid: &Grid, start: Point) -> Vec<Vec<Option<usize>>> {
    let n = grid.side();
    let mut dist: Vec<Vec<Option<usize>>> = vec![vec![None; n]; n];
    if grid.peek(start.0, start.1).map_or(true, |c| !can_step(c)) {
        return dist;
    }
    dist[start.0 as usize][start.1 as usize] = Some(0);
    for _ in 0..(n * n) {
        for r in 0..n {
            for c in 0..n {
                if !can_step(grid.get(r, c)) {
                    continue;
                }
                let around = [
                    (r as i32 - 1, c as i32),
                    (r as i32 + 1, c as i32),
                    (r as i32, c as i32 - 1),
                    (r as i32, c as i32 + 1),
                ];
                for (ar, ac) in around.iter() {
                    if *ar < 0 || *ac < 0 || *ar >= n as i32 || *ac >= n as i32 {
                        continue;
                    }
                    if let Some(d) = dist[*ar as usize][*ac as usize] {
                        let better = match dist[r][c] {
                            None => true,
                            Some(old) => d + 1 < old,
                        };
                        if better {
                            dist[r][c] = Some(d + 1);
                        }
                    }
                }
            }
        }
    }
    dist
}

fn assert_matches_brute_force(grid: &Grid, start: Point) {
    let dm: DistanceMap = search(grid, start);
    let expected = brute_force(grid, start);
    let n = grid.side();
    assert_eq!(dm.side(), n);
    for r in 0..n {
        for c in 0..n {
            assert_eq!(dm.get(r, c), expected[r][c]);
        }
    }
}

fn assert_perfect(grid: &Grid, n: usize) {
    assert_eq!(grid.side(), n);
    let m = (n - 1) / 2;
    for r in 0..n {
        for c in 0..n {
            let cell = grid.get(r, c);
            assert!(cell == Cell::Wall || cell == Cell::Passage);
            if r % 2 == 1 && c % 2 == 1 {
                assert_eq!(cell, Cell::Passage);
            }
            if r % 2 == 0 && c % 2 == 0 {
                assert_eq!(cell, Cell::Wall);
            }
            if r == 0 || c == 0 || r == n - 1 || c == n - 1 {
                assert_eq!(cell, Cell::Wall);
            }
        }
    }
    let passages = count_cells(grid, Cell::Passage);
    assert_eq!(passages, 2 * m * m - 1);
    let mut nodes = 0;
    let mut links = 0;
    for r in 0..n {
        for c in 0..n {
            if grid.get(r, c) == Cell::Passage {
                if r % 2 == 1 && c % 2 == 1 {
                    nodes += 1;
                } else {
                    links += 1;
                }
            }
        }
    }
    assert_eq!(nodes, m * m);
    assert_eq!(links, m * m - 1);
    let dm = search(grid, Point(1, 1));
    let mut reached = 0;
    for r in 0..n {
        for c in 0..n {
            if dm.get(r, c).is_some() {
                reached += 1;
            }
        }
    }
    assert_eq!(reached, passages);
}

#[test]
fn generated_mazes_are_perfect() {
    for n in [5usize, 7, 9, 15, 21] {
        for seed in 0..20u64 {
            let mut rng = StdRng::seed_from_u64(seed);
            let grid = anahori(n, &mut rng).unwrap();
            assert_perfect(&grid, n);
        }
    }
}

#[test]
fn generation_is_reproducible_from_a_seed() {
    let mut a = StdRng::seed_from_u64(42);
    let mut b = StdRng::seed_from_u64(42);
    let ga = anahori(11, &mut a).unwrap();
    let gb = anahori(11, &mut b).unwrap();
    assert_eq!(rows_of_grid(&ga), rows_of_grid(&gb));
}

#[test]
fn generation_depends_on_the_draws() {
    let mut seen: Vec<Vec<Vec<char>>> = Vec::new();
    for seed in 0..30u64 {
        let mut rng = StdRng::seed_from_u64(seed);
        let rows = rows_of_grid(&anahori(9, &mut rng).unwrap());
        if !seen.contains(&rows) {
            seen.push(rows);
        }
    }
    assert!(seen.len() > 1);
}

#[test]
fn invalid_dimensions_are_refused() {
    let mut rng = StdRng::seed_from_u64(1);
    for n in [0usize, 1, 2, 3, 4, 6, 8, 100] {
        assert_eq!(anahori(n, &mut rng).err(), Some(MazeError::InvalidDimension));
    }
    assert!(anahori(5, &mut rng).is_ok());
}

#[test]
fn try_carve_opens_two_cells() {
    let mut grid: Grid = Square::filled(5, Cell::Wall).unwrap();
    grid.set(1, 1, Cell::Passage);
    assert_eq!(try_carve(&mut grid, Point(1, 1), 0), None);
    assert_eq!(try_carve(&mut grid, Point(1, 1), 2), None);
    assert_eq!(count_cells(&grid, Cell::Passage), 1);
    assert_eq!(try_carve(&mut grid, Point(1, 1), 1), Some(Point(3, 1)));
    assert_eq!(grid.get(2, 1), Cell::Passage);
    assert_eq!(grid.get(3, 1), Cell::Passage);
    assert_eq!(count_cells(&grid, Cell::Passage), 3);
    assert_eq!(try_carve(&mut grid, Point(1, 1), 1), None);
    assert_eq!(try_carve(&mut grid, Point(1, 1), 3), Some(Point(1, 3)));
    assert_eq!(grid.get(1, 2), Cell::Passage);
    assert_eq!(count_cells(&grid, Cell::Passage), 5);
}

#[test]
fn move_maze_carves_or_reports_a_dead_end() {
    let mut rng = StdRng::seed_from_u64(3);
    let mut grid: Grid = Square::filled(5, Cell::Wall).unwrap();
    grid.set(1, 1, Cell::Passage);
    let q = move_maze(&mut grid, Point(1, 1), &mut rng).unwrap();
    assert!(q == Point(3, 1) || q == Point(1, 3));
    assert_eq!(grid.get(q.0 as usize, q.1 as usize), Cell::Passage);
    assert_eq!(count_cells(&grid, Cell::Passage), 3);
    let mut full: Grid = Square::filled(5, Cell::Passage).unwrap();
    assert_eq!(move_maze(&mut full, Point(1, 1), &mut rng), None);
    assert_eq!(count_cells(&full, Cell::Passage), 25);
}

#[test]
fn distances_match_brute_force_on_generated_mazes() {
    for n in [5usize, 7] {
        for seed in 0..25u64 {
            let mut rng = StdRng::seed_from_u64(seed);
            let grid = anahori(n, &mut rng).unwrap();
            assert_matches_brute_force(&grid, Point(1, 1));
            assert_matches_brute_force(&grid, Point(n as i32 - 2, n as i32 - 2));
        }
    }
}

#[test]
fn distances_match_brute_force_on_crafted_grids() {
    let open = grid_from(&["     ", "     ", "     ", "     ", "     "]);
    assert_matches_brute_force(&open, Point(2, 2));
    assert_matches_brute_force(&open, Point(0, 4));
    let looped = grid_from(&["       ", " ##### ", " #   # ", " # # # ", " #   # ", " ## ## ", "       "]);
    assert_matches_brute_force(&looped, Point(0, 0));
    assert_matches_brute_force(&looped, Point(3, 2));
    let split = grid_from(&["  #  ", "  #  ", "#####", "  #  ", "  #  "]);
    assert_matches_brute_force(&split, Point(0, 0));
    assert_matches_brute_force(&split, Point(4, 4));
}

#[test]
fn search_from_a_wall_or_from_outside_reaches_nothing() {
    let grid = grid_from(&["# ", "  "]);
    for start in [Point(0, 0), Point(-1, 0), Point(0, 2), Point(5, 5)] {
        let dm = search(&grid, start);
        for r in 0..2 {
            for c in 0..2 {
                assert_eq!(dm.get(r, c), None);
            }
        }
    }
}

#[test]
fn search_gives_exact_distances() {
    let grid = grid_from(&["S #", "# #", "  G"]);
    let dm = search(&grid, Point(0, 0));
    assert_eq!(dm.get(0, 0), Some(0));
    assert_eq!(dm.get(0, 1), Some(1));
    assert_eq!(dm.get(1, 1), Some(2));
    assert_eq!(dm.get(2, 1), Some(3));
    assert_eq!(dm.get(2, 0), Some(4));
    assert_eq!(dm.get(2, 2), Some(4));
    assert_eq!(dm.get(0, 2), None);
    assert_eq!(dm.get(1, 0), None);
}

#[test]
fn single_corridor_gives_the_expected_route() {
    let grid = grid_from(&["S####", "  ###", "#  ##", "##  #", "### G"]);
    let sol = solve(&grid).ok().unwrap();
    let expected = vec![
        Point(0, 0),
        Point(1, 0),
        Point(1, 1),
        Point(2, 1),
        Point(2, 2),
        Point(3, 2),
        Point(3, 3),
        Point(4, 3),
        Point(4, 4),
    ];
    assert_eq!(sol.path.len(), 9);
    assert_eq!(sol.path, expected);
    assert_eq!(sol.distances.get(4, 4), Some(8));
    let marked: Vec<String> =
        rows_of_grid(&sol.marked).iter().map(|r| r.iter().collect()).collect();
    assert_eq!(marked, vec!["+####", "++###", "#++##", "##++#", "###++"]);
    let unmarked: Vec<String> = rows_of_grid(&grid).iter().map(|r| r.iter().collect()).collect();
    assert_eq!(unmarked, vec!["S####", "  ###", "#  ##", "##  #", "### G"]);
}

#[test]
fn walled_off_goal_is_no_path_found() {
    let grid = grid_from(&["S    ", "     ", "  ###", "  #G#", "  ###"]);
    assert!(matches!(solve(&grid), Err(MazeError::NoPathFound)));
    let dm = search(&grid, Point(0, 0));
    assert_eq!(dm.get(3, 3), None);
    assert_eq!(shortest_path(&dm, Point(3, 3)), Err(MazeError::NoPathFound));
}

#[test]
fn start_equal_to_goal_gives_one_cell() {
    let grid = grid_from(&["   ", " # ", "   "]);
    let sol = solve_between(&grid, Point(2, 1), Point(2, 1)).ok().unwrap();
    assert_eq!(sol.path, vec![Point(2, 1)]);
    assert_eq!(sol.marked.get(2, 1), Cell::Path);
    assert_eq!(sol.marked.get(2, 0), Cell::Passage);
}

#[test]
fn start_on_a_wall_is_no_path_found() {
    let grid = grid_from(&["   ", " # ", "   "]);
    assert!(matches!(solve_between(&grid, Point(1, 1), Point(1, 1)), Err(MazeError::NoPathFound)));
    assert!(matches!(solve_between(&grid, Point(0, 0), Point(1, 1)), Err(MazeError::NoPathFound)));
    assert!(matches!(solve_between(&grid, Point(0, 0), Point(3, 0)), Err(MazeError::NoPathFound)));
    assert!(matches!(solve_between(&grid, Point(0, -1), Point(0, 0)), Err(MazeError::NoPathFound)));
}

#[test]
fn ties_are_broken_up_down_left_right() {
    let grid = grid_from(&["   ", "   ", "   "]);
    let sol = solve_between(&grid, Point(0, 0), Point(2, 2)).ok().unwrap();
    assert_eq!(
        sol.path,
        vec![Point(0, 0), Point(0, 1), Point(0, 2), Point(1, 2), Point(2, 2)]
    );
    let dm = search(&grid, Point(0, 0));
    assert_eq!(find_prev(&dm, Point(1, 1), 1), Some(Point(0, 1)));
    assert_eq!(find_prev(&dm, Point(1, 1), 3), Some(Point(2, 1)));
    assert_eq!(find_prev(&dm, Point(1, 1), 0), None);
}

#[test]
fn routes_are_shortest_and_step_between_neighbours() {
    for seed in 0..20u64 {
        let mut rng = StdRng::seed_from_u64(seed);
        let n = 9usize;
        let mut grid = anahori(n, &mut rng).unwrap();
        grid.set(1, 1, Cell::Start);
        grid.set(n - 2, n - 2, Cell::Goal);
        let sol = solve(&grid).ok().unwrap();
        let d = sol.distances.get(n - 2, n - 2).unwrap();
        assert_eq!(sol.path.len(), d + 1);
        assert_eq!(sol.path[0], Point(1, 1));
        assert_eq!(sol.path[d], Point(n as i32 - 2, n as i32 - 2));
        for i in 0..d {
            let a = sol.path[i];
            let b = sol.path[i + 1];
            assert_eq!((a.0 - b.0).abs() + (a.1 - b.1).abs(), 1);
            assert_eq!(sol.distances.peek(a.0, a.1), Some(Some(i)));
        }
        for r in 0..n {
            for c in 0..n {
                let on_path = sol.path.contains(&Point(r as i32, c as i32));
                let expected = if on_path { Cell::Path } else { grid.get(r, c) };
                assert_eq!(sol.marked.get(r, c), expected);
            }
        }
    }
}

#[test]
fn solving_twice_gives_the_same_answer() {
    let mut rng = StdRng::seed_from_u64(9);
    let mut grid = anahori(13, &mut rng).unwrap();
    grid.set(1, 1, Cell::Start);
    grid.set(11, 11, Cell::Goal);
    let a = solve(&grid).ok().unwrap();
    let b = solve(&grid).ok().unwrap();
    assert_eq!(a.path, b.path);
    for r in 0..13 {
        for c in 0..13 {
            assert_eq!(a.distances.get(r, c), b.distances.get(r, c));
            assert_eq!(a.marked.get(r, c), b.marked.get(r, c));
        }
    }
}

#[test]
fn broken_distance_map_is_no_path_found() {
    let mut dm: DistanceMap = Square::filled(3, None).unwrap();
    dm.set(0, 0, Some(0));
    dm.set(2, 2, Some(4));
    assert_eq!(shortest_path(&dm, Point(2, 2)), Err(MazeError::NoPathFound));
    assert_eq!(shortest_path(&dm, Point(1, 1)), Err(MazeError::NoPathFound));
    assert_eq!(shortest_path(&dm, Point(7, 0)), Err(MazeError::NoPathFound));
    assert_eq!(shortest_path(&dm, Point(0, 0)), Ok(vec![Point(0, 0)]));
    dm.set(0, 1, Some(1));
    assert_eq!(shortest_path(&dm, Point(0, 1)), Ok(vec![Point(0, 0), Point(0, 1)]));
}

#[test]
fn markers_must_occur_once() {
    let none = grid_from(&["   ", "   ", "  G"]);
    assert!(matches!(solve(&none), Err(MazeError::MalformedGrid)));
    let two_goals = grid_from(&["S G", "   ", "  G"]);
    assert!(matches!(solve(&two_goals), Err(MazeError::MalformedGrid)));
    let two_starts = grid_from(&["S S", "   ", "  G"]);
    assert!(matches!(solve(&two_starts), Err(MazeError::MalformedGrid)));
    assert_eq!(locate(&two_goals, Cell::Start), Ok(Point(0, 0)));
    assert_eq!(locate(&two_goals, Cell::Goal), Err(MazeError::MalformedGrid));
    assert_eq!(locate(&none, Cell::Goal), Ok(Point(2, 2)));
    assert_eq!(locate(&none, Cell::Start), Err(MazeError::MalformedGrid));
}

#[test]
fn tables_that_are_not_square_are_malformed() {
    let ragged = make_vec("S  \n  \n  G\n");
    assert_eq!(grid_of_rows(&ragged).err(), Some(MazeError::MalformedGrid));
    let wide = make_vec("S  G\n    \n");
    assert_eq!(grid_of_rows(&wide).err(), Some(MazeError::MalformedGrid));
    let square = make_vec("S \n G\n");
    assert!(grid_of_rows(&square).is_ok());
}

#[test]
fn make_vec_splits_lines_and_skips_empty_ones() {
    assert_eq!(make_vec(""), Vec::<Vec<char>>::new());
    assert_eq!(make_vec("\n\n"), Vec::<Vec<char>>::new());
    assert_eq!(make_vec("ab\n\ncd"), vec![vec!['a', 'b'], vec!['c', 'd']]);
    assert_eq!(make_vec("\n# S\n"), vec![vec!['#', ' ', 'S']]);
    assert_eq!(make_vec("■□\n"), vec![vec!['■', '□']]);
}

#[test]
fn characters_and_cells_correspond() {
    assert_eq!(cell_from_char(' '), Cell::Passage);
    assert_eq!(cell_from_char('S'), Cell::Start);
    assert_eq!(cell_from_char('G'), Cell::Goal);
    assert_eq!(cell_from_char('+'), Cell::Path);
    assert_eq!(cell_from_char('#'), Cell::Wall);
    assert_eq!(cell_from_char('x'), Cell::Wall);
    for cell in [Cell::Wall, Cell::Passage, Cell::Start, Cell::Goal, Cell::Path] {
        assert_eq!(cell_from_char(char_from_cell(cell)), cell);
    }
    assert_eq!(char_from_cell(Cell::Wall), '#');
    assert_eq!(char_from_cell(Cell::Path), '+');
}

#[test]
fn square_tables_hold_what_was_set() {
    let mut sq: Square<u8> = Square::filled(3, 7).unwrap();
    assert_eq!(sq.side(), 3);
    sq.set(1, 2, 9);
    assert_eq!(sq.get(1, 2), 9);
    assert_eq!(sq.get(2, 1), 7);
    assert_eq!(sq.peek(1, 2), Some(9));
    assert_eq!(sq.peek(-1, 0), None);
    assert_eq!(sq.peek(0, 3), None);
    let copy = sq.duplicate();
    sq.set(0, 0, 1);
    assert_eq!(copy.get(0, 0), 7);
    assert_eq!(copy.get(1, 2), 9);
}

#[test]
fn neighbours_follow_the_fixed_order() {
    let p = Point(4, 6);
    assert_eq!(neighbor(p, 0), Point(3, 6));
    assert_eq!(neighbor(p, 1), Point(5, 6));
    assert_eq!(neighbor(p, 2), Point(4, 5));
    assert_eq!(neighbor(p, 3), Point(4, 7));
}

#[test]
fn loading_checks_shape_and_markers() {
    let grid = load_maze("S #\n\n  #\n# G\n").unwrap();
    assert_eq!(grid.side(), 3);
    assert_eq!(grid.get(0, 0), Cell::Start);
    assert_eq!(grid.get(0, 1), Cell::Passage);
    assert_eq!(grid.get(0, 2), Cell::Wall);
    assert_eq!(grid.get(2, 2), Cell::Goal);
    assert_eq!(load_maze("S #\n  #\n#  \n").err(), Some(MazeError::MalformedGrid));
    assert_eq!(load_maze("S G\n  G\n#  \n").err(), Some(MazeError::MalformedGrid));
    assert_eq!(load_maze("  G\n   \n#  \n").err(), Some(MazeError::MalformedGrid));
    assert_eq!(load_maze("S G\n   \n").err(), Some(MazeError::MalformedGrid));
    assert_eq!(load_maze("").err(), Some(MazeError::MalformedGrid));
}

#[test]
fn a_generated_maze_round_trips_through_text() {
    let mut rng = StdRng::seed_from_u64(5);
    let mut grid = anahori(7, &mut rng).unwrap();
    grid.set(1, 1, Cell::Start);
    grid.set(5, 5, Cell::Goal);
    let text: String = write_rows(&rows_of_grid(&grid)).into_iter().collect();
    assert_eq!(text.len(), 7 * 8);
    let loaded = load_maze(&text).unwrap();
    assert_eq!(rows_of_grid(&loaded), rows_of_grid(&grid));
    let sol = solve(&loaded).ok().unwrap();
    assert_eq!(sol.path[0], Point(1, 1));
    assert_eq!(sol.path[sol.path.len() - 1], Point(5, 5));
}

#[test]
fn carving_from_any_node_gives_a_perfect_maze() {
    for (row, col) in [(1usize, 1usize), (1, 5), (3, 3), (5, 1), (5, 5)] {
        let mut rng = StdRng::seed_from_u64(11);
        let grid = carve_from(7, row, col, &mut rng).unwrap();
        assert_perfect(&grid, 7);
    }
    let mut rng = StdRng::seed_from_u64(11);
    assert_eq!(carve_from(8, 1, 1, &mut rng).err(), Some(MazeError::InvalidDimension));
    assert_eq!(carve_from(3, 1, 1, &mut rng).err(), Some(MazeError::InvalidDimension));
}

#[test]
fn rows_are_written_one_per_line() {
    assert_eq!(write_rows(&Vec::new()), Vec::<char>::new());
    let rows = vec![vec!['S', ' '], vec!['#', 'G']];
    let text: String = write_rows(&rows).into_iter().collect();
    assert_eq!(text, "S \n#G\n");
    assert_eq!(make_vec(&text), rows);
    let ragged = vec![vec!['a'], vec![], vec!['b', 'c']];
    let text: String = write_rows(&ragged).into_iter().collect();
    assert_eq!(text, "a\n\nbc\n");
}

#[test]
fn a_marked_cell_cannot_be_stepped_on() {
    let grid = grid_from(&["S+G", "###", "###"]);
    assert_eq!(grid.get(0, 1), Cell::Path);
    let dm = search(&grid, Point(0, 0));
    assert_eq!(dm.get(0, 0), Some(0));
    assert_eq!(dm.get(0, 1), None);
    assert_eq!(dm.get(0, 2), None);
    assert!(matches!(solve(&grid), Err(MazeError::NoPathFound)));
    assert!(matches!(
        solve_between(&grid, Point(0, 0), Point(0, 2)),
        Err(MazeError::NoPathFound)
    ));
    assert!(matches!(
        solve_between(&grid, Point(0, 1), Point(0, 1)),
        Err(MazeError::NoPathFound)
    ));
    let around = grid_from(&["S+G", "   ", "###"]);
    let sol = solve(&around).ok().unwrap();
    assert_eq!(
        sol.path,
        vec![Point(0, 0), Point(1, 0), Point(1, 1), Point(1, 2), Point(0, 2)]
    );
    assert_matches_brute_force(&around, Point(0, 0));
}

#[test]
fn only_passage_start_and_goal_can_be_stepped_on() {
    assert!(is_traversable(Cell::Passage));
    assert!(is_traversable(Cell::Start));
    assert!(is_traversable(Cell::Goal));
    assert!(!is_traversable(Cell::Wall));
    assert!(!is_traversable(Cell::Path));
}

#[test]
fn only_cells_that_can_be_stepped_on_get_a_distance() {
    let grid = grid_from(&["S + ", " #+ ", "  +G", "    "]);
    let dm = search(&grid, Point(0, 0));
    for r in 0..4 {
        for c in 0..4 {
            if dm.get(r, c).is_some() {
                assert!(can_step(grid.get(r, c)));
            }
        }
    }
    assert_eq!(dm.get(2, 3), Some(7));
    assert_matches_brute_force(&grid, Point(0, 0));
}

#[test]
fn the_smallest_maze_has_seven_passages() {
    for seed in 0..10u64 {
        let mut rng = StdRng::seed_from_u64(seed);
        let grid = anahori(5, &mut rng).unwrap();
        assert_eq!(count_cells(&grid, Cell::Passage), 7);
        assert_eq!(count_cells(&grid, Cell::Wall), 18);
    }
}

#[test]
fn carving_over_an_open_cell_adds_one_passage() {
    let mut grid: Grid = Square::filled(5, Cell::Wall).unwrap();
    grid.set(1, 1, Cell::Passage);
    grid.set(1, 2, Cell::Passage);
    assert_eq!(try_carve(&mut grid, Point(1, 1), 3), Some(Point(1, 3)));
    assert_eq!(count_cells(&grid, Cell::Passage), 3);
}
