use mandel_maze::algorithms::{generate_maze, solve_maze, Generator, Solver};
use mandel_maze::backtracker::{carve, generate_backtracker, open_neighbours};
use mandel_maze::geometry::wall_segments;
use mandel_maze::prims::generate_prims;
use mandel_maze::bfs::solve_bfs;
use mandel_maze::solve::solve_dfs;
use mandel_maze::wall::Wall;
use std::collections::VecDeque;

fn closed() -> Wall {
    Wall::all()
}

/// Counts the cells reachable from the top-left one through open walls and
/// the open passages between neighbours.
fn reach_and_passages(maze: &[Vec<Wall>], rows: usize, cols: usize) -> (usize, usize) {
    let mut seen = vec![vec![false; cols]; rows];
    let mut queue = VecDeque::new();
    seen[0][0] = true;
    queue.push_back((0usize, 0usize));
    let mut count = 0;
    while let Some((y, x)) = queue.pop_front() {
        count += 1;
        let w = maze[y][x];
        let mut next = Vec::new();
        if y > 0 && !w.north {
            next.push((y - 1, x));
        }
        if y + 1 < rows && !w.south {
            next.push((y + 1, x));
        }
        if x > 0 && !w.west {
            next.push((y, x - 1));
        }
        if x + 1 < cols && !w.east {
            next.push((y, x + 1));
        }
        for (ny, nx) in next {
            if !seen[ny][nx] {
                seen[ny][nx] = true;
                queue.push_back((ny, nx));
            }
        }
    }
    let mut passages = 0;
    for y in 0..rows {
        for x in 0..cols {
            if x + 1 < cols && !maze[y][x].east {
                passages += 1;
            }
            if y + 1 < rows && !maze[y][x].south {
                passages += 1;
            }
        }
    }
    (count, passages)
}

fn check_perfect(maze: &[Vec<Wall>], rows: usize, cols: usize) {
    assert_eq!(maze.len(), rows);
    for y in 0..rows {
        assert_eq!(maze[y].len(), cols);
        for x in 0..cols {
            let w = maze[y][x];
            if x + 1 < cols {
                assert_eq!(w.east, maze[y][x + 1].west);
            }
            if y + 1 < rows {
                assert_eq!(w.south, maze[y + 1][x].north);
            }
            if y == 0 {
                assert!(w.north);
            }
            if y == rows - 1 {
                assert!(w.south);
            }
            if x == 0 {
                assert_eq!(w.west, y != 0);
            }
            if x == cols - 1 {
                assert_eq!(w.east, y != rows - 1);
            }
        }
    }
    let (reached, passages) = reach_and_passages(maze, rows, cols);
    assert_eq!(reached, rows * cols);
    assert_eq!(passages, rows * cols - 1);
}

#[test]
fn backtracker_makes_perfect_mazes() {
    for &(rows, cols) in &[(1, 1), (1, 5), (4, 1), (3, 3), (21, 31)] {
        for _ in 0..5 {
            let maze = generate_backtracker(rows, cols);
            check_perfect(&maze, rows, cols);
        }
    }
}

/// In the tree of passages of a perfect maze, checks that of any two cells
/// sharing a side one lies on the path from the entrance to the other.
fn check_depth_first(maze: &[Vec<Wall>], rows: usize, cols: usize) {
    let mut parent = vec![vec![None; cols]; rows];
    let mut seen = vec![vec![false; cols]; rows];
    let mut queue = VecDeque::new();
    seen[0][0] = true;
    queue.push_back((0usize, 0usize));
    while let Some((y, x)) = queue.pop_front() {
        let w = maze[y][x];
        let mut next = Vec::new();
        if y > 0 && !w.north {
            next.push((y - 1, x));
        }
        if y + 1 < rows && !w.south {
            next.push((y + 1, x));
        }
        if x > 0 && !w.west {
            next.push((y, x - 1));
        }
        if x + 1 < cols && !w.east {
            next.push((y, x + 1));
        }
        for (ny, nx) in next {
            if !seen[ny][nx] {
                seen[ny][nx] = true;
                parent[ny][nx] = Some((y, x));
                queue.push_back((ny, nx));
            }
        }
    }
    let ancestor = |a: (usize, usize), b: (usize, usize)| {
        let mut cur = Some(b);
        while let Some(c) = cur {
            if c == a {
                return true;
            }
            cur = parent[c.0][c.1];
        }
        false
    };
    for y in 0..rows {
        for x in 0..cols {
            if x + 1 < cols {
                assert!(ancestor((y, x), (y, x + 1)) || ancestor((y, x + 1), (y, x)));
            }
            if y + 1 < rows {
                assert!(ancestor((y, x), (y + 1, x)) || ancestor((y + 1, x), (y, x)));
            }
        }
    }
}

#[test]
fn backtracker_mazes_are_laid_out_depth_first() {
    for &(rows, cols) in &[(1, 1), (1, 5), (4, 1), (3, 3), (21, 31)] {
        for _ in 0..5 {
            let maze = generate_backtracker(rows, cols);
            check_depth_first(&maze, rows, cols);
            let maze = generate_maze(Generator::Backtracker, rows, cols);
            check_depth_first(&maze, rows, cols);
        }
    }
}

#[test]
fn backtracker_single_cell_has_both_doors() {
    let maze = generate_backtracker(1, 1);
    assert_eq!(maze[0][0], Wall { north: true, east: false, south: true, west: false });
}

#[test]
fn open_neighbours_lists_unvisited_in_order() {
    let mut visited = vec![vec![false; 3]; 3];
    visited[0][1] = true;
    let dirs = open_neighbours(&visited, 3, 3, 1, 1);
    assert_eq!(
        dirs,
        vec![
            (1, 0, Wall::west(), Wall::east()),
            (2, 1, Wall::south(), Wall::north()),
            (1, 2, Wall::east(), Wall::west()),
        ]
    );
    let corner = open_neighbours(&visited, 3, 3, 0, 0);
    assert_eq!(corner, vec![(1, 0, Wall::south(), Wall::north())]);
    visited[1][0] = true;
    assert!(open_neighbours(&visited, 3, 3, 0, 0).is_empty());
}

#[test]
fn carve_knocks_down_both_walls() {
    let mut maze = vec![vec![closed(); 2]; 2];
    let mut visited = vec![vec![false; 2]; 2];
    visited[0][0] = true;
    let mut stack = vec![(0usize, 0usize)];
    carve(&mut maze, &mut visited, &mut stack, 0, 0, (0, 1, Wall::east(), Wall::west()));
    assert_eq!(maze[0][0], Wall { north: true, east: false, south: true, west: true });
    assert_eq!(maze[0][1], Wall { north: true, east: true, south: true, west: false });
    assert_eq!(maze[1][0], closed());
    assert_eq!(visited, vec![vec![true, true], vec![false, false]]);
    assert_eq!(stack, vec![(0, 0), (0, 1)]);
}

#[test]
fn prims_makes_perfect_mazes() {
    for &(rows, cols) in &[(1, 1), (1, 5), (4, 1), (2, 3), (3, 3), (21, 31)] {
        for _ in 0..5 {
            let maze = generate_prims(rows, cols);
            check_perfect(&maze, rows, cols);
        }
    }
}

#[test]
fn prims_single_cell_has_both_doors() {
    let maze = generate_prims(1, 1);
    assert_eq!(maze[0][0], Wall { north: true, east: false, south: true, west: false });
}

/// Checks that `path` runs from the entrance to the exit of `maze` through
/// open walls between neighbouring cells.
fn check_solution(maze: &[Vec<Wall>], rows: usize, cols: usize, path: &[(usize, usize)]) {
    assert!(!path.is_empty());
    assert_eq!(path[0], (0, 0));
    assert_eq!(*path.last().unwrap(), (rows - 1, cols - 1));
    for t in 0..path.len() - 1 {
        let (y, x) = path[t];
        let (ny, nx) = path[t + 1];
        let w = maze[y][x];
        let ok = (ny + 1 == y && nx == x && !w.north)
            || (ny == y + 1 && nx == x && !w.south)
            || (ny == y && nx + 1 == x && !w.west)
            || (ny == y && nx == x + 1 && !w.east);
        assert!(ok, "step {:?} -> {:?} crosses a wall", (y, x), (ny, nx));
    }
}

/// The number of cells on a shortest open path from the entrance to every cell.
fn shortest_lengths(maze: &[Vec<Wall>], rows: usize, cols: usize) -> Vec<Vec<usize>> {
    let mut len = vec![vec![0usize; cols]; rows];
    let mut queue = VecDeque::new();
    len[0][0] = 1;
    queue.push_back((0usize, 0usize));
    while let Some((y, x)) = queue.pop_front() {
        let w = maze[y][x];
        let mut next = Vec::new();
        if y > 0 && !w.north {
            next.push((y - 1, x));
        }
        if y + 1 < rows && !w.south {
            next.push((y + 1, x));
        }
        if x > 0 && !w.west {
            next.push((y, x - 1));
        }
        if x + 1 < cols && !w.east {
            next.push((y, x + 1));
        }
        for (ny, nx) in next {
            if len[ny][nx] == 0 {
                len[ny][nx] = len[y][x] + 1;
                queue.push_back((ny, nx));
            }
        }
    }
    len
}

#[test]
fn solvers_find_paths_in_perfect_mazes() {
    for &(rows, cols) in &[(1, 1), (1, 6), (5, 1), (3, 4), (15, 20)] {
        for generator in [Generator::Backtracker, Generator::Prims] {
            let maze = generate_maze(generator, rows, cols);
            let shortest = shortest_lengths(&maze, rows, cols)[rows - 1][cols - 1];
            let bfs = solve_bfs(&maze, rows, cols).expect("a perfect maze has a way out");
            check_solution(&maze, rows, cols, &bfs);
            assert_eq!(bfs.len(), shortest);
            let dfs = solve_dfs(&maze, rows, cols).expect("a perfect maze has a way out");
            check_solution(&maze, rows, cols, &dfs);
            let mut seen = dfs.clone();
            seen.sort();
            seen.dedup();
            assert_eq!(seen.len(), dfs.len());
            assert_eq!(solve_maze(Solver::Bfs, &maze, rows, cols), Some(bfs));
            assert_eq!(solve_maze(Solver::Dfs, &maze, rows, cols), Some(dfs));
        }
    }
}

#[test]
fn single_cell_path_is_the_cell() {
    let maze = generate_backtracker(1, 1);
    assert_eq!(solve_bfs(&maze, 1, 1), Some(vec![(0, 0)]));
    assert_eq!(solve_dfs(&maze, 1, 1), Some(vec![(0, 0)]));
}

#[test]
fn bfs_takes_the_short_way_round() {
    // A 2 by 3 grid with no inner walls: the shortest way has 4 cells.
    let open = vec![vec![Wall::empty(); 3]; 2];
    let path = solve_bfs(&open, 2, 3).unwrap();
    assert_eq!(path.len(), 4);
    check_solution(&open, 2, 3, &path);
    let dfs = solve_dfs(&open, 2, 3).unwrap();
    check_solution(&open, 2, 3, &dfs);
}

#[test]
fn solvers_report_no_path_when_the_exit_is_walled_off() {
    let walled = vec![vec![closed(); 4]; 3];
    assert_eq!(solve_bfs(&walled, 3, 4), None);
    assert_eq!(solve_dfs(&walled, 3, 4), None);
    assert_eq!(solve_maze(Solver::Bfs, &walled, 3, 4), None);
    assert_eq!(solve_maze(Solver::Dfs, &walled, 3, 4), None);
    // Open everything but the walls round the exit.
    let mut maze = vec![vec![Wall::empty(); 3]; 3];
    maze[2][2] = closed();
    maze[1][2].south = true;
    maze[2][1].east = true;
    assert_eq!(solve_bfs(&maze, 3, 3), None);
    assert_eq!(solve_dfs(&maze, 3, 3), None);
}

#[test]
fn dispatch_by_generator() {
    let maze = generate_maze(Generator::Backtracker, 5, 7);
    check_perfect(&maze, 5, 7);
    let maze = generate_maze(Generator::Prims, 4, 6);
    check_perfect(&maze, 4, 6);
    assert_eq!(Generator::Prims.name(), "Prim's");
    assert_eq!(Generator::Backtracker.name(), "Recursive Backtracker");
    assert_eq!(Solver::Bfs.name(), "BFS");
    assert_eq!(Solver::Dfs.name(), "DFS");
    assert_eq!(Generator::all_generators(), vec![Generator::Backtracker, Generator::Prims]);
    assert_eq!(Solver::all_solvers(), vec![Solver::Bfs, Solver::Dfs]);
    let g = Generator::random();
    assert!(g == Generator::Prims || g == Generator::Backtracker);
    let s = Solver::random();
    assert!(s == Solver::Bfs || s == Solver::Dfs);
}

#[test]
fn wall_operations() {
    let w = Wall::all();
    assert!(w.contains(Wall::north()));
    let w2 = w.without(Wall::north());
    assert!(!w2.contains(Wall::north()));
    assert!(w2.contains(Wall::east()));
    assert_eq!(w.bits(), 15);
    assert_eq!(w2.bits(), 14);
    assert_eq!(Wall::west().bits(), 8);
    assert_eq!(Wall::empty().bits(), 0);
    assert!(Wall::empty().contains(Wall::empty()));
}

#[test]
fn segments_of_single_cell() {
    let maze = vec![vec![Wall::all()]];
    let segs = wall_segments(&maze, 1, 1);
    assert_eq!(
        segs,
        vec![((0, 1), (1, 1)), ((0, 0), (1, 0)), ((0, 1), (0, 0)), ((1, 1), (1, 0))]
    );
}

#[test]
fn segments_in_row_major_order() {
    let maze = vec![
        vec![Wall::north(), Wall::east()],
        vec![Wall::empty(), Wall { north: false, east: false, south: true, west: true }],
    ];
    let segs = wall_segments(&maze, 2, 2);
    assert_eq!(
        segs,
        vec![((0, 1), (1, 1)), ((2, 1), (2, 0)), ((1, 1), (2, 1)), ((1, 2), (1, 1))]
    );
}
