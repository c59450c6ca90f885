use vstd::prelude::*;
use crate::backtracker::generate_backtracker;
use crate::maze::{depth_first_tree, perfect_maze};
use crate::prims::generate_prims;
use crate::rng::{pick_one, thread_rng};
use crate::bfs::solve_bfs;
use crate::solve::{cells_of, is_solution, no_repeats, solve_dfs};
use crate::grid::is_grid;
use crate::maze::{in_grid, reachable};
use crate::wall::Wall;

verus! {

/// The maze generation algorithms on offer.
#[derive(Clone, Copy, Debug, PartialEq, Eq, Structural)]
pub enum Generator {
    Backtracker,
    Prims,
}

/// The maze solving algorithms on offer.
#[derive(Clone, Copy, Debug, PartialEq, Eq, Structural)]
pub enum Solver {
    Bfs,
    Dfs,
}

impl Generator {
    /// The name shown for the algorithm.
    pub fn name(&self) -> (s: &'static str)
        ensures
            s@ == (match self {
                Generator::Backtracker => "Recursive Backtracker"@,
                Generator::Prims => "Prim's"@,
            }),
    {
        match self {
            Generator::Backtracker => "Recursive Backtracker",
            Generator::Prims => "Prim's",
        }
    }

    /// Every generator, in the order the random pick draws from.
    pub fn all_generators() -> (v: Vec<Generator>)
        ensures
            v@ == seq![Generator::Backtracker, Generator::Prims],
    {
        let v = vec![Generator::Backtracker, Generator::Prims];
        assert(v@ =~= seq![Generator::Backtracker, Generator::Prims]);
        v
    }

    /// One of the generators of `all_generators`, picked at random.
    pub fn random() -> (g: Generator)
        ensures
            seq![Generator::Backtracker, Generator::Prims].contains(g),
    {
        let mut rng = thread_rng();
        let all = Generator::all_generators();
        pick_one(&all, &mut rng)
    }
}

impl Solver {
    /// The name shown for the algorithm.
    pub fn name(&self) -> (s: &'static str)
        ensures
            s@ == (match self {
                Solver::Bfs => "BFS"@,
                Solver::Dfs => "DFS"@,
            }),
    {
        match self {
            Solver::Bfs => "BFS",
            Solver::Dfs => "DFS",
        }
    }

    /// Every solver, in the order the random pick draws from.
    pub fn all_solvers() -> (v: Vec<Solver>)
        ensures
            v@ == seq![Solver::Bfs, Solver::Dfs],
    {
        let v = vec![Solver::Bfs, Solver::Dfs];
        assert(v@ =~= seq![Solver::Bfs, Solver::Dfs]);
        v
    }

    /// One of the solvers of `all_solvers`, picked at random.
    pub fn random() -> (s: Solver)
        ensures
            seq![Solver::Bfs, Solver::Dfs].contains(s),
    {
        let mut rng = thread_rng();
        let all = Solver::all_solvers();
        pick_one(&all, &mut rng)
    }
}

/// Generates a `rows` by `cols` maze with the chosen algorithm. Both give a
/// perfect maze; the recursive backtracker's is laid out depth first.
pub fn generate_maze(generator: Generator, rows: usize, cols: usize) -> (maze: Vec<Vec<Wall>>)
    requires
        rows >= 1,
        cols >= 1,
    ensures
        perfect_maze(maze@, rows as int, cols as int),
        generator == Generator::Backtracker ==> depth_first_tree(maze@, rows as int, cols as int),
{
    match generator {
        Generator::Prims => generate_prims(rows, cols),
        Generator::Backtracker => generate_backtracker(rows, cols),
    }
}

/// Every maze that `generate_maze` returns can be solved: it is a grid of
/// the requested size and an open path leads from the entrance to the exit,
/// so either solver returns a path for it.
pub proof fn lemma_generated_maze_solvable(m: Seq<Vec<Wall>>, rows: int, cols: int)
    requires
        rows >= 1,
        cols >= 1,
        perfect_maze(m, rows, cols),
    ensures
        is_grid(m, rows, cols),
        reachable(m, rows, cols, rows - 1, cols - 1),
{
    assert(in_grid(rows, cols, rows - 1, cols - 1));
}

/// Solves `maze` with the chosen algorithm: breadth-first search gives a
/// shortest path, depth-first search a path that visits no cell twice.
pub fn solve_maze(solver: Solver, maze: &[Vec<Wall>], rows: usize, cols: usize) -> (path: Option<
    Vec<(usize, usize)>,
>)
    requires
        rows >= 1,
        cols >= 1,
        is_grid(maze@, rows as int, cols as int),
    ensures
        path is Some <==> reachable(maze@, rows as int, cols as int, rows - 1, cols - 1),
        path matches Some(p) ==> is_solution(maze@, rows as int, cols as int, cells_of(p@)),
        solver == Solver::Bfs ==> (path matches Some(p) ==> forall|q: Seq<(int, int)>|
            #[trigger] is_solution(maze@, rows as int, cols as int, q) ==> p@.len() <= q.len()),
        solver == Solver::Dfs ==> (path matches Some(p) ==> no_repeats(cells_of(p@))),
{
    match solver {
        Solver::Dfs => solve_dfs(maze, rows, cols),
        Solver::Bfs => solve_bfs(maze, rows, cols),
    }
}

} // verus!
