use maze_solver::astar::MazeSolverAStar;
use maze_solver::bfs::MazeSolverBFS;
use maze_solver::dfs::MazeSolverDFS;
use maze_solver::maze::{GridPosition, Maze};
use maze_solver::solver::MazeSolverDrawable;

fn free_maze(rows: usize, cols: usize) -> Maze {
    Maze { grid: vec![vec![0u8; cols]; rows] }
}

/// Drives a solver until it either completes or exhausts its frontier.
fn run_to_end<S: MazeSolverDrawable>(s: &mut S) {
    for _ in 0..100_000 {
        if s.is_complete() || s.is_exhausted() || s.is_failed() {
            return;
        }
        s.update();
    }
    panic!("solver made no progress");
}

fn assert_is_walk(m: &Maze, start: GridPosition, end: GridPosition, p: &[GridPosition]) {
    assert!(p.len() >= 1);
    assert_eq!(p[0], start);
    assert_eq!(p[p.len() - 1], end);
    for w in p.windows(2) {
        let dx = (w[0].x - w[1].x).abs();
        let dy = (w[0].y - w[1].y).abs();
        assert_eq!(dx + dy, 1, "consecutive cells must be adjacent");
    }
    for c in p {
        assert!(m.is_cell_valid(c), "every path cell must be free");
    }
}

/// A 5x5 maze whose single route from (0,0) to (4,4) snakes down column 0,
/// up column 2 and down column 4: 17 cells.
fn walled_maze() -> Maze {
    Maze::new_from_string(
        "[0,1,0,0,0],\n\
         [0,1,0,1,0],\n\
         [0,1,0,1,0],\n\
         [0,1,0,1,0],\n\
         [0,0,0,1,0],",
    )
    .unwrap()
}

#[test]
fn bfs_scenario_three_by_three() {
    let m = free_maze(3, 3);
    let mut s = MazeSolverBFS::new(m.clone(), GridPosition::new(0, 0), GridPosition::new(2, 2));
    run_to_end(&mut s);
    assert!(s.is_complete());
    assert_eq!(s.path().len(), 5, "Manhattan distance 4 edges, 5 cells");
    assert_is_walk(&m, GridPosition::new(0, 0), GridPosition::new(2, 2), s.path());
}

#[test]
fn astar_scenario_three_by_three() {
    let m = free_maze(3, 3);
    let mut s = MazeSolverAStar::new(m.clone(), GridPosition::new(0, 0), GridPosition::new(2, 2));
    run_to_end(&mut s);
    assert!(s.is_complete());
    assert_eq!(s.path().len(), 5, "Manhattan distance 4 edges, 5 cells");
    assert_is_walk(&m, GridPosition::new(0, 0), GridPosition::new(2, 2), s.path());
}

#[test]
fn dfs_scenario_three_by_three() {
    let m = free_maze(3, 3);
    let mut s = MazeSolverDFS::new(m.clone(), GridPosition::new(0, 0), GridPosition::new(2, 2));
    run_to_end(&mut s);
    assert!(s.is_complete());
    assert!(s.path().len() >= 5, "never shorter than the true shortest path");
    assert_is_walk(&m, GridPosition::new(0, 0), GridPosition::new(2, 2), s.path());
}

#[test]
fn bfs_finds_shortest_path_in_walled_maze() {
    let m = walled_maze();
    let start = GridPosition::new(0, 0);
    let end = GridPosition::new(4, 4);
    let mut s = MazeSolverBFS::new(m.clone(), start, end);
    run_to_end(&mut s);
    assert!(s.is_complete());
    assert_eq!(s.path().len(), 17);
    assert_is_walk(&m, start, end, s.path());
}

#[test]
fn astar_path_length_equals_bfs_path_length() {
    for (maze, start, end) in [
        (free_maze(3, 3), GridPosition::new(0, 0), GridPosition::new(2, 2)),
        (free_maze(4, 7), GridPosition::new(3, 1), GridPosition::new(0, 6)),
        (walled_maze(), GridPosition::new(0, 0), GridPosition::new(4, 4)),
    ] {
        let mut b = MazeSolverBFS::new(maze.clone(), start, end);
        let mut a = MazeSolverAStar::new(maze.clone(), start, end);
        run_to_end(&mut b);
        run_to_end(&mut a);
        assert!(b.is_complete() && a.is_complete());
        assert_eq!(a.path().len(), b.path().len());
    }
}

#[test]
fn dfs_path_is_valid_and_no_shorter_than_bfs() {
    let m = walled_maze();
    let start = GridPosition::new(0, 0);
    let end = GridPosition::new(4, 4);
    let mut b = MazeSolverBFS::new(m.clone(), start, end);
    let mut d = MazeSolverDFS::new(m.clone(), start, end);
    run_to_end(&mut b);
    run_to_end(&mut d);
    assert!(b.is_complete() && d.is_complete());
    assert_is_walk(&m, start, end, d.path());
    assert!(d.path().len() >= b.path().len());
}

#[test]
fn repeated_runs_give_identical_paths() {
    let m = walled_maze();
    let start = GridPosition::new(0, 0);
    let end = GridPosition::new(4, 4);

    let mut b1 = MazeSolverBFS::new(m.clone(), start, end);
    let mut b2 = MazeSolverBFS::new(m.clone(), start, end);
    run_to_end(&mut b1);
    run_to_end(&mut b2);
    assert_eq!(b1.path(), b2.path());
    assert_eq!(b1.expanded_nodes(), b2.expanded_nodes());

    let mut a1 = MazeSolverAStar::new(m.clone(), start, end);
    let mut a2 = MazeSolverAStar::new(m.clone(), start, end);
    run_to_end(&mut a1);
    run_to_end(&mut a2);
    assert_eq!(a1.path(), a2.path());
    assert_eq!(a1.expanded_nodes(), a2.expanded_nodes());

    let mut d1 = MazeSolverDFS::new(m.clone(), start, end);
    let mut d2 = MazeSolverDFS::new(m.clone(), start, end);
    run_to_end(&mut d1);
    run_to_end(&mut d2);
    assert_eq!(d1.path(), d2.path());
    assert_eq!(d1.expanded_nodes(), d2.expanded_nodes());
}

#[test]
fn start_equals_goal_completes_without_expansion() {
    let m = free_maze(3, 3);
    let c = GridPosition::new(1, 1);

    let b = MazeSolverBFS::new(m.clone(), c, c);
    assert!(b.is_complete());
    assert_eq!(b.path(), &vec![c], "single-cell path of length 1");
    assert_eq!(b.expanded_nodes().len(), 0, "zero expansions needed");

    let d = MazeSolverDFS::new(m.clone(), c, c);
    assert!(d.is_complete());
    assert_eq!(d.path(), &vec![c]);
    assert_eq!(d.expanded_nodes().len(), 0);

    let a = MazeSolverAStar::new(m.clone(), c, c);
    assert!(a.is_complete());
    assert_eq!(a.path(), &vec![c]);
    assert_eq!(a.expanded_nodes().len(), 0);

    // A further tick must leave the completed state untouched.
    let mut b2 = b;
    b2.update();
    assert!(b2.is_complete());
    assert_eq!(b2.path(), &vec![c]);
}

#[test]
fn enclosed_goal_exhausts_all_three_solvers() {
    // The goal at (2,2) is fully enclosed by walls.
    let m = Maze::new_from_string(
        "[0,0,0,0],\n\
         [0,1,1,1],\n\
         [0,1,0,1],\n\
         [0,1,1,1],",
    )
    .unwrap();
    let start = GridPosition::new(0, 0);
    let end = GridPosition::new(2, 2);

    let mut b = MazeSolverBFS::new(m.clone(), start, end);
    run_to_end(&mut b);
    assert!(b.is_exhausted() && !b.is_complete());
    assert_eq!(b.path().len(), 0);

    let mut d = MazeSolverDFS::new(m.clone(), start, end);
    run_to_end(&mut d);
    assert!(d.is_exhausted() && !d.is_complete());
    assert_eq!(d.path().len(), 0);

    let mut a = MazeSolverAStar::new(m.clone(), start, end);
    run_to_end(&mut a);
    assert!(a.is_exhausted() && !a.is_complete());
    assert_eq!(a.path().len(), 0);

    // Further ticks on an exhausted solver stay quiet.
    b.update();
    assert!(b.is_exhausted() && b.path().is_empty());
}

#[test]
fn observables_report_start_and_goal() {
    let m = free_maze(2, 2);
    let start = GridPosition::new(0, 0);
    let end = GridPosition::new(1, 1);
    let s = MazeSolverBFS::new(m, start, end);
    assert_eq!(*s.start(), start);
    assert_eq!(*s.end(), end);
    assert!(!s.is_failed());
}

#[test]
fn expansion_order_is_fixed() {
    // From the center of a free 3x3 grid, breadth-first examines neighbors
    // up, right, down, left; with the goal far away the first level expands
    // only the start and enqueues in exactly that order.
    let m = free_maze(3, 3);
    let start = GridPosition::new(1, 1);
    let end = GridPosition::new(2, 2);
    let mut s = MazeSolverBFS::new(m, start, end);
    s.update();
    assert_eq!(s.expanded_nodes(), &vec![start]);
    s.update();
    assert_eq!(
        &s.expanded_nodes()[1..3],
        &[GridPosition::new(0, 1), GridPosition::new(1, 2)],
        "first level dequeues in up, right order"
    );
}
