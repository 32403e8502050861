use maze_solver::maze::{ConstructionError, GridPosition, Maze, MazePathEdges, PathNotFound};
use maze_solver::maze::manhattan_exec;

fn free_maze(rows: usize, cols: usize) -> Maze {
    Maze { grid: vec![vec![0u8; cols]; rows] }
}

#[test]
fn grid_position_new_and_add() {
    let p = GridPosition::new(3, -2);
    assert_eq!(p.x, 3);
    assert_eq!(p.y, -2);
    let q = p.add(&GridPosition::new(-1, 5));
    assert_eq!(q, GridPosition::new(2, 3));
}

#[test]
fn parse_two_by_two() {
    let m = Maze::new_from_string("[0, 1],\n[1, 0],").unwrap();
    assert_eq!(m.grid, vec![vec![0u8, 1u8], vec![1u8, 0u8]]);
}

#[test]
fn parse_tolerates_blank_lines_and_crlf() {
    let m = Maze::new_from_string("\n[0,0,1],\r\n\r\n  [ 1 , 0 , 0 ]  \n\n").unwrap();
    assert_eq!(m.grid, vec![vec![0u8, 0u8, 1u8], vec![1u8, 0u8, 0u8]]);
}

#[test]
fn parse_last_row_without_trailing_comma() {
    let m = Maze::new_from_string("[0],\n[1]").unwrap();
    assert_eq!(m.grid, vec![vec![0u8], vec![1u8]]);
}

#[test]
fn parse_rejects_empty_input() {
    assert!(matches!(Maze::new_from_string(""), Err(ConstructionError)));
    assert!(matches!(Maze::new_from_string("   \n  \n"), Err(ConstructionError)));
}

#[test]
fn parse_rejects_empty_row() {
    assert!(matches!(Maze::new_from_string("[],"), Err(ConstructionError)));
}

#[test]
fn parse_rejects_ragged_rows() {
    assert!(matches!(Maze::new_from_string("[0,1],\n[0],"), Err(ConstructionError)));
}

#[test]
fn parse_rejects_other_digits() {
    assert!(matches!(Maze::new_from_string("[2],"), Err(ConstructionError)));
    assert!(matches!(Maze::new_from_string("[01],"), Err(ConstructionError)));
}

#[test]
fn parse_rejects_unclosed_row() {
    assert!(matches!(Maze::new_from_string("[0,1"), Err(ConstructionError)));
    assert!(matches!(Maze::new_from_string("0,1],"), Err(ConstructionError)));
    assert!(matches!(Maze::new_from_string("[0,,1],"), Err(ConstructionError)));
}

#[test]
fn cell_validity() {
    let m = Maze::new_from_string("[0,1],\n[0,0],").unwrap();
    assert!(m.is_cell_valid(&GridPosition::new(0, 0)));
    assert!(!m.is_cell_valid(&GridPosition::new(0, 1)), "wall");
    assert!(m.is_cell_valid(&GridPosition::new(1, 1)));
    assert!(!m.is_cell_valid(&GridPosition::new(-1, 0)), "out of bounds");
    assert!(!m.is_cell_valid(&GridPosition::new(0, -1)), "out of bounds");
    assert!(!m.is_cell_valid(&GridPosition::new(2, 0)), "out of bounds");
    assert!(!m.is_cell_valid(&GridPosition::new(0, 2)), "out of bounds");
}

#[test]
fn build_path_follows_recorded_edges() {
    let m = free_maze(2, 3);
    let mut e = MazePathEdges::new_with_maze(&m);
    let a = GridPosition::new(0, 0);
    let b = GridPosition::new(0, 1);
    let c = GridPosition::new(0, 2);
    e.add_edge(&a, &b);
    e.add_edge(&b, &c);
    let p = e.build_path(&a, &c).unwrap();
    assert_eq!(p, vec![a, b, c]);
    assert!(p.len() <= 2 * 3, "visits at most rows * cols cells");
}

#[test]
fn build_path_single_cell_when_start_is_end() {
    let m = free_maze(2, 2);
    let e = MazePathEdges::new_with_maze(&m);
    let a = GridPosition::new(1, 1);
    assert_eq!(e.build_path(&a, &a).unwrap(), vec![a]);
}

#[test]
fn build_path_fails_on_absent_chain() {
    let m = free_maze(2, 2);
    let e = MazePathEdges::new_with_maze(&m);
    let a = GridPosition::new(0, 0);
    let b = GridPosition::new(1, 1);
    assert_eq!(e.build_path(&a, &b), Err(PathNotFound));
}

#[test]
fn build_path_fails_on_broken_chain() {
    let m = free_maze(2, 2);
    let mut e = MazePathEdges::new_with_maze(&m);
    let a = GridPosition::new(0, 0);
    let b = GridPosition::new(0, 1);
    let c = GridPosition::new(1, 1);
    // b -> c recorded, but nothing links b back to a.
    e.add_edge(&b, &c);
    assert_eq!(e.build_path(&a, &c), Err(PathNotFound));
}

#[test]
fn build_path_terminates_on_cyclic_parent_data() {
    let m = free_maze(2, 2);
    let mut e = MazePathEdges::new_with_maze(&m);
    let a = GridPosition::new(0, 0);
    let b = GridPosition::new(0, 1);
    let c = GridPosition::new(1, 1);
    // A parent cycle between b and c: the walk must stop and report failure
    // rather than loop forever.
    e.add_edge(&b, &c);
    e.add_edge(&c, &b);
    assert_eq!(e.build_path(&a, &c), Err(PathNotFound));
}

#[test]
fn manhattan_distance_exact_values() {
    let a = GridPosition::new(0, 0);
    let b = GridPosition::new(2, 2);
    assert_eq!(manhattan_exec(&a, &b), 4);
    assert_eq!(manhattan_exec(&b, &a), 4);
    assert_eq!(manhattan_exec(&a, &a), 0);
    assert_eq!(manhattan_exec(&GridPosition::new(-3, 5), &GridPosition::new(4, -1)), 13);
}
