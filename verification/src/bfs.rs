//! Breadth-first maze solver: level-synchronous frontier expansion. Each
//! `update` expands every cell that was in the frontier when the call began,
//! so all cells at graph distance `d` are enqueued before any cell at
//! distance `d + 1` is dequeued.

use std::collections::VecDeque;

use vstd::prelude::*;

use crate::maze::{
    GridPosition, Maze, MazePathEdges, adjacent, chain_to, delta_exec, edges_connect, filled_table,
    in_bounds, is_unvisited, lemma_chain_is_simple, lemma_chain_is_walk, neighbor_at, reconstruct_fuel, rows_view,
    table_wf, valid_walk, walkable,
};
use crate::solver::MazeSolverDrawable;

verus! {

/// The abstract state of a breadth-first solver. Marks: 0 never seen,
/// 1 enqueued, 2 expanded.
#[verifier::ext_equal]
pub ghost struct BfsModel {
    pub maze: Seq<Seq<u8>>,
    pub start: GridPosition,
    pub end: GridPosition,
    pub marks: Seq<Seq<u8>>,
    pub frontier: Seq<GridPosition>,
    pub edges: Seq<Seq<GridPosition>>,
    pub complete: bool,
    pub failed: bool,
    pub path: Seq<GridPosition>,
    pub expanded: Seq<GridPosition>,
}

/// Path reconstruction at the moment the goal is discovered.
pub open spec fn bfs_complete(m: BfsModel) -> BfsModel {
    match chain_to(m.edges, m.start, m.end, reconstruct_fuel(m.edges)) {
        Some(p) => BfsModel { complete: true, path: p, ..m },
        None => BfsModel { failed: true, ..m },
    }
}

/// Examination of the neighbor of `cur` in direction `i`: a walkable,
/// never-seen neighbor is marked, enqueued and given a parent edge, and
/// discovering the goal completes the search on the spot.
pub open spec fn bfs_try_neighbor(m: BfsModel, cur: GridPosition, i: int) -> BfsModel {
    let cell = neighbor_at(cur, i);
    if walkable(m.maze, cell) && m.marks[cell.x as int][cell.y as int] == 0 {
        let m1 = BfsModel {
            marks: m.marks.update(
                cell.x as int,
                m.marks[cell.x as int].update(cell.y as int, 1u8),
            ),
            frontier: m.frontier.push(cell),
            edges: m.edges.update(
                cell.x as int,
                m.edges[cell.x as int].update(cell.y as int, cur),
            ),
            ..m
        };
        if cell == m.end {
            bfs_complete(m1)
        } else {
            m1
        }
    } else {
        m
    }
}

/// The neighbors of `cur` from direction `i` on, in the fixed order, stopping
/// as soon as the step turns terminal.
pub open spec fn bfs_neighbors(m: BfsModel, cur: GridPosition, i: int) -> BfsModel
    decreases 4 - i,
{
    if i < 0 || i >= 4 || m.complete || m.failed {
        m
    } else {
        bfs_neighbors(bfs_try_neighbor(m, cur, i), cur, i + 1)
    }
}

/// Expansion of the cell at the head of the frontier.
pub open spec fn bfs_expand(m: BfsModel) -> BfsModel {
    let cur = m.frontier[0];
    let m1 = BfsModel { frontier: m.frontier.drop_first(), expanded: m.expanded.push(cur), ..m };
    let m2 = bfs_neighbors(m1, cur, 0);
    BfsModel {
        marks: m2.marks.update(cur.x as int, m2.marks[cur.x as int].update(cur.y as int, 2u8)),
        ..m2
    }
}

/// `k` single-cell expansions, stopping early on a terminal state or an
/// empty frontier.
pub open spec fn bfs_level(m: BfsModel, k: nat) -> BfsModel
    decreases k,
{
    if k == 0 || m.complete || m.failed || m.frontier.len() == 0 {
        m
    } else {
        bfs_level(bfs_expand(m), (k - 1) as nat)
    }
}

/// One full tick of the breadth-first solver: expand one whole level, the
/// cells that were in the frontier when the tick began.
pub open spec fn bfs_step(m: BfsModel) -> BfsModel {
    if m.complete || m.failed {
        m
    } else {
        bfs_level(m, m.frontier.len())
    }
}

/// Well-formedness of a breadth-first model.
pub open spec fn bfs_inv(m: BfsModel) -> bool {
    &&& table_wf(m.maze)
    &&& in_bounds(m.maze, m.start)
    &&& m.marks.len() == m.maze.len()
    &&& forall|i: int| 0 <= i < m.marks.len() ==> #[trigger] m.marks[i].len() == m.maze[0].len()
    &&& m.edges.len() == m.maze.len()
    &&& forall|i: int| 0 <= i < m.edges.len() ==> #[trigger] m.edges[i].len() == m.maze[0].len()
    &&& forall|k: int|
        0 <= k < m.frontier.len() ==> in_bounds(m.maze, #[trigger] m.frontier[k]) && (walkable(
            m.maze,
            m.frontier[k],
        ) || m.frontier[k] == m.start)
    &&& edges_connect(m.maze, m.edges, m.start)
    &&& !(m.complete && m.failed)
    &&& !m.complete ==> m.path.len() == 0
    &&& m.complete ==> chain_to(m.edges, m.start, m.end, reconstruct_fuel(m.edges)) == Some(m.path)
}

/// A completed breadth-first search's path is a walk of pairwise-adjacent
/// free cells from start to goal, provided the start cell itself is free.
pub proof fn lemma_bfs_complete_path_valid(m: BfsModel)
    requires
        bfs_inv(m),
        m.complete,
        walkable(m.maze, m.start),
    ensures
        valid_walk(m.maze, m.start, m.end, m.path),
        forall|i: int, j: int| 0 <= i < j < m.path.len() ==> m.path[i] != m.path[j],
{
    lemma_chain_is_simple(
        m.edges,
        m.start,
        m.end,
        reconstruct_fuel(m.edges),
        m.path,
    );
    lemma_chain_is_walk(
        m.maze,
        m.edges,
        m.start,
        m.start,
        m.end,
        reconstruct_fuel(m.edges),
        m.path,
    );
}

/// One direction of the shortest-path guarantee: the completed breadth-first
/// path never undercuts the true shortest length, because any lower bound
/// holding of every valid walk between the two cells bounds this path too.
/// (That its length also attains the shortest length is not proved here.)
pub proof fn lemma_bfs_path_no_shorter(m: BfsModel, n: nat)
    requires
        bfs_inv(m),
        m.complete,
        walkable(m.maze, m.start),
        forall|p: Seq<GridPosition>| valid_walk(m.maze, m.start, m.end, p) ==> p.len() >= n,
    ensures
        m.path.len() >= n,
{
    lemma_bfs_complete_path_valid(m);
}

/// Determinism: the tick transition is a pure function of the abstract
/// state, so runs over identical grid, start, goal and progress step to
/// identical states, and in particular produce identical paths.
pub proof fn lemma_bfs_step_deterministic(a: BfsModel, b: BfsModel)
    requires
        a == b,
    ensures
        bfs_step(a) == bfs_step(b),
{
}

/// Recording a newly seen walkable neighbor — mark it, enqueue it, point its
/// parent edge at the cell being expanded — preserves well-formedness.
proof fn lemma_record_preserves_inv(mi: BfsModel, cur: GridPosition, cell: GridPosition, mn: BfsModel)
    requires
        bfs_inv(mi),
        !mi.complete,
        !mi.failed,
        in_bounds(mi.maze, cur),
        walkable(mi.maze, cur) || cur == mi.start,
        walkable(mi.maze, cell),
        adjacent(cur, cell),
        mn == (BfsModel {
            marks: mi.marks.update(cell.x as int, mi.marks[cell.x as int].update(cell.y as int, 1u8)),
            frontier: mi.frontier.push(cell),
            edges: mi.edges.update(cell.x as int, mi.edges[cell.x as int].update(cell.y as int, cur)),
            ..mi
        }),
    ensures
        bfs_inv(mn),
{
    assert forall|k: int|
        0 <= k < mn.frontier.len() implies in_bounds(mn.maze, #[trigger] mn.frontier[k]) && (
    walkable(mn.maze, mn.frontier[k]) || mn.frontier[k] == mn.start) by {
        if k < mi.frontier.len() {
            assert(mn.frontier[k] == mi.frontier[k]);
        } else {
            assert(mn.frontier[k] == cell);
        }
    }
    assert forall|a: int, b: int|
        0 <= a < mn.edges.len() && 0 <= b < mn.edges[0].len() && !is_unvisited(
            #[trigger] mn.edges[a][b],
        ) implies {
        let child = GridPosition { x: a as i32, y: b as i32 };
        &&& walkable(mn.maze, child)
        &&& adjacent(mn.edges[a][b], child)
        &&& (walkable(mn.maze, mn.edges[a][b]) || mn.edges[a][b] == mn.start)
    } by {
        if a == cell.x as int && b == cell.y as int {
            assert(mn.edges[a][b] == cur);
            assert(GridPosition { x: a as i32, y: b as i32 } == cell);
        } else {
            assert(mn.edges[a][b] == mi.edges[a][b]);
        }
    }
}

pub struct MazeSolverBFS {
    maze: Maze,
    position_start: GridPosition,
    position_end: GridPosition,
    /// 0 - new block, 1 - to be visited, 2 - visited
    search_grid: Vec<Vec<u8>>,
    current_search_positions: VecDeque<GridPosition>,
    path_edges: MazePathEdges,
    complete: bool,
    failed: bool,
    complete_path: Vec<GridPosition>,
    expanded_nodes: Vec<GridPosition>,
}

impl View for MazeSolverBFS {
    type V = BfsModel;

    closed spec fn view(&self) -> BfsModel {
        BfsModel {
            maze: self.maze@,
            start: self.position_start,
            end: self.position_end,
            marks: rows_view(self.search_grid),
            frontier: self.current_search_positions@,
            edges: self.path_edges@,
            complete: self.complete,
            failed: self.failed,
            path: self.complete_path@,
            expanded: self.expanded_nodes@,
        }
    }
}

impl MazeSolverBFS {
    /// A fresh solver over `maze`: frontier seeded with the start cell,
    /// nothing expanded. When start and goal coincide, the search is already
    /// complete with the single-cell path, no expansion needed.
    pub fn new(maze: Maze, position_start: GridPosition, position_end: GridPosition) -> (s: Self)
        requires
            maze.wf(),
            in_bounds(maze@, position_start),
        ensures
            s.inv(),
            s@.maze == maze@,
            s@.start == position_start,
            s@.end == position_end,
            s@.expanded == Seq::<GridPosition>::empty(),
            s@.frontier == seq![position_start],
            forall|i: int, j: int|
                0 <= i < maze@.len() && 0 <= j < maze@[0].len() ==> #[trigger] s@.marks[i][j] == 0,
            forall|i: int, j: int|
                0 <= i < maze@.len() && 0 <= j < maze@[0].len() ==> is_unvisited(
                    #[trigger] s@.edges[i][j],
                ),
            !s@.failed,
            s@.complete <==> position_start == position_end,
            position_start == position_end ==> s@.path == seq![position_start],
            position_start != position_end ==> s@.path == Seq::<GridPosition>::empty(),
    {
        let rows = maze.grid.len();
        let cols = maze.grid[0].len();
        let search_grid = filled_table(rows, cols, 0u8);
        let mut current_search_positions: VecDeque<GridPosition> = VecDeque::new();
        current_search_positions.push_back(position_start);
        let path_edges = MazePathEdges::new_with_maze(&maze);

        let mut complete = false;
        let mut complete_path: Vec<GridPosition> = Vec::new();
        if position_start == position_end {
            complete = true;
            complete_path.push(position_start);
        }

        let s = MazeSolverBFS {
            maze,
            position_start,
            position_end,
            search_grid,
            current_search_positions,
            path_edges,
            complete,
            failed: false,
            complete_path,
            expanded_nodes: Vec::new(),
        };
        proof {
            assert(s@.frontier =~= seq![position_start]);
            assert(s@.expanded =~= Seq::<GridPosition>::empty());
            if position_start == position_end {
                assert(chain_to(s@.edges, s@.start, s@.end, reconstruct_fuel(s@.edges)) == Some(
                    seq![position_start],
                ));
                assert(s@.path =~= seq![position_start]);
            } else {
                assert(s@.path =~= Seq::<GridPosition>::empty());
            }
        }
        s
    }

    /// One level of breadth-first search: every cell currently in the
    /// frontier is expanded, unless the goal turns up first.
    fn search(&mut self)
        requires
            old(self).inv(),
            !old(self)@.complete,
            !old(self)@.failed,
        ensures
            final(self).inv(),
            final(self)@ == bfs_level(old(self)@, old(self)@.frontier.len()),
            final(self)@.maze == old(self)@.maze,
            final(self)@.start == old(self)@.start,
            final(self)@.end == old(self)@.end,
            old(self)@.expanded.is_prefix_of(final(self)@.expanded),
    {
        let num = self.current_search_positions.len();
        let ghost m0 = self@;
        let mut j: usize = 0;
        while j < num
            invariant_except_break
                self.inv(),
                j <= num,
                !self@.complete && !self@.failed,
                self@.frontier.len() >= num - j,
                self@.maze == m0.maze,
                self@.start == m0.start,
                self@.end == m0.end,
                m0.expanded.is_prefix_of(self@.expanded),
                bfs_level(m0, num as nat) == bfs_level(self@, (num - j) as nat),
            ensures
                self.inv(),
                self@ == bfs_level(m0, num as nat),
                self@.maze == m0.maze,
                self@.start == m0.start,
                self@.end == m0.end,
                m0.expanded.is_prefix_of(self@.expanded),
            decreases num - j,
        {
            let ghost mj = self@;
            let cur = self.current_search_positions.pop_front().unwrap();
            self.expanded_nodes.push(cur);
            let ghost m1 = self@;
            proof {
                assert(m1 =~~= (BfsModel {
                    frontier: mj.frontier.drop_first(),
                    expanded: mj.expanded.push(cur),
                    ..mj
                }));
                assert(cur == mj.frontier[0]);
                assert(in_bounds(mj.maze, cur) && (walkable(mj.maze, cur) || cur == mj.start));
            }

            let ghost ma = self@;
            let mut i: usize = 0;
            while i < 4
                invariant_except_break
                    self.inv(),
                    i <= 4,
                    !self@.complete && !self@.failed,
                    in_bounds(self@.maze, cur),
                    walkable(self@.maze, cur) || cur == self@.start,
                    self@.maze == ma.maze,
                    self@.start == ma.start,
                    self@.end == ma.end,
                    self@.expanded == ma.expanded,
                    self@.frontier.len() >= ma.frontier.len(),
                    bfs_neighbors(ma, cur, 0) == bfs_neighbors(self@, cur, i as int),
                ensures
                    self.inv(),
                    self@ == bfs_neighbors(ma, cur, 0),
                    self@.maze == ma.maze,
                    self@.start == ma.start,
                    self@.end == ma.end,
                    self@.expanded == ma.expanded,
                    self@.frontier.len() >= ma.frontier.len(),
                decreases 4 - i,
            {
                let ghost mi = self@;
                let d = delta_exec(i);
                let cell = cur.add(&d);
                proof {
                    assert(cell == neighbor_at(cur, i as int));
                }
                if self.maze.is_cell_valid(&cell) {
                    assert(self@.marks[cell.x as int].len() == self@.maze[0].len());
                    if self.search_grid[cell.x as usize][cell.y as usize] == 0 {
                        self.search_grid[cell.x as usize][cell.y as usize] = 1;
                        self.current_search_positions.push_back(cell);
                        self.path_edges.add_edge(&cur, &cell);
                        let ghost mn = self@;
                        proof {
                            assert(mn =~~= (BfsModel {
                                marks: mi.marks.update(
                                    cell.x as int,
                                    mi.marks[cell.x as int].update(cell.y as int, 1u8),
                                ),
                                frontier: mi.frontier.push(cell),
                                edges: mi.edges.update(
                                    cell.x as int,
                                    mi.edges[cell.x as int].update(cell.y as int, cur),
                                ),
                                ..mi
                            }));
                            assert(adjacent(cur, cell));
                            lemma_record_preserves_inv(mi, cur, cell, mn);
                        }
                        if cell.x == self.position_end.x && cell.y == self.position_end.y {
                            assert(cell == mi.end);
                            match self.path_edges.build_path(
                                &self.position_start,
                                &self.position_end,
                            ) {
                                Ok(p) => {
                                    self.complete = true;
                                    self.complete_path = p;
                                },
                                Err(_) => {
                                    self.failed = true;
                                },
                            }
                            proof {
                                assert(self@ =~~= bfs_complete(mn));
                                assert(self@ == bfs_try_neighbor(mi, cur, i as int));
                            }
                        } else {
                            proof {
                                assert(self@ == bfs_try_neighbor(mi, cur, i as int));
                            }
                        }
                    } else {
                        proof {
                            assert(self@ == bfs_try_neighbor(mi, cur, i as int));
                        }
                    }
                } else {
                    proof {
                        assert(self@ == bfs_try_neighbor(mi, cur, i as int));
                    }
                }
                proof {
                    assert(bfs_neighbors(mi, cur, i as int) == bfs_neighbors(
                        self@,
                        cur,
                        i as int + 1,
                    ));
                }
                if self.complete || self.failed {
                    proof {
                        assert(bfs_neighbors(self@, cur, i as int + 1) == self@);
                        assert(self@ == bfs_neighbors(ma, cur, 0));
                    }
                    break ;
                }
                i = i + 1;
            }

            let ghost m2 = self@;
            assert(self@.marks[cur.x as int].len() == self@.maze[0].len());
            self.search_grid[cur.x as usize][cur.y as usize] = 2;
            let ghost m3 = self@;
            proof {
                assert(m3 =~~= (BfsModel {
                    marks: m2.marks.update(
                        cur.x as int,
                        m2.marks[cur.x as int].update(cur.y as int, 2u8),
                    ),
                    ..m2
                }));
                assert(m3 == bfs_expand(mj));
                assert(bfs_level(mj, (num - j) as nat) == bfs_level(m3, (num - j - 1) as nat));
            }
            if self.complete || self.failed {
                proof {
                    assert(bfs_level(m3, (num - j - 1) as nat) == m3);
                    assert(self@ == bfs_level(m0, num as nat));
                }
                break ;
            }
            j = j + 1;
        }
    }
}

impl MazeSolverDrawable for MazeSolverBFS {
    open spec fn inv(&self) -> bool {
        bfs_inv(self@)
    }

    open spec fn start_spec(&self) -> GridPosition {
        self@.start
    }

    open spec fn end_spec(&self) -> GridPosition {
        self@.end
    }

    open spec fn complete_spec(&self) -> bool {
        self@.complete
    }

    open spec fn failed_spec(&self) -> bool {
        self@.failed
    }

    open spec fn frontier_size(&self) -> nat {
        self@.frontier.len()
    }

    open spec fn path_spec(&self) -> Seq<GridPosition> {
        self@.path
    }

    open spec fn expanded_spec(&self) -> Seq<GridPosition> {
        self@.expanded
    }

    fn update(&mut self)
        ensures
            final(self)@ == bfs_step(old(self)@),
    {
        if !self.complete && !self.failed {
            self.search();
        }
    }

    fn expanded_nodes(&self) -> (r: &Vec<GridPosition>) {
        &self.expanded_nodes
    }

    fn start(&self) -> (r: &GridPosition) {
        &self.position_start
    }

    fn end(&self) -> (r: &GridPosition) {
        &self.position_end
    }

    fn is_complete(&self) -> (r: bool) {
        self.complete
    }

    fn is_exhausted(&self) -> (r: bool) {
        self.current_search_positions.len() == 0 && !self.complete && !self.failed
    }

    fn is_failed(&self) -> (r: bool) {
        self.failed
    }

    fn path(&self) -> (r: &Vec<GridPosition>) {
        &self.complete_path
    }
}

} // verus!
