//! Depth-first maze solver: stack-based frontier with lazy revisit pruning.
//! Each `update` performs a small fixed number of single-node expansions so
//! the driver's render loop stays responsive. The discovered path reflects
//! exploration order and carries no shortest-path guarantee.

use vstd::prelude::*;

use crate::maze::{
    GridPosition, Maze, MazePathEdges, adjacent, chain_to, delta, edges_connect, filled_table,
    in_bounds, is_unvisited, lemma_chain_is_simple, lemma_chain_is_walk, neighbor_at, reconstruct_fuel, rows_view,
    table_wf, valid_walk, walkable,
};
use crate::solver::MazeSolverDrawable;

verus! {

/// Single-node expansions per `update` call.
pub const DFS_STEPS_PER_UPDATE: u64 = 5;

/// The abstract state of a depth-first solver; a mark of `true` means the
/// cell has been expanded.
#[verifier::ext_equal]
pub ghost struct DfsModel {
    pub maze: Seq<Seq<u8>>,
    pub start: GridPosition,
    pub end: GridPosition,
    pub marks: Seq<Seq<bool>>,
    pub frontier: Seq<GridPosition>,
    pub edges: Seq<Seq<GridPosition>>,
    pub complete: bool,
    pub failed: bool,
    pub path: Seq<GridPosition>,
    pub expanded: Seq<GridPosition>,
}

/// Path reconstruction at the moment the goal is discovered.
pub open spec fn dfs_complete(m: DfsModel) -> DfsModel {
    match chain_to(m.edges, m.start, m.end, reconstruct_fuel(m.edges)) {
        Some(p) => DfsModel { complete: true, path: p, ..m },
        None => DfsModel { failed: true, ..m },
    }
}

/// Examination of one neighbor of `cur`. Depth-first walks the fixed order
/// in reverse — index `i` examines direction `3 - i` — so that the cell
/// pushed last, and hence expanded next, is the `up` neighbor. Unvisited
/// walkable neighbors are pushed and given a parent edge; discovering the
/// goal completes the search on the spot.
pub open spec fn dfs_try_neighbor(m: DfsModel, cur: GridPosition, i: int) -> DfsModel {
    let cell = neighbor_at(cur, 3 - i);
    if walkable(m.maze, cell) && !m.marks[cell.x as int][cell.y as int] {
        let m1 = DfsModel {
            frontier: m.frontier.push(cell),
            edges: m.edges.update(
                cell.x as int,
                m.edges[cell.x as int].update(cell.y as int, cur),
            ),
            ..m
        };
        if cell == m.end {
            dfs_complete(m1)
        } else {
            m1
        }
    } else {
        m
    }
}

/// The neighbors of `cur` from reverse-order index `i` on, stopping as soon
/// as the step turns terminal.
pub open spec fn dfs_neighbors(m: DfsModel, cur: GridPosition, i: int) -> DfsModel
    decreases 4 - i,
{
    if i < 0 || i >= 4 || m.complete || m.failed {
        m
    } else {
        dfs_neighbors(dfs_try_neighbor(m, cur, i), cur, i + 1)
    }
}

/// One single-node expansion: pop the stack, discarding already-visited
/// entries, until an unvisited cell turns up; mark it visited and examine
/// its neighbors. An emptied stack makes the step a no-op.
pub open spec fn dfs_search(m: DfsModel) -> DfsModel
    decreases m.frontier.len(),
{
    if m.frontier.len() == 0 {
        m
    } else {
        let cell = m.frontier.last();
        let m1 = DfsModel { frontier: m.frontier.drop_last(), ..m };
        if m.marks[cell.x as int][cell.y as int] {
            dfs_search(m1)
        } else {
            let m2 = DfsModel {
                expanded: m1.expanded.push(cell),
                marks: m1.marks.update(
                    cell.x as int,
                    m1.marks[cell.x as int].update(cell.y as int, true),
                ),
                ..m1
            };
            dfs_neighbors(m2, cell, 0)
        }
    }
}

/// `k` single-node expansions, stopping early on a terminal state.
pub open spec fn dfs_multi(m: DfsModel, k: nat) -> DfsModel
    decreases k,
{
    if k == 0 || m.complete || m.failed {
        m
    } else {
        dfs_multi(dfs_search(m), (k - 1) as nat)
    }
}

/// One full tick of the depth-first solver.
pub open spec fn dfs_step(m: DfsModel) -> DfsModel {
    if m.complete || m.failed {
        m
    } else {
        dfs_multi(m, DFS_STEPS_PER_UPDATE as nat)
    }
}

/// Well-formedness of a depth-first model.
pub open spec fn dfs_inv(m: DfsModel) -> bool {
    &&& table_wf(m.maze)
    &&& in_bounds(m.maze, m.start)
    &&& m.marks.len() == m.maze.len()
    &&& forall|i: int| 0 <= i < m.marks.len() ==> #[trigger] m.marks[i].len() == m.maze[0].len()
    &&& m.edges.len() == m.maze.len()
    &&& forall|i: int| 0 <= i < m.edges.len() ==> #[trigger] m.edges[i].len() == m.maze[0].len()
    &&& forall|k: int|
        0 <= k < m.frontier.len() ==> in_bounds(m.maze, #[trigger] m.frontier[k]) && (walkable(
            m.maze,
            m.frontier[k],
        ) || m.frontier[k] == m.start)
    &&& edges_connect(m.maze, m.edges, m.start)
    &&& !(m.complete && m.failed)
    &&& !m.complete ==> m.path.len() == 0
    &&& m.complete ==> chain_to(m.edges, m.start, m.end, reconstruct_fuel(m.edges)) == Some(m.path)
}

/// A completed depth-first search's path is a walk of pairwise-adjacent
/// free cells from start to goal, provided the start cell itself is free.
/// Its length carries no shortest-path guarantee.
pub proof fn lemma_dfs_complete_path_valid(m: DfsModel)
    requires
        dfs_inv(m),
        m.complete,
        walkable(m.maze, m.start),
    ensures
        valid_walk(m.maze, m.start, m.end, m.path),
        forall|i: int, j: int| 0 <= i < j < m.path.len() ==> m.path[i] != m.path[j],
{
    lemma_chain_is_simple(
        m.edges,
        m.start,
        m.end,
        reconstruct_fuel(m.edges),
        m.path,
    );
    lemma_chain_is_walk(
        m.maze,
        m.edges,
        m.start,
        m.start,
        m.end,
        reconstruct_fuel(m.edges),
        m.path,
    );
}

/// The completed depth-first path may exceed the shortest path length but
/// never undercuts it: any lower bound holding of every valid walk between
/// the two cells bounds this path too, because the path is itself one.
pub proof fn lemma_dfs_path_no_shorter(m: DfsModel, n: nat)
    requires
        dfs_inv(m),
        m.complete,
        walkable(m.maze, m.start),
        forall|p: Seq<GridPosition>| valid_walk(m.maze, m.start, m.end, p) ==> p.len() >= n,
    ensures
        m.path.len() >= n,
{
    lemma_dfs_complete_path_valid(m);
}

/// Determinism: the tick transition is a pure function of the abstract
/// state; with the fixed reverse neighbor-exploration order, runs over
/// identical inputs produce identical paths.
pub proof fn lemma_dfs_step_deterministic(a: DfsModel, b: DfsModel)
    requires
        a == b,
    ensures
        dfs_step(a) == dfs_step(b),
{
}

/// Pushing a newly seen walkable neighbor with its parent edge preserves
/// well-formedness.
proof fn lemma_record_preserves_inv(mi: DfsModel, cur: GridPosition, cell: GridPosition, mn: DfsModel)
    requires
        dfs_inv(mi),
        !mi.complete,
        !mi.failed,
        in_bounds(mi.maze, cur),
        walkable(mi.maze, cur) || cur == mi.start,
        walkable(mi.maze, cell),
        adjacent(cur, cell),
        mn == (DfsModel {
            frontier: mi.frontier.push(cell),
            edges: mi.edges.update(cell.x as int, mi.edges[cell.x as int].update(cell.y as int, cur)),
            ..mi
        }),
    ensures
        dfs_inv(mn),
{
    assert forall|k: int|
        0 <= k < mn.frontier.len() implies in_bounds(mn.maze, #[trigger] mn.frontier[k]) && (
    walkable(mn.maze, mn.frontier[k]) || mn.frontier[k] == mn.start) by {
        if k < mi.frontier.len() {
            assert(mn.frontier[k] == mi.frontier[k]);
        } else {
            assert(mn.frontier[k] == cell);
        }
    }
    assert forall|a: int, b: int|
        0 <= a < mn.edges.len() && 0 <= b < mn.edges[0].len() && !is_unvisited(
            #[trigger] mn.edges[a][b],
        ) implies {
        let child = GridPosition { x: a as i32, y: b as i32 };
        &&& walkable(mn.maze, child)
        &&& adjacent(mn.edges[a][b], child)
        &&& (walkable(mn.maze, mn.edges[a][b]) || mn.edges[a][b] == mn.start)
    } by {
        if a == cell.x as int && b == cell.y as int {
            assert(mn.edges[a][b] == cur);
            assert(GridPosition { x: a as i32, y: b as i32 } == cell);
        } else {
            assert(mn.edges[a][b] == mi.edges[a][b]);
        }
    }
}

pub struct MazeSolverDFS {
    maze: Maze,
    position_start: GridPosition,
    position_end: GridPosition,
    /// True if visited
    search_grid: Vec<Vec<bool>>,
    current_search_positions: Vec<GridPosition>,
    path_edges: MazePathEdges,
    complete: bool,
    failed: bool,
    complete_path: Vec<GridPosition>,
    expanded_nodes: Vec<GridPosition>,
}

impl View for MazeSolverDFS {
    type V = DfsModel;

    closed spec fn view(&self) -> DfsModel {
        DfsModel {
            maze: self.maze@,
            start: self.position_start,
            end: self.position_end,
            marks: rows_view(self.search_grid),
            frontier: self.current_search_positions@,
            edges: self.path_edges@,
            complete: self.complete,
            failed: self.failed,
            path: self.complete_path@,
            expanded: self.expanded_nodes@,
        }
    }
}

impl MazeSolverDFS {
    /// A fresh solver over `maze`: stack seeded with the start cell, nothing
    /// expanded. When start and goal coincide, the search is already
    /// complete with the single-cell path, no expansion needed.
    pub fn new(maze: Maze, position_start: GridPosition, position_end: GridPosition) -> (s: Self)
        requires
            maze.wf(),
            in_bounds(maze@, position_start),
        ensures
            s.inv(),
            s@.maze == maze@,
            s@.start == position_start,
            s@.end == position_end,
            s@.expanded == Seq::<GridPosition>::empty(),
            s@.frontier == seq![position_start],
            forall|i: int, j: int|
                0 <= i < maze@.len() && 0 <= j < maze@[0].len() ==> !(#[trigger] s@.marks[i][j]),
            forall|i: int, j: int|
                0 <= i < maze@.len() && 0 <= j < maze@[0].len() ==> is_unvisited(
                    #[trigger] s@.edges[i][j],
                ),
            !s@.failed,
            s@.complete <==> position_start == position_end,
            position_start == position_end ==> s@.path == seq![position_start],
            position_start != position_end ==> s@.path == Seq::<GridPosition>::empty(),
    {
        let rows = maze.grid.len();
        let cols = maze.grid[0].len();
        let search_grid = filled_table(rows, cols, false);
        let mut current_search_positions: Vec<GridPosition> = Vec::new();
        current_search_positions.push(position_start);
        let path_edges = MazePathEdges::new_with_maze(&maze);

        let mut complete = false;
        let mut complete_path: Vec<GridPosition> = Vec::new();
        if position_start == position_end {
            complete = true;
            complete_path.push(position_start);
        }

        let s = MazeSolverDFS {
            maze,
            position_start,
            position_end,
            search_grid,
            current_search_positions,
            path_edges,
            complete,
            failed: false,
            complete_path,
            expanded_nodes: Vec::new(),
        };
        proof {
            assert(s@.frontier =~= seq![position_start]);
            assert(s@.expanded =~= Seq::<GridPosition>::empty());
            if position_start == position_end {
                assert(chain_to(s@.edges, s@.start, s@.end, reconstruct_fuel(s@.edges)) == Some(
                    seq![position_start],
                ));
                assert(s@.path =~= seq![position_start]);
            } else {
                assert(s@.path =~= Seq::<GridPosition>::empty());
            }
        }
        s
    }

    /// One single-node expansion of the depth-first search.
    fn search(&mut self)
        requires
            old(self).inv(),
            !old(self)@.complete,
            !old(self)@.failed,
        ensures
            final(self).inv(),
            final(self)@ == dfs_search(old(self)@),
            final(self)@.maze == old(self)@.maze,
            final(self)@.start == old(self)@.start,
            final(self)@.end == old(self)@.end,
            old(self)@.expanded.is_prefix_of(final(self)@.expanded),
    {
        let ghost m0 = self@;
        // Pop the stack, discarding already-visited entries, until an
        // unvisited cell turns up.
        let mut found: Option<GridPosition> = None;
        while found.is_none() && self.current_search_positions.len() > 0
            invariant
                self.inv(),
                !self@.complete && !self@.failed,
                self@.maze == m0.maze,
                self@.start == m0.start,
                self@.end == m0.end,
                self@.expanded == m0.expanded,
                found is None ==> dfs_search(m0) == dfs_search(self@),
                found matches Some(c) ==> in_bounds(self@.maze, c) && (walkable(self@.maze, c)
                    || c == self@.start) && !self@.marks[c.x as int][c.y as int] && dfs_search(m0)
                    == dfs_neighbors(
                    DfsModel {
                        expanded: self@.expanded.push(c),
                        marks: self@.marks.update(
                            c.x as int,
                            self@.marks[c.x as int].update(c.y as int, true),
                        ),
                        ..self@
                    },
                    c,
                    0,
                ),
            decreases self.current_search_positions.len(),
        {
            let ghost mp = self@;
            let cell = self.current_search_positions.pop().unwrap();
            proof {
                assert(cell == mp.frontier.last());
                assert(self@ =~~= (DfsModel { frontier: mp.frontier.drop_last(), ..mp }));
                assert(in_bounds(mp.maze, cell) && (walkable(mp.maze, cell) || cell == mp.start));
            }
            assert(self@.marks[cell.x as int].len() == self@.maze[0].len());
            if !self.search_grid[cell.x as usize][cell.y as usize] {
                found = Some(cell);
            }
        }
        if found.is_none() {
            proof {
                assert(self@.frontier.len() == 0);
                assert(dfs_search(self@) == self@);
            }
            return ;
        }

        let start_cell = found.unwrap();
        let ghost mf = self@;
        self.expanded_nodes.push(start_cell);
        assert(self@.marks[start_cell.x as int].len() == self@.maze[0].len());
        self.search_grid[start_cell.x as usize][start_cell.y as usize] = true;
        let ghost ma = self@;
        proof {
            assert(ma =~~= (DfsModel {
                expanded: mf.expanded.push(start_cell),
                marks: mf.marks.update(
                    start_cell.x as int,
                    mf.marks[start_cell.x as int].update(start_cell.y as int, true),
                ),
                ..mf
            }));
            assert(dfs_search(m0) == dfs_neighbors(ma, start_cell, 0));
        }

        let mut i: usize = 0;
        while i < 4
            invariant_except_break
                self.inv(),
                i <= 4,
                !self@.complete && !self@.failed,
                in_bounds(self@.maze, start_cell),
                walkable(self@.maze, start_cell) || start_cell == self@.start,
                self@.maze == ma.maze,
                self@.start == ma.start,
                self@.end == ma.end,
                self@.expanded == ma.expanded,
                dfs_neighbors(ma, start_cell, 0) == dfs_neighbors(self@, start_cell, i as int),
            ensures
                self.inv(),
                self@ == dfs_neighbors(ma, start_cell, 0),
                self@.maze == ma.maze,
                self@.start == ma.start,
                self@.end == ma.end,
                self@.expanded == ma.expanded,
            decreases 4 - i,
        {
            let ghost mi = self@;
            let d = delta_rev_exec(i);
            let cell = start_cell.add(&d);
            proof {
                assert(cell == neighbor_at(start_cell, 3 - i as int));
            }
            if self.maze.is_cell_valid(&cell) {
                assert(self@.marks[cell.x as int].len() == self@.maze[0].len());
                if !self.search_grid[cell.x as usize][cell.y as usize] {
                    self.current_search_positions.push(cell);
                    self.path_edges.add_edge(&start_cell, &cell);
                    let ghost mn = self@;
                    proof {
                        assert(mn =~~= (DfsModel {
                            frontier: mi.frontier.push(cell),
                            edges: mi.edges.update(
                                cell.x as int,
                                mi.edges[cell.x as int].update(cell.y as int, start_cell),
                            ),
                            ..mi
                        }));
                        assert(adjacent(start_cell, cell));
                        lemma_record_preserves_inv(mi, start_cell, cell, mn);
                    }
                    if cell.x == self.position_end.x && cell.y == self.position_end.y {
                        assert(cell == mi.end);
                        match self.path_edges.build_path(&self.position_start, &self.position_end) {
                            Ok(p) => {
                                self.complete = true;
                                self.complete_path = p;
                            },
                            Err(_) => {
                                self.failed = true;
                            },
                        }
                        proof {
                            assert(self@ =~~= dfs_complete(mn));
                            assert(self@ == dfs_try_neighbor(mi, start_cell, i as int));
                        }
                    } else {
                        proof {
                            assert(self@ == dfs_try_neighbor(mi, start_cell, i as int));
                        }
                    }
                } else {
                    proof {
                        assert(self@ == dfs_try_neighbor(mi, start_cell, i as int));
                    }
                }
            } else {
                proof {
                    assert(self@ == dfs_try_neighbor(mi, start_cell, i as int));
                }
            }
            proof {
                assert(dfs_neighbors(mi, start_cell, i as int) == dfs_neighbors(
                    self@,
                    start_cell,
                    i as int + 1,
                ));
            }
            if self.complete || self.failed {
                proof {
                    assert(dfs_neighbors(self@, start_cell, i as int + 1) == self@);
                    assert(self@ == dfs_neighbors(ma, start_cell, 0));
                }
                break ;
            }
            i = i + 1;
        }
    }
}

/// The neighbor offset for reverse-order index `i`: left, down, right, up.
fn delta_rev_exec(i: usize) -> (d: GridPosition)
    requires
        i < 4,
    ensures
        d == delta(3 - i as int),
        -1 <= d.x <= 1,
        -1 <= d.y <= 1,
{
    if i == 0 {
        GridPosition { x: 0, y: -1 }
    } else if i == 1 {
        GridPosition { x: 1, y: 0 }
    } else if i == 2 {
        GridPosition { x: 0, y: 1 }
    } else {
        GridPosition { x: -1, y: 0 }
    }
}

impl MazeSolverDrawable for MazeSolverDFS {
    open spec fn inv(&self) -> bool {
        dfs_inv(self@)
    }

    open spec fn start_spec(&self) -> GridPosition {
        self@.start
    }

    open spec fn end_spec(&self) -> GridPosition {
        self@.end
    }

    open spec fn complete_spec(&self) -> bool {
        self@.complete
    }

    open spec fn failed_spec(&self) -> bool {
        self@.failed
    }

    open spec fn frontier_size(&self) -> nat {
        self@.frontier.len()
    }

    open spec fn path_spec(&self) -> Seq<GridPosition> {
        self@.path
    }

    open spec fn expanded_spec(&self) -> Seq<GridPosition> {
        self@.expanded
    }

    fn update(&mut self)
        ensures
            final(self)@ == dfs_step(old(self)@),
    {
        if !self.complete && !self.failed {
            let ghost m0 = self@;
            let mut k: u64 = 0;
            while k < DFS_STEPS_PER_UPDATE
                invariant_except_break
                    self.inv(),
                    k <= DFS_STEPS_PER_UPDATE,
                    !self@.complete && !self@.failed,
                    self@.maze == m0.maze,
                    self@.start == m0.start,
                    self@.end == m0.end,
                    m0.expanded.is_prefix_of(self@.expanded),
                    dfs_multi(m0, DFS_STEPS_PER_UPDATE as nat) == dfs_multi(
                        self@,
                        (DFS_STEPS_PER_UPDATE - k) as nat,
                    ),
                ensures
                    self.inv(),
                    self@ == dfs_multi(m0, DFS_STEPS_PER_UPDATE as nat),
                    self@.maze == m0.maze,
                    self@.start == m0.start,
                    self@.end == m0.end,
                    m0.expanded.is_prefix_of(self@.expanded),
                decreases DFS_STEPS_PER_UPDATE - k,
            {
                let ghost mk = self@;
                self.search();
                proof {
                    assert(dfs_multi(mk, (DFS_STEPS_PER_UPDATE - k) as nat) == dfs_multi(
                        self@,
                        (DFS_STEPS_PER_UPDATE - k - 1) as nat,
                    ));
                }
                if self.complete || self.failed {
                    proof {
                        assert(dfs_multi(self@, (DFS_STEPS_PER_UPDATE - k - 1) as nat) == self@);
                    }
                    break ;
                }
                k = k + 1;
            }
        }
    }

    fn expanded_nodes(&self) -> (r: &Vec<GridPosition>) {
        &self.expanded_nodes
    }

    fn start(&self) -> (r: &GridPosition) {
        &self.position_start
    }

    fn end(&self) -> (r: &GridPosition) {
        &self.position_end
    }

    fn is_complete(&self) -> (r: bool) {
        self.complete
    }

    fn is_exhausted(&self) -> (r: bool) {
        self.current_search_positions.len() == 0 && !self.complete && !self.failed
    }

    fn is_failed(&self) -> (r: bool) {
        self.failed
    }

    fn path(&self) -> (r: &Vec<GridPosition>) {
        &self.complete_path
    }
}

} // verus!
