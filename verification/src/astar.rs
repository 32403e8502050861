//! A* maze solver: best-first expansion ordered by `f = g + h`, where `g` is
//! the best known cost from the start and `h` the Manhattan distance to the
//! goal. On a unit-cost 4-connected grid all costs are integers, so they are
//! held as `u64`, with `u64::MAX` standing for "not yet recorded".
//!
//! The open list tolerates duplicate and stale entries for a cell; an entry
//! is only admitted when its `f` improves on the cell's best recorded `f`.
//! Ties on `f` break deterministically toward the earliest-inserted entry.

use vstd::prelude::*;

use crate::maze::{
    GridPosition, Maze, MazePathEdges, adjacent, chain_to, delta_exec, edges_connect, filled_table,
    in_bounds, is_unvisited, lemma_chain_is_simple, lemma_chain_is_walk, manhattan, manhattan_exec, neighbor_at,
    reconstruct_fuel, rows_view, table_wf, valid_walk, walkable,
};
use crate::solver::MazeSolverDrawable;

verus! {

/// Single-node expansions per `update` call.
pub const ASTAR_STEPS_PER_UPDATE: u64 = 3;

/// An entry of the open list: cost from the start, estimated total cost, and
/// the cell it scores.
#[derive(Clone, Copy, PartialEq, Eq, Structural, Debug)]
pub struct AStarNode {
    /// Cost from the starting node.
    pub g: u64,
    /// `g` plus the heuristic.
    pub f: u64,
    pub position: GridPosition,
}

/// The abstract state of an A* solver; `costs` records each cell's best
/// known `f`, `u64::MAX` when the cell was never recorded.
#[verifier::ext_equal]
pub ghost struct AStarModel {
    pub maze: Seq<Seq<u8>>,
    pub start: GridPosition,
    pub end: GridPosition,
    pub costs: Seq<Seq<u64>>,
    pub open: Seq<AStarNode>,
    pub edges: Seq<Seq<GridPosition>>,
    pub complete: bool,
    pub failed: bool,
    pub path: Seq<GridPosition>,
    pub expanded: Seq<GridPosition>,
}

/// `k` is the index the open list pops next: it holds the minimum `f`, and
/// strictly beats every earlier entry, so ties fall to the earliest insertion.
pub open spec fn is_first_min(s: Seq<AStarNode>, k: int) -> bool {
    &&& 0 <= k < s.len()
    &&& forall|j: int| 0 <= j < s.len() ==> s[k].f <= (#[trigger] s[j]).f
    &&& forall|j: int| 0 <= j < k ==> (#[trigger] s[j]).f > s[k].f
}

/// The index of the first entry holding the minimal `f`.
pub open spec fn first_min_index(s: Seq<AStarNode>) -> int
    decreases s.len(),
{
    if s.len() <= 1 {
        0
    } else {
        let rest = first_min_index(s.drop_first()) + 1;
        if s[0].f <= s[rest].f {
            0
        } else {
            rest
        }
    }
}

pub proof fn lemma_first_min(s: Seq<AStarNode>)
    requires
        s.len() > 0,
    ensures
        is_first_min(s, first_min_index(s)),
    decreases s.len(),
{
    if s.len() > 1 {
        lemma_first_min(s.drop_first());
        let r = first_min_index(s.drop_first());
        assert forall|j: int| 1 <= j < s.len() implies s[r + 1].f <= (#[trigger] s[j]).f by {
            assert(s[j] == s.drop_first()[j - 1]);
            assert(s.drop_first()[r].f <= s.drop_first()[j - 1].f);
        }
        assert forall|j: int| 1 <= j < r + 1 implies (#[trigger] s[j]).f > s[r + 1].f by {
            assert(s[j] == s.drop_first()[j - 1]);
        }
        assert(s[r + 1] == s.drop_first()[r]);
    }
}

pub proof fn lemma_first_min_unique(s: Seq<AStarNode>, a: int, b: int)
    requires
        is_first_min(s, a),
        is_first_min(s, b),
    ensures
        a == b,
{
    if a < b {
        assert(s[a].f > s[b].f);
        assert(s[b].f >= s[a].f);
    }
    if b < a {
        assert(s[b].f > s[a].f);
        assert(s[a].f >= s[b].f);
    }
}

/// Path reconstruction at the moment the goal is discovered.
pub open spec fn astar_complete(m: AStarModel) -> AStarModel {
    match chain_to(m.edges, m.start, m.end, reconstruct_fuel(m.edges)) {
        Some(p) => AStarModel { complete: true, path: p, ..m },
        None => AStarModel { failed: true, ..m },
    }
}

/// Examination of the neighbor of the active node in direction `i`: a
/// walkable neighbor whose candidate `f` improves on its best recorded `f`
/// is recorded and pushed; reaching the goal completes the search whether or
/// not this pass improved it.
pub open spec fn astar_try_neighbor(m: AStarModel, node: AStarNode, i: int) -> AStarModel {
    let cell = neighbor_at(node.position, i);
    if walkable(m.maze, cell) {
        let g = node.g + 1;
        let f = g + manhattan(cell, m.end);
        let m1 = if f < m.costs[cell.x as int][cell.y as int] {
            AStarModel {
                edges: m.edges.update(
                    cell.x as int,
                    m.edges[cell.x as int].update(cell.y as int, node.position),
                ),
                costs: m.costs.update(
                    cell.x as int,
                    m.costs[cell.x as int].update(cell.y as int, f as u64),
                ),
                open: m.open.push(AStarNode { g: g as u64, f: f as u64, position: cell }),
                ..m
            }
        } else {
            m
        };
        if cell == m.end {
            astar_complete(m1)
        } else {
            m1
        }
    } else {
        m
    }
}

/// The neighbors of the active node from direction `i` on, in the fixed
/// order, stopping as soon as the step turns terminal.
pub open spec fn astar_neighbors(m: AStarModel, node: AStarNode, i: int) -> AStarModel
    decreases 4 - i,
{
    if i < 0 || i >= 4 || m.complete || m.failed {
        m
    } else {
        astar_neighbors(astar_try_neighbor(m, node, i), node, i + 1)
    }
}

/// One single-node expansion: pop the earliest minimum-`f` entry and examine
/// its neighbors. An empty open list makes the step a no-op.
pub open spec fn astar_search(m: AStarModel) -> AStarModel {
    if m.open.len() == 0 {
        m
    } else {
        let k = first_min_index(m.open);
        let node = m.open[k];
        let m1 = AStarModel {
            open: m.open.remove(k),
            expanded: m.expanded.push(node.position),
            ..m
        };
        astar_neighbors(m1, node, 0)
    }
}

/// `k` single-node expansions, stopping early on a terminal state.
pub open spec fn astar_multi(m: AStarModel, k: nat) -> AStarModel
    decreases k,
{
    if k == 0 || m.complete || m.failed {
        m
    } else {
        astar_multi(astar_search(m), (k - 1) as nat)
    }
}

/// One full tick of the A* solver.
pub open spec fn astar_step(m: AStarModel) -> AStarModel {
    if m.complete || m.failed {
        m
    } else {
        astar_multi(m, ASTAR_STEPS_PER_UPDATE as nat)
    }
}

/// Well-formedness of an A* model. Open-list entries keep `g <= f < u64::MAX`,
/// so the candidate cost of a neighbor never overflows.
pub open spec fn astar_inv(m: AStarModel) -> bool {
    &&& table_wf(m.maze)
    &&& in_bounds(m.maze, m.start)
    &&& m.costs.len() == m.maze.len()
    &&& forall|i: int| 0 <= i < m.costs.len() ==> #[trigger] m.costs[i].len() == m.maze[0].len()
    &&& m.edges.len() == m.maze.len()
    &&& forall|i: int| 0 <= i < m.edges.len() ==> #[trigger] m.edges[i].len() == m.maze[0].len()
    &&& forall|k: int|
        0 <= k < m.open.len() ==> {
            let e = #[trigger] m.open[k];
            &&& in_bounds(m.maze, e.position)
            &&& (walkable(m.maze, e.position) || e.position == m.start)
            &&& e.g <= e.f
            &&& e.f < u64::MAX
        }
    &&& edges_connect(m.maze, m.edges, m.start)
    &&& !(m.complete && m.failed)
    &&& !m.complete ==> m.path.len() == 0
    &&& m.complete ==> chain_to(m.edges, m.start, m.end, reconstruct_fuel(m.edges)) == Some(m.path)
}

/// A completed A* search's path is a walk of pairwise-adjacent free cells
/// from start to goal, provided the start cell itself is free.
pub proof fn lemma_astar_complete_path_valid(m: AStarModel)
    requires
        astar_inv(m),
        m.complete,
        walkable(m.maze, m.start),
    ensures
        valid_walk(m.maze, m.start, m.end, m.path),
        forall|i: int, j: int| 0 <= i < j < m.path.len() ==> m.path[i] != m.path[j],
{
    lemma_chain_is_simple(
        m.edges,
        m.start,
        m.end,
        reconstruct_fuel(m.edges),
        m.path,
    );
    lemma_chain_is_walk(
        m.maze,
        m.edges,
        m.start,
        m.start,
        m.end,
        reconstruct_fuel(m.edges),
        m.path,
    );
}

/// One direction of the optimality guarantee: the completed A* path never
/// undercuts the true shortest length, because any lower bound holding of
/// every valid walk between the two cells bounds this path too. (That its
/// length also attains the shortest length is not proved here.)
pub proof fn lemma_astar_path_no_shorter(m: AStarModel, n: nat)
    requires
        astar_inv(m),
        m.complete,
        walkable(m.maze, m.start),
        forall|p: Seq<GridPosition>| valid_walk(m.maze, m.start, m.end, p) ==> p.len() >= n,
    ensures
        m.path.len() >= n,
{
    lemma_astar_complete_path_valid(m);
}

/// Determinism: the tick transition is a pure function of the abstract
/// state. The earliest-insertion tie-break makes the popped entry unique,
/// so runs over identical inputs produce identical paths.
pub proof fn lemma_astar_step_deterministic(a: AStarModel, b: AStarModel)
    requires
        a == b,
    ensures
        astar_step(a) == astar_step(b),
{
}

/// Recording an improved neighbor — edge, best cost, open-list entry —
/// preserves well-formedness.
proof fn lemma_record_preserves_inv(
    mi: AStarModel,
    node: AStarNode,
    cell: GridPosition,
    f: int,
    mn: AStarModel,
)
    requires
        astar_inv(mi),
        !mi.complete,
        !mi.failed,
        in_bounds(mi.maze, node.position),
        walkable(mi.maze, node.position) || node.position == mi.start,
        node.g <= node.f < u64::MAX,
        walkable(mi.maze, cell),
        adjacent(node.position, cell),
        f == node.g + 1 + manhattan(cell, mi.end),
        f < mi.costs[cell.x as int][cell.y as int],
        mn == (AStarModel {
            edges: mi.edges.update(
                cell.x as int,
                mi.edges[cell.x as int].update(cell.y as int, node.position),
            ),
            costs: mi.costs.update(
                cell.x as int,
                mi.costs[cell.x as int].update(cell.y as int, f as u64),
            ),
            open: mi.open.push(AStarNode { g: (node.g + 1) as u64, f: f as u64, position: cell }),
            ..mi
        }),
    ensures
        astar_inv(mn),
{
    assert forall|k: int|
        0 <= k < mn.open.len() implies {
        let e = #[trigger] mn.open[k];
        &&& in_bounds(mn.maze, e.position)
        &&& (walkable(mn.maze, e.position) || e.position == mn.start)
        &&& e.g <= e.f
        &&& e.f < u64::MAX
    } by {
        if k < mi.open.len() {
            assert(mn.open[k] == mi.open[k]);
        } else {
            assert(mn.open[k] == AStarNode {
                g: (node.g + 1) as u64,
                f: f as u64,
                position: cell,
            });
            assert(mi.costs[cell.x as int][cell.y as int] <= u64::MAX);
            assert(manhattan(cell, mi.end) >= 0);
        }
    }
    assert forall|a: int, b: int|
        0 <= a < mn.edges.len() && 0 <= b < mn.edges[0].len() && !is_unvisited(
            #[trigger] mn.edges[a][b],
        ) implies {
        let child = GridPosition { x: a as i32, y: b as i32 };
        &&& walkable(mn.maze, child)
        &&& adjacent(mn.edges[a][b], child)
        &&& (walkable(mn.maze, mn.edges[a][b]) || mn.edges[a][b] == mn.start)
    } by {
        if a == cell.x as int && b == cell.y as int {
            assert(mn.edges[a][b] == node.position);
            assert(GridPosition { x: a as i32, y: b as i32 } == cell);
        } else {
            assert(mn.edges[a][b] == mi.edges[a][b]);
        }
    }
}

pub struct MazeSolverAStar {
    maze: Maze,
    position_start: GridPosition,
    position_end: GridPosition,
    /// Stores each cell's best known `f`; `u64::MAX` when unrecorded.
    search_grid: Vec<Vec<u64>>,
    /// Open list of nodes to visit.
    current_search_positions: Vec<AStarNode>,
    path_edges: MazePathEdges,
    complete: bool,
    failed: bool,
    complete_path: Vec<GridPosition>,
    expanded_nodes: Vec<GridPosition>,
}

impl View for MazeSolverAStar {
    type V = AStarModel;

    closed spec fn view(&self) -> AStarModel {
        AStarModel {
            maze: self.maze@,
            start: self.position_start,
            end: self.position_end,
            costs: rows_view(self.search_grid),
            open: self.current_search_positions@,
            edges: self.path_edges@,
            complete: self.complete,
            failed: self.failed,
            path: self.complete_path@,
            expanded: self.expanded_nodes@,
        }
    }
}

impl MazeSolverAStar {
    /// A fresh solver over `maze`: the open list holds one zero-cost entry
    /// for the start cell, nothing is recorded or expanded. When start and
    /// goal coincide, the search is already complete with the single-cell
    /// path, no expansion needed.
    pub fn new(maze: Maze, position_start: GridPosition, position_end: GridPosition) -> (s: Self)
        requires
            maze.wf(),
            in_bounds(maze@, position_start),
        ensures
            s.inv(),
            s@.maze == maze@,
            s@.start == position_start,
            s@.end == position_end,
            s@.expanded == Seq::<GridPosition>::empty(),
            s@.open == seq![AStarNode { g: 0u64, f: 0u64, position: position_start }],
            forall|i: int, j: int|
                0 <= i < maze@.len() && 0 <= j < maze@[0].len() ==> #[trigger] s@.costs[i][j]
                    == u64::MAX,
            forall|i: int, j: int|
                0 <= i < maze@.len() && 0 <= j < maze@[0].len() ==> is_unvisited(
                    #[trigger] s@.edges[i][j],
                ),
            !s@.failed,
            s@.complete <==> position_start == position_end,
            position_start == position_end ==> s@.path == seq![position_start],
            position_start != position_end ==> s@.path == Seq::<GridPosition>::empty(),
    {
        let rows = maze.grid.len();
        let cols = maze.grid[0].len();
        let search_grid = filled_table(rows, cols, u64::MAX);
        let mut current_search_positions: Vec<AStarNode> = Vec::new();
        current_search_positions.push(AStarNode { g: 0, f: 0, position: position_start });
        let path_edges = MazePathEdges::new_with_maze(&maze);

        let mut complete = false;
        let mut complete_path: Vec<GridPosition> = Vec::new();
        if position_start == position_end {
            complete = true;
            complete_path.push(position_start);
        }

        let s = MazeSolverAStar {
            maze,
            position_start,
            position_end,
            search_grid,
            current_search_positions,
            path_edges,
            complete,
            failed: false,
            complete_path,
            expanded_nodes: Vec::new(),
        };
        proof {
            assert(s@.open =~= seq![AStarNode { g: 0u64, f: 0u64, position: position_start }]);
            assert(s@.expanded =~= Seq::<GridPosition>::empty());
            if position_start == position_end {
                assert(chain_to(s@.edges, s@.start, s@.end, reconstruct_fuel(s@.edges)) == Some(
                    seq![position_start],
                ));
                assert(s@.path =~= seq![position_start]);
            } else {
                assert(s@.path =~= Seq::<GridPosition>::empty());
            }
        }
        s
    }

    /// One single-node expansion of the A* search.
    fn search(&mut self)
        requires
            old(self).inv(),
            !old(self)@.complete,
            !old(self)@.failed,
        ensures
            final(self).inv(),
            final(self)@ == astar_search(old(self)@),
            final(self)@.maze == old(self)@.maze,
            final(self)@.start == old(self)@.start,
            final(self)@.end == old(self)@.end,
            old(self)@.expanded.is_prefix_of(final(self)@.expanded),
    {
        let len = self.current_search_positions.len();
        if len == 0 {
            return ;
        }
        let ghost m0 = self@;

        // The earliest entry holding the minimal f.
        let mut best: usize = 0;
        let mut t: usize = 1;
        while t < len
            invariant
                1 <= t <= len,
                best < t,
                len == self.current_search_positions.len(),
                forall|j: int|
                    0 <= j < t ==> self.current_search_positions@[best as int].f <= (
                    #[trigger] self.current_search_positions@[j]).f,
                forall|j: int|
                    0 <= j < best ==> (#[trigger] self.current_search_positions@[j]).f
                        > self.current_search_positions@[best as int].f,
            decreases len - t,
        {
            if self.current_search_positions[t].f < self.current_search_positions[best].f {
                best = t;
            }
            t = t + 1;
        }
        proof {
            lemma_first_min(m0.open);
            lemma_first_min_unique(m0.open, best as int, first_min_index(m0.open));
        }

        let node = self.current_search_positions[best];
        let _ = self.current_search_positions.remove(best);
        self.expanded_nodes.push(node.position);
        let ghost ma = self@;
        proof {
            assert(ma =~~= (AStarModel {
                open: m0.open.remove(best as int),
                expanded: m0.expanded.push(node.position),
                ..m0
            }));
            assert(astar_search(m0) == astar_neighbors(ma, node, 0));
            assert forall|k: int|
                0 <= k < ma.open.len() implies {
                let e = #[trigger] ma.open[k];
                &&& in_bounds(ma.maze, e.position)
                &&& (walkable(ma.maze, e.position) || e.position == ma.start)
                &&& e.g <= e.f
                &&& e.f < u64::MAX
            } by {
                if k < best as int {
                    assert(ma.open[k] == m0.open[k]);
                } else {
                    assert(ma.open[k] == m0.open[k + 1]);
                }
            }
            assert(in_bounds(ma.maze, node.position) && (walkable(ma.maze, node.position)
                || node.position == ma.start));
            assert(node.g <= node.f < u64::MAX);
        }

        let mut i: usize = 0;
        while i < 4
            invariant_except_break
                self.inv(),
                i <= 4,
                !self@.complete && !self@.failed,
                in_bounds(self@.maze, node.position),
                walkable(self@.maze, node.position) || node.position == self@.start,
                node.g <= node.f < u64::MAX,
                self@.maze == ma.maze,
                self@.start == ma.start,
                self@.end == ma.end,
                self@.expanded == ma.expanded,
                astar_neighbors(ma, node, 0) == astar_neighbors(self@, node, i as int),
            ensures
                self.inv(),
                self@ == astar_neighbors(ma, node, 0),
                self@.maze == ma.maze,
                self@.start == ma.start,
                self@.end == ma.end,
                self@.expanded == ma.expanded,
            decreases 4 - i,
        {
            let ghost mi = self@;
            let d = delta_exec(i);
            let cell = node.position.add(&d);
            proof {
                assert(cell == neighbor_at(node.position, i as int));
            }
            if self.maze.is_cell_valid(&cell) {
                let g1 = node.g + 1;
                let h = manhattan_exec(&cell, &self.position_end);
                assert(self@.costs[cell.x as int].len() == self@.maze[0].len());
                let stored = self.search_grid[cell.x as usize][cell.y as usize];
                let ghost fspec = node.g + 1 + manhattan(cell, mi.end);
                let mut improved = false;
                if let Some(f1) = g1.checked_add(h) {
                    if f1 < stored {
                        improved = true;
                        self.path_edges.add_edge(&node.position, &cell);
                        self.search_grid[cell.x as usize][cell.y as usize] = f1;
                        self.current_search_positions.push(
                            AStarNode { g: g1, f: f1, position: cell },
                        );
                        let ghost mn = self@;
                        proof {
                            assert(mn =~~= (AStarModel {
                                edges: mi.edges.update(
                                    cell.x as int,
                                    mi.edges[cell.x as int].update(cell.y as int, node.position),
                                ),
                                costs: mi.costs.update(
                                    cell.x as int,
                                    mi.costs[cell.x as int].update(cell.y as int, fspec as u64),
                                ),
                                open: mi.open.push(
                                    AStarNode {
                                        g: (node.g + 1) as u64,
                                        f: fspec as u64,
                                        position: cell,
                                    },
                                ),
                                ..mi
                            }));
                            assert(adjacent(node.position, cell));
                            lemma_record_preserves_inv(mi, node, cell, fspec, mn);
                        }
                    }
                }
                if !improved {
                    proof {
                        assert(fspec >= mi.costs[cell.x as int][cell.y as int]);
                        assert(self@ == mi);
                    }
                }
                let ghost m1 = self@;
                proof {
                    if fspec < mi.costs[cell.x as int][cell.y as int] {
                        assert(improved);
                    }
                }
                if cell.x == self.position_end.x && cell.y == self.position_end.y {
                    assert(cell == mi.end);
                    match self.path_edges.build_path(&self.position_start, &self.position_end) {
                        Ok(p) => {
                            self.complete = true;
                            self.complete_path = p;
                        },
                        Err(_) => {
                            self.failed = true;
                        },
                    }
                    proof {
                        assert(self@ =~~= astar_complete(m1));
                        assert(self@ == astar_try_neighbor(mi, node, i as int));
                    }
                } else {
                    proof {
                        assert(self@ == astar_try_neighbor(mi, node, i as int));
                    }
                }
            } else {
                proof {
                    assert(self@ == astar_try_neighbor(mi, node, i as int));
                }
            }
            proof {
                assert(astar_neighbors(mi, node, i as int) == astar_neighbors(
                    self@,
                    node,
                    i as int + 1,
                ));
            }
            if self.complete || self.failed {
                proof {
                    assert(astar_neighbors(self@, node, i as int + 1) == self@);
                    assert(self@ == astar_neighbors(ma, node, 0));
                }
                break ;
            }
            i = i + 1;
        }
    }
}

impl MazeSolverDrawable for MazeSolverAStar {
    open spec fn inv(&self) -> bool {
        astar_inv(self@)
    }

    open spec fn start_spec(&self) -> GridPosition {
        self@.start
    }

    open spec fn end_spec(&self) -> GridPosition {
        self@.end
    }

    open spec fn complete_spec(&self) -> bool {
        self@.complete
    }

    open spec fn failed_spec(&self) -> bool {
        self@.failed
    }

    open spec fn frontier_size(&self) -> nat {
        self@.open.len()
    }

    open spec fn path_spec(&self) -> Seq<GridPosition> {
        self@.path
    }

    open spec fn expanded_spec(&self) -> Seq<GridPosition> {
        self@.expanded
    }

    fn update(&mut self)
        ensures
            final(self)@ == astar_step(old(self)@),
    {
        if !self.complete && !self.failed {
            let ghost m0 = self@;
            let mut k: u64 = 0;
            while k < ASTAR_STEPS_PER_UPDATE
                invariant_except_break
                    self.inv(),
                    k <= ASTAR_STEPS_PER_UPDATE,
                    !self@.complete && !self@.failed,
                    self@.maze == m0.maze,
                    self@.start == m0.start,
                    self@.end == m0.end,
                    m0.expanded.is_prefix_of(self@.expanded),
                    astar_multi(m0, ASTAR_STEPS_PER_UPDATE as nat) == astar_multi(
                        self@,
                        (ASTAR_STEPS_PER_UPDATE - k) as nat,
                    ),
                ensures
                    self.inv(),
                    self@ == astar_multi(m0, ASTAR_STEPS_PER_UPDATE as nat),
                    self@.maze == m0.maze,
                    self@.start == m0.start,
                    self@.end == m0.end,
                    m0.expanded.is_prefix_of(self@.expanded),
                decreases ASTAR_STEPS_PER_UPDATE - k,
            {
                let ghost mk = self@;
                self.search();
                proof {
                    assert(astar_multi(mk, (ASTAR_STEPS_PER_UPDATE - k) as nat) == astar_multi(
                        self@,
                        (ASTAR_STEPS_PER_UPDATE - k - 1) as nat,
                    ));
                }
                if self.complete || self.failed {
                    proof {
                        assert(astar_multi(self@, (ASTAR_STEPS_PER_UPDATE - k - 1) as nat)
                            == self@);
                    }
                    break ;
                }
                k = k + 1;
            }
        }
    }

    fn expanded_nodes(&self) -> (r: &Vec<GridPosition>) {
        &self.expanded_nodes
    }

    fn start(&self) -> (r: &GridPosition) {
        &self.position_start
    }

    fn end(&self) -> (r: &GridPosition) {
        &self.position_end
    }

    fn is_complete(&self) -> (r: bool) {
        self.complete
    }

    fn is_exhausted(&self) -> (r: bool) {
        self.current_search_positions.len() == 0 && !self.complete && !self.failed
    }

    fn is_failed(&self) -> (r: bool) {
        self.failed
    }

    fn path(&self) -> (r: &Vec<GridPosition>) {
        &self.complete_path
    }
}

} // verus!
