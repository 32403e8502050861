//! The static obstacle grid, cell coordinates, and the parent-edge table
//! from which a completed search reconstructs its path.

use vstd::prelude::*;
use vstd::string::StringSliceAdditionalSpecFns;

verus! {

/// A cell coordinate: `x` is the row index, `y` the column index.
#[derive(Clone, Copy, PartialEq, Eq, Structural, Debug)]
pub struct GridPosition {
    pub x: i32,
    pub y: i32,
}

impl GridPosition {
    pub fn new(x: i32, y: i32) -> (p: Self)
        ensures
            p == (GridPosition { x, y }),
    {
        GridPosition { x, y }
    }

    /// Componentwise sum. The caller keeps both sums inside `i32`; the
    /// solvers only ever offset in-bounds cells by one step, where that holds.
    pub fn add(self, other: &Self) -> (p: Self)
        requires
            i32::MIN <= self.x + other.x <= i32::MAX,
            i32::MIN <= self.y + other.y <= i32::MAX,
        ensures
            p.x == self.x + other.x,
            p.y == self.y + other.y,
    {
        Self::new(self.x + other.x, self.y + other.y)
    }
}

/// The fixed neighbor-exploration order: up, right, down, left.
pub open spec fn delta(i: int) -> GridPosition {
    if i == 0 {
        GridPosition { x: -1i32, y: 0i32 }
    } else if i == 1 {
        GridPosition { x: 0i32, y: 1i32 }
    } else if i == 2 {
        GridPosition { x: 1i32, y: 0i32 }
    } else {
        GridPosition { x: 0i32, y: -1i32 }
    }
}

/// The neighbor of `p` in direction `i`. The casts are exact whenever `p` is
/// an in-bounds cell of a grid whose dimensions fit in `i32`.
pub open spec fn neighbor_at(p: GridPosition, i: int) -> GridPosition {
    GridPosition { x: (p.x + delta(i).x) as i32, y: (p.y + delta(i).y) as i32 }
}

/// Two cells are adjacent when they differ by one step along exactly one axis.
pub open spec fn adjacent(a: GridPosition, b: GridPosition) -> bool {
    ||| (a.x == b.x && (a.y - b.y == 1 || b.y - a.y == 1))
    ||| (a.y == b.y && (a.x - b.x == 1 || b.x - a.x == 1))
}

/// Manhattan distance between two cells, as a mathematical integer.
pub open spec fn manhattan(a: GridPosition, b: GridPosition) -> int {
    abs_diff(a.x as int, b.x as int) + abs_diff(a.y as int, b.y as int)
}

pub open spec fn abs_diff(a: int, b: int) -> int {
    if a >= b {
        a - b
    } else {
        b - a
    }
}

/// The sequence-of-rows abstraction of a table stored as a `Vec` of rows.
pub open spec fn rows_view<T>(g: Vec<Vec<T>>) -> Seq<Seq<T>> {
    g@.map_values(|r: Vec<T>| r@)
}

/// A rectangular table with at least one row and one column, whose
/// dimensions fit in `i32` so that cell coordinates do.
pub open spec fn table_wf<T>(m: Seq<Seq<T>>) -> bool {
    &&& 1 <= m.len() <= i32::MAX
    &&& 1 <= m[0].len() <= i32::MAX
    &&& forall|i: int| 0 <= i < m.len() ==> #[trigger] m[i].len() == m[0].len()
}

pub open spec fn in_bounds<T>(m: Seq<Seq<T>>, p: GridPosition) -> bool {
    0 <= p.x < m.len() && 0 <= p.y < m[0].len()
}

/// A cell is walkable when it lies inside the grid and is not a wall.
pub open spec fn walkable(m: Seq<Seq<u8>>, p: GridPosition) -> bool {
    in_bounds(m, p) && m[p.x as int][p.y as int] == 0
}

/// The static obstacle grid: `0` marks a free cell, any other value a wall.
#[derive(Clone)]
pub struct Maze {
    pub grid: Vec<Vec<u8>>,
}

impl View for Maze {
    type V = Seq<Seq<u8>>;

    open spec fn view(&self) -> Seq<Seq<u8>> {
        rows_view(self.grid)
    }
}

/// Whether the line holds nothing but ignorable whitespace.
fn is_blank_exec(cur: &Vec<u8>) -> (r: bool)
    ensures
        r == is_blank(cur@),
{
    let mut i: usize = 0;
    while i < cur.len()
        invariant
            i <= cur@.len(),
            forall|j: int| 0 <= j < i ==> is_ws(#[trigger] cur@[j]),
        decreases cur@.len() - i,
    {
        let b = cur[i];
        if !(b == 32 || b == 9 || b == 13) {
            assert(!is_ws(cur@[i as int]));
            return false;
        }
        i = i + 1;
    }
    true
}

/// Runs the row machine over one line of text.
fn parse_row_exec(line: &Vec<u8>) -> (r: Option<Vec<u8>>)
    ensures
        r matches Some(v) ==> parse_row(line@) == Some(v@),
        r is None ==> parse_row(line@) is None,
{
    let mut st = RowState::Before;
    let mut acc: Vec<u8> = Vec::new();
    let mut i: usize = 0;
    while i < line.len()
        invariant
            i <= line@.len(),
            parse_row(line@) == row_machine(line@, i as int, st, acc@),
        decreases line@.len() - i,
    {
        let b = line[i];
        let ws = b == 32 || b == 9 || b == 13;
        match st {
            RowState::Before => {
                if ws {
                } else if b == 91 {
                    st = RowState::ExpectCell;
                } else {
                    return None;
                }
            },
            RowState::ExpectCell => {
                if ws {
                } else if b == 48 {
                    st = RowState::AfterCell;
                    acc.push(0);
                } else if b == 49 {
                    st = RowState::AfterCell;
                    acc.push(1);
                } else {
                    return None;
                }
            },
            RowState::AfterCell => {
                if ws {
                } else if b == 44 {
                    st = RowState::ExpectCell;
                } else if b == 93 {
                    st = RowState::Tail;
                } else {
                    return None;
                }
            },
            RowState::Tail => {
                if ws {
                } else if b == 44 {
                    st = RowState::TrailingDone;
                } else {
                    return None;
                }
            },
            RowState::TrailingDone => {
                if !ws {
                    return None;
                }
            },
        }
        i = i + 1;
    }
    match st {
        RowState::Tail => Some(acc),
        RowState::TrailingDone => Some(acc),
        _ => None,
    }
}

/// Folds one finished line into the rows collected so far.
fn finish_line(cur: &Vec<u8>, rows: &mut Vec<Vec<u8>>) -> (ok: bool)
    ensures
        ok ==> line_done(cur@, rows_view(*old(rows))) == Some(rows_view(*final(rows))),
        !ok ==> line_done(cur@, rows_view(*old(rows))) is None,
{
    if is_blank_exec(cur) {
        true
    } else {
        match parse_row_exec(cur) {
            Some(v) => {
                let ghost pre = rows_view(*rows);
                let ghost vv = v@;
                rows.push(v);
                proof {
                    assert(rows_view(*rows) =~~= pre.push(vv));
                }
                true
            },
            None => false,
        }
    }
}

impl Maze {
    pub open spec fn wf(&self) -> bool {
        table_wf(self@)
    }

    /// Parses the text encoding of a grid: newline-separated bracketed rows
    /// of comma-separated `0`/`1` cells (`0` free, `1` wall), blank lines
    /// ignored, forming a rectangle of at least one row and one column.
    /// Malformed input is a load-time error, never a search-time concern.
    pub fn new_from_string(input: &str) -> (r: Result<Maze, ConstructionError>)
        ensures
            r matches Ok(m) ==> parse_grid(input.spec_bytes()) == Some(m@) && m.wf(),
            r is Err ==> parse_grid(input.spec_bytes()) is None,
    {
        let bytes = input.as_bytes();
        let ghost s = input.spec_bytes();
        let n = bytes.len();
        let mut rows: Vec<Vec<u8>> = Vec::new();
        let mut cur: Vec<u8> = Vec::new();
        proof {
            assert(cur@ =~= Seq::<u8>::empty());
            assert(rows_view(rows) =~= Seq::<Seq<u8>>::empty());
        }
        let mut i: usize = 0;
        while i < n
            invariant
                s == input.spec_bytes(),
                bytes@ == s,
                n == s.len(),
                i <= n,
                split_parse(s, 0, Seq::<u8>::empty(), Seq::<Seq<u8>>::empty()) == split_parse(
                    s,
                    i as int,
                    cur@,
                    rows_view(rows),
                ),
            decreases n - i,
        {
            let ghost prows = rows_view(rows);
            let ghost pcur = cur@;
            let b = bytes[i];
            assert(b == s[i as int]);
            if b == 10 {
                if !finish_line(&cur, &mut rows) {
                    proof {
                        assert(line_done(pcur, prows) is None);
                        assert(split_parse(s, i as int, pcur, prows) is None);
                        assert(parse_grid(s) is None);
                    }
                    return Err(ConstructionError);
                }
                cur.clear();
                proof {
                    assert(cur@ =~= Seq::<u8>::empty());
                    assert(split_parse(s, i as int, pcur, prows) == split_parse(
                        s,
                        i as int + 1,
                        cur@,
                        rows_view(rows),
                    ));
                }
            } else {
                cur.push(b);
                proof {
                    assert(cur@ =~= pcur.push(b));
                    assert(split_parse(s, i as int, pcur, prows) == split_parse(
                        s,
                        i as int + 1,
                        cur@,
                        rows_view(rows),
                    ));
                }
            }
            i = i + 1;
        }
        let ghost prows = rows_view(rows);
        let ghost pcur = cur@;
        if !finish_line(&cur, &mut rows) {
            proof {
                assert(line_done(pcur, prows) is None);
                assert(split_parse(s, n as int, pcur, prows) is None);
                assert(parse_grid(s) is None);
            }
            return Err(ConstructionError);
        }
        let ghost parsed = rows_view(rows);
        proof {
            assert(split_parse(s, n as int, pcur, prows) == Some(parsed));
            assert(split_parse(s, 0, Seq::<u8>::empty(), Seq::<Seq<u8>>::empty()) == Some(parsed));
        }
        if rows.len() < 1 || rows.len() > 0x7fff_ffff {
            proof {
                assert(parse_grid(s) is None);
            }
            return Err(ConstructionError);
        }
        if rows[0].len() < 1 || rows[0].len() > 0x7fff_ffff {
            proof {
                assert(parsed[0].len() < 1 || parsed[0].len() > 0x7fff_ffff);
                assert(parse_grid(s) is None);
            }
            return Err(ConstructionError);
        }
        let cols = rows[0].len();
        let mut k: usize = 1;
        while k < rows.len()
            invariant
                1 <= k <= rows@.len(),
                parsed == rows_view(rows),
                1 <= cols <= 0x7fff_ffff,
                1 <= rows@.len() <= 0x7fff_ffff,
                cols == rows_view(rows)[0].len(),
                s == input.spec_bytes(),
                split_parse(s, 0, Seq::<u8>::empty(), Seq::<Seq<u8>>::empty()) == Some(parsed),
                forall|j: int| 0 <= j < k ==> #[trigger] rows_view(rows)[j].len() == cols,
            decreases rows@.len() - k,
        {
            if rows[k].len() != cols {
                proof {
                    assert(parsed[k as int].len() != cols);
                    assert(parse_grid(s) is None);
                }
                return Err(ConstructionError);
            }
            assert(rows_view(rows)[k as int].len() == cols);
            k = k + 1;
        }
        let m = Maze { grid: rows };
        proof {
            assert(parse_grid(s) == Some(m@));
        }
        Ok(m)
    }

    /// Whether the cell position is inside the grid and not a wall.
    pub fn is_cell_valid(&self, position: &GridPosition) -> (r: bool)
        requires
            self.wf(),
        ensures
            r == walkable(self@, *position),
    {
        if position.x >= 0 && (position.x as usize) < self.grid.len() && position.y >= 0 && (
        position.y as usize) < self.grid[0].len() {
            assert(self@[position.x as int].len() == self@[0].len());
            self.grid[position.x as usize][position.y as usize] == 0
        } else {
            false
        }
    }
}

/// Returned by `Maze::new_from_string` when the text encoding of the grid is
/// malformed: a fatal load-time condition that never enters the search core.
#[derive(Clone, Copy, PartialEq, Eq, Structural, Debug)]
pub struct ConstructionError;

/// Space, tab, or carriage return: ignorable inside and around rows.
pub open spec fn is_ws(b: u8) -> bool {
    b == 32 || b == 9 || b == 13
}

/// Parser position inside one bracketed row.
#[derive(Clone, Copy, PartialEq, Eq, Structural, Debug)]
pub enum RowState {
    /// Before the opening bracket.
    Before,
    /// A cell must follow: just after `[` or a separating comma.
    ExpectCell,
    /// Just after a cell: a comma or the closing bracket may follow.
    AfterCell,
    /// After the closing bracket; one trailing comma is allowed.
    Tail,
    /// After the trailing comma.
    TrailingDone,
}

/// One bracketed row, scanned byte by byte from position `i` in state `st`
/// with the cells seen so far in `acc`: `[` then `0`/`1` cells separated by
/// commas, then `]` and at most one trailing comma, whitespace allowed
/// between tokens. `None` on any violation.
pub open spec fn row_machine(s: Seq<u8>, i: int, st: RowState, acc: Seq<u8>) -> Option<Seq<u8>>
    decreases s.len() - i,
{
    if i < 0 || i >= s.len() {
        if st is Tail || st is TrailingDone {
            Some(acc)
        } else {
            None
        }
    } else {
        let b = s[i];
        match st {
            RowState::Before => if is_ws(b) {
                row_machine(s, i + 1, RowState::Before, acc)
            } else if b == 91 {
                row_machine(s, i + 1, RowState::ExpectCell, acc)
            } else {
                None
            },
            RowState::ExpectCell => if is_ws(b) {
                row_machine(s, i + 1, RowState::ExpectCell, acc)
            } else if b == 48 {
                row_machine(s, i + 1, RowState::AfterCell, acc.push(0u8))
            } else if b == 49 {
                row_machine(s, i + 1, RowState::AfterCell, acc.push(1u8))
            } else {
                None
            },
            RowState::AfterCell => if is_ws(b) {
                row_machine(s, i + 1, RowState::AfterCell, acc)
            } else if b == 44 {
                row_machine(s, i + 1, RowState::ExpectCell, acc)
            } else if b == 93 {
                row_machine(s, i + 1, RowState::Tail, acc)
            } else {
                None
            },
            RowState::Tail => if is_ws(b) {
                row_machine(s, i + 1, RowState::Tail, acc)
            } else if b == 44 {
                row_machine(s, i + 1, RowState::TrailingDone, acc)
            } else {
                None
            },
            RowState::TrailingDone => if is_ws(b) {
                row_machine(s, i + 1, RowState::TrailingDone, acc)
            } else {
                None
            },
        }
    }
}

/// The cell values of one row of text, or `None` when it is malformed.
pub open spec fn parse_row(line: Seq<u8>) -> Option<Seq<u8>> {
    row_machine(line, 0, RowState::Before, Seq::<u8>::empty())
}

/// A line of nothing but ignorable whitespace.
pub open spec fn is_blank(line: Seq<u8>) -> bool {
    forall|i: int| 0 <= i < line.len() ==> is_ws(#[trigger] line[i])
}

/// Folds one finished line into the rows collected so far: blank lines are
/// skipped, anything else must parse as a row.
pub open spec fn line_done(cur: Seq<u8>, rows: Seq<Seq<u8>>) -> Option<Seq<Seq<u8>>> {
    if is_blank(cur) {
        Some(rows)
    } else {
        match parse_row(cur) {
            Some(r) => Some(rows.push(r)),
            None => None,
        }
    }
}

/// Splits the input at newlines from position `i` on, parsing each finished
/// line; `cur` holds the bytes of the unfinished line, `rows` the rows so
/// far.
pub open spec fn split_parse(s: Seq<u8>, i: int, cur: Seq<u8>, rows: Seq<Seq<u8>>) -> Option<
    Seq<Seq<u8>>,
>
    decreases s.len() - i,
{
    if i < 0 || i >= s.len() {
        line_done(cur, rows)
    } else if s[i] == 10 {
        match line_done(cur, rows) {
            Some(rs) => split_parse(s, i + 1, Seq::<u8>::empty(), rs),
            None => None,
        }
    } else {
        split_parse(s, i + 1, cur.push(s[i]), rows)
    }
}

/// The grid encoded by the input text: newline-separated bracketed rows of
/// `0`/`1` cells, blank lines ignored. The rows must form a rectangle of at
/// least one row and one column whose dimensions fit in `i32`; anything else
/// is malformed.
pub open spec fn parse_grid(s: Seq<u8>) -> Option<Seq<Seq<u8>>> {
    match split_parse(s, 0, Seq::<u8>::empty(), Seq::<Seq<u8>>::empty()) {
        Some(rows) => if rows.len() >= 1 && rows.len() <= i32::MAX && rows[0].len() >= 1
            && rows[0].len() <= i32::MAX && (forall|i: int|
            0 <= i < rows.len() ==> #[trigger] rows[i].len() == rows[0].len()) {
            Some(rows)
        } else {
            None
        },
        None => None,
    }
}

/// Returned by `build_path` when the recorded parent chain does not connect
/// the goal back to the start.
#[derive(Clone, Copy, PartialEq, Eq, Structural, Debug)]
pub struct PathNotFound;

/// Sentinel marking a cell whose parent has never been recorded.
pub open spec fn is_unvisited(p: GridPosition) -> bool {
    p.x == -1 && p.y == -1
}

/// The cells from `start` to `cur`, inclusive and in forward order, obtained
/// by walking the recorded parents backward from `cur` for at most `fuel`
/// steps; `None` when the walk leaves the table, hits the unvisited sentinel,
/// or runs out of fuel before reaching `start`.
pub open spec fn chain_to(
    edges: Seq<Seq<GridPosition>>,
    start: GridPosition,
    cur: GridPosition,
    fuel: nat,
) -> Option<Seq<GridPosition>>
    decreases fuel,
{
    if cur == start {
        Some(seq![start])
    } else if fuel == 0 {
        None
    } else if !in_bounds(edges, cur) {
        None
    } else {
        let parent = edges[cur.x as int][cur.y as int];
        if is_unvisited(parent) {
            None
        } else {
            match chain_to(edges, start, parent, (fuel - 1) as nat) {
                Some(s) => Some(s.push(cur)),
                None => None,
            }
        }
    }
}

/// The step budget `build_path` grants the backward walk: one cell of the
/// table per step, beyond the goal cell the walk starts from.
pub open spec fn reconstruct_fuel(m: Seq<Seq<GridPosition>>) -> nat {
    (m.len() * m[0].len() - 1) as nat
}

pub open spec fn opt_extend(o: Option<Seq<GridPosition>>, t: Seq<GridPosition>) -> Option<
    Seq<GridPosition>,
> {
    match o {
        Some(s) => Some(s + t),
        None => None,
    }
}

/// Sparse parent-pointer table over grid cells, used to reconstruct a path
/// once a search has discovered the goal.
pub struct MazePathEdges {
    pub edges: Vec<Vec<GridPosition>>,
}

impl View for MazePathEdges {
    type V = Seq<Seq<GridPosition>>;

    open spec fn view(&self) -> Seq<Seq<GridPosition>> {
        rows_view(self.edges)
    }
}

impl MazePathEdges {
    pub open spec fn wf(&self) -> bool {
        table_wf(self@)
    }

    /// One table cell per grid cell, all marked unvisited.
    pub fn new_with_maze(maze: &Maze) -> (r: Self)
        requires
            maze.wf(),
        ensures
            r.wf(),
            r@.len() == maze@.len(),
            r@[0].len() == maze@[0].len(),
            forall|i: int, j: int|
                0 <= i < r@.len() && 0 <= j < r@[0].len() ==> is_unvisited(#[trigger] r@[i][j]),
    {
        let rows = maze.grid.len();
        let cols = maze.grid[0].len();
        MazePathEdges { edges: filled_table(rows, cols, GridPosition { x: -1, y: -1 }) }
    }

    /// Unconditionally overwrites the stored parent of `dest` with `source`.
    pub fn add_edge(&mut self, source: &GridPosition, dest: &GridPosition)
        requires
            old(self).wf(),
            in_bounds(old(self)@, *dest),
        ensures
            final(self).wf(),
            final(self)@ == old(self)@.update(
                dest.x as int,
                old(self)@[dest.x as int].update(dest.y as int, *source),
            ),
    {
        let ghost pre = self@;
        assert(self@[dest.x as int].len() == self@[0].len());
        self.edges[dest.x as usize][dest.y as usize] = *source;
        proof {
            assert(self@ =~~= pre.update(
                dest.x as int,
                pre[dest.x as int].update(dest.y as int, *source),
            ));
        }
    }

    /// Walks backward from `end` along recorded parents until `start` is
    /// reached, visiting at most `rows * cols` cells, and returns the cells
    /// from `start` to `end` in forward order; broken, absent, or cyclic
    /// parent data yields `PathNotFound` instead of looping or panicking.
    #[verifier::rlimit(50)]
    pub fn build_path(&self, start: &GridPosition, end: &GridPosition) -> (r: Result<
        Vec<GridPosition>,
        PathNotFound,
    >)
        requires
            self.wf(),
        ensures
            r matches Ok(p) ==> chain_to(self@, *start, *end, reconstruct_fuel(self@)) == Some(p@)
                && 1 <= p@.len() <= self@.len() * self@[0].len(),
            r is Err ==> chain_to(self@, *start, *end, reconstruct_fuel(self@)) is None,
    {
        let rows = self.edges.len();
        let cols = self.edges[0].len();
        assert(rows as u64 * cols as u64 <= 0x4000_0000_0000_0000u64 && rows as u64 * cols as u64
            >= 1) by (nonlinear_arith)
            requires
                1 <= rows <= 0x7fff_ffffusize,
                1 <= cols <= 0x7fff_ffffusize,
        ;
        let fuel: u64 = rows as u64 * cols as u64 - 1;
        let ghost all = reconstruct_fuel(self@);
        assert(all == fuel as nat);

        proof {
            assert(self@.len() * self@[0].len() >= 1) by (nonlinear_arith)
                requires
                    self@.len() >= 1,
                    self@[0].len() >= 1,
            ;
        }
        let mut path: Vec<GridPosition> = Vec::new();
        let mut cur: GridPosition = *end;
        path.push(cur);
        let mut steps: u64 = 0;
        proof {
            assert(path@.drop_first() =~= Seq::<GridPosition>::empty());
            if let Some(s) = chain_to(self@, *start, *end, all) {
                assert(s + path@.drop_first() =~= s);
            }
        }
        loop
            invariant
                self.wf(),
                rows == self@.len(),
                cols == self@[0].len(),
                fuel == all,
                all == reconstruct_fuel(self@),
                self@.len() * self@[0].len() >= 1,
                steps <= fuel,
                path@.len() == steps + 1,
                path@[0] == cur,
                path@[path@.len() - 1] == *end,
                opt_extend(chain_to(self@, *start, cur, (fuel - steps) as nat), path@.drop_first())
                    == chain_to(self@, *start, *end, all),
            decreases fuel - steps,
        {
            if cur.x == start.x && cur.y == start.y {
                proof {
                    assert(cur == *start);
                    assert(chain_to(self@, *start, cur, (fuel - steps) as nat) == Some(
                        seq![*start],
                    ));
                    assert(seq![*start] + path@.drop_first() =~= path@);
                    assert(chain_to(self@, *start, *end, all) == Some(path@));
                }
                return Ok(path);
            }
            if steps >= fuel {
                proof {
                    assert(cur != *start);
                    assert((fuel - steps) as nat == 0);
                    assert(chain_to(self@, *start, cur, (fuel - steps) as nat) is None);
                    assert(chain_to(self@, *start, *end, all) is None);
                }
                return Err(PathNotFound);
            }
            let in_b = cur.x >= 0 && (cur.x as usize) < rows && cur.y >= 0 && (cur.y as usize)
                < cols;
            if !in_b {
                proof {
                    assert(cur != *start);
                    assert(!in_bounds(self@, cur));
                    assert(chain_to(self@, *start, cur, (fuel - steps) as nat) is None);
                    assert(chain_to(self@, *start, *end, all) is None);
                }
                return Err(PathNotFound);
            }
            assert(self@[cur.x as int].len() == self@[0].len());
            let parent = self.edges[cur.x as usize][cur.y as usize];
            if parent.x == -1 && parent.y == -1 {
                proof {
                    assert(cur != *start);
                    assert(is_unvisited(parent));
                    assert(chain_to(self@, *start, cur, (fuel - steps) as nat) is None);
                    assert(chain_to(self@, *start, *end, all) is None);
                }
                return Err(PathNotFound);
            }
            let ghost path_old = path@;
            let ghost left = (fuel - steps) as nat;
            path.insert(0, parent);
            proof {
                assert(path@ =~= seq![parent] + path_old);
                assert(path@.drop_first() =~= path_old);
                assert(chain_to(self@, *start, cur, left) == (match chain_to(
                    self@,
                    *start,
                    parent,
                    (left - 1) as nat,
                ) {
                    Some(s) => Some(s.push(cur)),
                    None => None::<Seq<GridPosition>>,
                }));
                if let Some(s) = chain_to(self@, *start, parent, (left - 1) as nat) {
                    assert(s.push(cur) + path_old.drop_first() =~= s + path_old);
                }
            }
            cur = parent;
            steps = steps + 1;
        }
    }
}

/// Every recorded parent edge joins two adjacent cells: the child cell is
/// walkable, and the parent is either walkable or the search origin (the
/// origin may legitimately be a wall; the searches still expand outward from
/// it). All three solvers preserve this over their edge tables.
pub open spec fn edges_connect(
    m: Seq<Seq<u8>>,
    e: Seq<Seq<GridPosition>>,
    origin: GridPosition,
) -> bool {
    forall|i: int, j: int|
        0 <= i < e.len() && 0 <= j < e[0].len() && !is_unvisited(#[trigger] e[i][j]) ==> {
            let child = GridPosition { x: i as i32, y: j as i32 };
            &&& walkable(m, child)
            &&& adjacent(e[i][j], child)
            &&& (walkable(m, e[i][j]) || e[i][j] == origin)
        }
}

/// A valid walk from `start` to `end`: consecutive cells are adjacent and
/// every cell is free.
pub open spec fn valid_walk(
    m: Seq<Seq<u8>>,
    start: GridPosition,
    end: GridPosition,
    p: Seq<GridPosition>,
) -> bool {
    &&& p.len() >= 1
    &&& p[0] == start
    &&& p[p.len() - 1] == end
    &&& forall|i: int| 0 <= i < p.len() - 1 ==> adjacent(#[trigger] p[i], p[i + 1])
    &&& forall|i: int| 0 <= i < p.len() ==> walkable(m, #[trigger] p[i])
}

/// A reconstructed chain over a well-connected edge table runs from `start`
/// to `cur` through adjacent cells, all of them walkable past the first.
pub proof fn lemma_chain_is_walk(
    m: Seq<Seq<u8>>,
    e: Seq<Seq<GridPosition>>,
    origin: GridPosition,
    start: GridPosition,
    cur: GridPosition,
    fuel: nat,
    p: Seq<GridPosition>,
)
    requires
        edges_connect(m, e, origin),
        chain_to(e, start, cur, fuel) == Some(p),
    ensures
        1 <= p.len() <= fuel + 1,
        p[0] == start,
        p[p.len() - 1] == cur,
        forall|i: int| 0 <= i < p.len() - 1 ==> adjacent(#[trigger] p[i], p[i + 1]),
        forall|i: int| 1 <= i < p.len() ==> walkable(m, #[trigger] p[i]),
        forall|i: int| 0 <= i < p.len() ==> walkable(m, #[trigger] p[i]) || p[i] == origin
            || p[i] == start,
    decreases fuel,
{
    if cur == start {
        assert(p =~= seq![start]);
    } else {
        let parent = e[cur.x as int][cur.y as int];
        let s = chain_to(e, start, parent, (fuel - 1) as nat)->Some_0;
        lemma_chain_is_walk(m, e, origin, start, parent, (fuel - 1) as nat, s);
        assert(p =~= s.push(cur));
        assert(in_bounds(e, cur));
        assert(!is_unvisited(e[cur.x as int][cur.y as int]));
        assert(GridPosition { x: cur.x as int as i32, y: cur.y as int as i32 } == cur);
        assert(walkable(m, cur) && adjacent(parent, cur));
        assert forall|i: int| 0 <= i < p.len() - 1 implies adjacent(#[trigger] p[i], p[i + 1]) by {
            if i < s.len() - 1 {
                assert(p[i] == s[i] && p[i + 1] == s[i + 1]);
            } else {
                assert(p[i] == s[s.len() - 1] && p[i + 1] == cur);
            }
        }
    }
}

/// Structure of a reconstructed chain: it starts at `start`, never returns
/// there, and each cell's predecessor is its recorded parent.
proof fn lemma_chain_structure(
    e: Seq<Seq<GridPosition>>,
    start: GridPosition,
    cur: GridPosition,
    fuel: nat,
    p: Seq<GridPosition>,
)
    requires
        chain_to(e, start, cur, fuel) == Some(p),
    ensures
        p.len() >= 1,
        p[0] == start,
        p[p.len() - 1] == cur,
        forall|k: int| 1 <= k < p.len() ==> #[trigger] p[k] != start,
        forall|k: int|
            1 <= k < p.len() ==> in_bounds(e, #[trigger] p[k]) && p[k - 1] == e[p[k].x as int][p[k].y as int],
    decreases fuel,
{
    if cur == start {
        assert(p =~= seq![start]);
    } else {
        let parent = e[cur.x as int][cur.y as int];
        let s = chain_to(e, start, parent, (fuel - 1) as nat)->Some_0;
        lemma_chain_structure(e, start, parent, (fuel - 1) as nat, s);
        assert(p =~= s.push(cur));
        assert forall|k: int|
            1 <= k < p.len() implies in_bounds(e, #[trigger] p[k]) && p[k - 1] == e[p[k].x as int][
        p[k].y as int] by {
            if k < s.len() {
                assert(p[k] == s[k] && p[k - 1] == s[k - 1]);
            } else {
                assert(p[k] == cur && p[k - 1] == s[s.len() - 1]);
            }
        }
    }
}

/// Distinctness along a chain: were two cells equal, their predecessors
/// would be equal too, all the way down to the start, which a later cell
/// never equals.
proof fn lemma_chain_no_dup(
    e: Seq<Seq<GridPosition>>,
    start: GridPosition,
    p: Seq<GridPosition>,
    i: int,
    j: int,
)
    requires
        p.len() >= 1,
        p[0] == start,
        forall|k: int| 1 <= k < p.len() ==> #[trigger] p[k] != start,
        forall|k: int|
            1 <= k < p.len() ==> in_bounds(e, #[trigger] p[k]) && p[k - 1] == e[p[k].x as int][p[k].y as int],
        0 <= i < j < p.len(),
    ensures
        p[i] != p[j],
    decreases i,
{
    if i == 0 {
        assert(p[j] != start);
    } else {
        lemma_chain_no_dup(e, start, p, i - 1, j - 1);
        if p[i] == p[j] {
            assert(p[i - 1] == e[p[i].x as int][p[i].y as int]);
            assert(p[j - 1] == e[p[j].x as int][p[j].y as int]);
        }
    }
}

/// A reconstructed chain is simple: it visits no cell twice.
pub proof fn lemma_chain_is_simple(
    e: Seq<Seq<GridPosition>>,
    start: GridPosition,
    cur: GridPosition,
    fuel: nat,
    p: Seq<GridPosition>,
)
    requires
        chain_to(e, start, cur, fuel) == Some(p),
    ensures
        forall|i: int, j: int| 0 <= i < j < p.len() ==> p[i] != p[j],
{
    lemma_chain_structure(e, start, cur, fuel, p);
    assert forall|i: int, j: int| 0 <= i < j < p.len() implies p[i] != p[j] by {
        lemma_chain_no_dup(e, start, p, i, j);
    }
}

/// The neighbor offset for direction `i`: up, right, down, left.
pub(crate) fn delta_exec(i: usize) -> (d: GridPosition)
    requires
        i < 4,
    ensures
        d == delta(i as int),
        -1 <= d.x <= 1,
        -1 <= d.y <= 1,
{
    if i == 0 {
        GridPosition { x: -1, y: 0 }
    } else if i == 1 {
        GridPosition { x: 0, y: 1 }
    } else if i == 2 {
        GridPosition { x: 1, y: 0 }
    } else {
        GridPosition { x: 0, y: -1 }
    }
}

/// Manhattan distance between two cells; the intermediate differences are
/// taken in `i64`, so no coordinate pair can overflow.
pub fn manhattan_exec(a: &GridPosition, b: &GridPosition) -> (r: u64)
    ensures
        r == manhattan(*a, *b),
{
    let dx = (a.x as i64) - (b.x as i64);
    let dy = (a.y as i64) - (b.y as i64);
    let adx = if dx < 0 {
        -dx
    } else {
        dx
    };
    let ady = if dy < 0 {
        -dy
    } else {
        dy
    };
    (adx + ady) as u64
}

/// A row holding `n` copies of `v`.
pub(crate) fn filled_row<T: Copy>(n: usize, v: T) -> (r: Vec<T>)
    ensures
        r@.len() == n,
        forall|j: int| 0 <= j < n ==> r@[j] == v,
{
    let mut r: Vec<T> = Vec::new();
    let mut j: usize = 0;
    while j < n
        invariant
            j <= n,
            r@.len() == j,
            forall|k: int| 0 <= k < j ==> r@[k] == v,
        decreases n - j,
    {
        r.push(v);
        j = j + 1;
    }
    r
}

/// A `rows` by `cols` table holding `v` everywhere.
pub(crate) fn filled_table<T: Copy>(rows: usize, cols: usize, v: T) -> (t: Vec<Vec<T>>)
    ensures
        rows_view(t).len() == rows,
        forall|i: int| 0 <= i < rows ==> #[trigger] rows_view(t)[i].len() == cols,
        forall|i: int, j: int|
            0 <= i < rows && 0 <= j < cols ==> #[trigger] rows_view(t)[i][j] == v,
{
    let mut t: Vec<Vec<T>> = Vec::new();
    let mut i: usize = 0;
    while i < rows
        invariant
            i <= rows,
            t@.len() == i,
            forall|k: int| 0 <= k < i ==> #[trigger] t@[k]@.len() == cols,
            forall|k: int, j: int| 0 <= k < i && 0 <= j < cols ==> #[trigger] t@[k]@[j] == v,
        decreases rows - i,
    {
        t.push(filled_row(cols, v));
        i = i + 1;
    }
    t
}

} // verus!
