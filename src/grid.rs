use vstd::prelude::*;

use crate::line::{cells_ok, lemma_wall_tile_stays, lemma_tiles_of_append, lemma_tiles_of_len, tiles_of, MERGE_LIMIT, lemma_slide_line_cells, mergeable, slide_line, slide_pass};
use crate::tile::{is_pow2, is_tile_value};

verus! {

/// A cell of the grid: column and row, both counted from 0 at the top-left corner.
#[derive(Clone, Copy, PartialEq, Eq, Debug, Structural)]
pub struct Cell {
    pub col: usize,
    pub row: usize,
}

/// The four ways the tiles can be pushed.
#[derive(Clone, Copy, PartialEq, Eq, Debug, Structural)]
pub enum Direction {
    Up,
    Down,
    Left,
    Right,
}

impl Direction {
    /// The unit step (dx, dy) of this direction.
    pub open spec fn delta_spec(self) -> (int, int) {
        match self {
            Direction::Up => (0, -1),
            Direction::Down => (0, 1),
            Direction::Left => (-1, 0),
            Direction::Right => (1, 0),
        }
    }

    /// The unit step (dx, dy) of this direction.
    pub fn delta(self) -> (r: (i8, i8))
        ensures
            (r.0 as int, r.1 as int) == self.delta_spec(),
    {
        match self {
            Direction::Up => (0, -1),
            Direction::Down => (0, 1),
            Direction::Left => (-1, 0),
            Direction::Right => (1, 0),
        }
    }
}

/// The cell (col, row) at position `i` of line `k`, where lines run along the direction
/// of travel and position 0 touches the wall the tiles move toward.
pub open spec fn line_cell(dir: Direction, n: int, k: int, i: int) -> (int, int) {
    match dir {
        Direction::Left => (i, k),
        Direction::Right => (n - 1 - i, k),
        Direction::Up => (k, i),
        Direction::Down => (k, n - 1 - i),
    }
}

/// The line and position (k, i) of cell (col, row): the inverse of `line_cell`.
pub open spec fn line_pos(dir: Direction, n: int, col: int, row: int) -> (int, int) {
    match dir {
        Direction::Left => (row, col),
        Direction::Right => (row, n - 1 - col),
        Direction::Up => (col, row),
        Direction::Down => (col, n - 1 - row),
    }
}

/// Line `k` of a board for a direction, read from the wall outward.
pub open spec fn line_of(b: Seq<Seq<u64>>, n: int, dir: Direction, k: int) -> Seq<u64> {
    Seq::new(n as nat, |i: int| b[line_cell(dir, n, k, i).1][line_cell(dir, n, k, i).0])
}

/// The board after a move: every line merged and slid toward the wall.
pub open spec fn moved_board(b: Seq<Seq<u64>>, n: int, dir: Direction) -> Seq<Seq<u64>> {
    Seq::new(
        n as nat,
        |row: int|
            Seq::new(
                n as nat,
                |col: int|
                    slide_line(line_of(b, n, dir, line_pos(dir, n, col, row).0))[line_pos(
                        dir,
                        n,
                        col,
                        row,
                    ).1],
            ),
    )
}

/// An `n` by `n` board with every cell empty.
pub open spec fn empty_board(n: int) -> Seq<Seq<u64>> {
    Seq::new(n as nat, |r: int| Seq::new(n as nat, |c: int| 0u64))
}

/// An `n` by `n` board whose cells are empty (0) or hold a tile value.
pub open spec fn board_ok(b: Seq<Seq<u64>>, n: int) -> bool {
    &&& b.len() == n
    &&& forall|r: int| 0 <= r < n ==> (#[trigger] b[r]).len() == n && cells_ok(b[r])
}

/// Every tile of the board can still be doubled within a `u64`.
pub open spec fn board_mergeable(b: Seq<Seq<u64>>) -> bool {
    forall|r: int| 0 <= r < b.len() ==> mergeable(#[trigger] b[r])
}

/// The lines of a sound board are sound and as long as the board is wide.
pub proof fn lemma_line_of_ok(b: Seq<Seq<u64>>, n: int, dir: Direction, k: int)
    requires
        board_ok(b, n),
        board_mergeable(b),
        0 <= k < n,
    ensures
        line_of(b, n, dir, k).len() == n,
        cells_ok(line_of(b, n, dir, k)),
        mergeable(line_of(b, n, dir, k)),
{
    let l = line_of(b, n, dir, k);
    assert forall|i: int| 0 <= i < n implies l[i] == 0 || is_tile_value(l[i] as nat) by {
        let rc = line_cell(dir, n, k, i);
        assert(cells_ok(b[rc.1]));
    }
    assert forall|i: int| 0 <= i < n implies l[i] <= MERGE_LIMIT by {
        let rc = line_cell(dir, n, k, i);
        assert(mergeable(b[rc.1]));
    }
}

/// The cell at position `i` of line `k`.
fn cell_on_line(dir: Direction, n: usize, k: usize, i: usize) -> (c: Cell)
    requires
        k < n,
        i < n,
    ensures
        (c.col as int, c.row as int) == line_cell(dir, n as int, k as int, i as int),
        c.col < n,
        c.row < n,
{
    match dir {
        Direction::Left => Cell { col: i, row: k },
        Direction::Right => Cell { col: n - 1 - i, row: k },
        Direction::Up => Cell { col: k, row: i },
        Direction::Down => Cell { col: k, row: n - 1 - i },
    }
}

/// The line and position of a cell.
fn position_on_line(dir: Direction, n: usize, col: usize, row: usize) -> (r: (usize, usize))
    requires
        col < n,
        row < n,
    ensures
        (r.0 as int, r.1 as int) == line_pos(dir, n as int, col as int, row as int),
        r.0 < n,
        r.1 < n,
{
    match dir {
        Direction::Left => (row, col),
        Direction::Right => (row, n - 1 - col),
        Direction::Up => (col, row),
        Direction::Down => (col, n - 1 - row),
    }
}

/// Number of empty cells on a line.
pub open spec fn empties_in(s: Seq<u64>) -> int {
    s.len() - tiles_of(s).len()
}

/// Number of empty cells in the rows above `row`.
pub open spec fn empties_above(b: Seq<Seq<u64>>, row: int) -> int
    decreases row,
{
    if row <= 0 {
        0
    } else {
        empties_above(b, row - 1) + empties_in(b[row - 1])
    }
}

/// Number of empty cells before (col, row), reading the board row by row.
pub open spec fn empties_before(b: Seq<Seq<u64>>, col: int, row: int) -> int {
    empties_above(b, row) + empties_in(b[row].take(col))
}

/// Number of empty cells on the board.
pub open spec fn empty_total(b: Seq<Seq<u64>>) -> int {
    empties_above(b, b.len() as int)
}

/// The value of a new tile for a draw: 4 for one draw in ten, 2 otherwise.
pub open spec fn spawn_value(draw: int) -> u64 {
    if draw % 10 == 0 {
        4
    } else {
        2
    }
}

/// Where a new tile lands for a cell draw, and what value it takes for a value draw:
/// the empty cell numbered `cell_draw % empty_total(b)` in row-by-row order.
pub open spec fn spawn_ok(b: Seq<Seq<u64>>, cell_draw: int, value_draw: int, c: Cell, v: u64) -> bool {
    &&& c.row < b.len()
    &&& c.col < b[c.row as int].len()
    &&& b[c.row as int][c.col as int] == 0
    &&& empties_before(b, c.col as int, c.row as int) == cell_draw % empty_total(b)
    &&& v == spawn_value(value_draw)
}

/// A move that changes nothing changes nothing when made again: the board stays as it
/// was both times, so neither move is followed by a new tile.
pub proof fn lemma_noop_repeats(b: Seq<Seq<u64>>, n: int, dir: Direction)
    requires
        moved_board(b, n, dir) == b,
    ensures
        moved_board(moved_board(b, n, dir), n, dir) == moved_board(b, n, dir),
        moved_board(moved_board(b, n, dir), n, dir) == b,
{
}

/// A tile against the wall that the tiles move toward stays in its cell: it never passes
/// column or row 0 or `n - 1`. It keeps its value, or doubles where the next tile of its
/// line equals it.
pub proof fn lemma_wall_tile_stays_on_board(b: Seq<Seq<u64>>, n: int, dir: Direction, col: int, row: int)
    requires
        board_ok(b, n),
        board_mergeable(b),
        0 <= col < n,
        0 <= row < n,
        line_pos(dir, n, col, row).1 == 0,
        b[row][col] != 0,
    ensures
        moved_board(b, n, dir)[row][col] != 0,
        moved_board(b, n, dir)[row][col] == b[row][col] || moved_board(b, n, dir)[row][col] == 2
            * b[row][col],
{
    let k = line_pos(dir, n, col, row).0;
    let l = line_of(b, n, dir, k);
    lemma_line_of_ok(b, n, dir, k);
    assert(l[0] == b[row][col]);
    lemma_wall_tile_stays(l);
    assert(b[row][col] <= MERGE_LIMIT) by {
        assert(mergeable(b[row]));
    }
}

/// Of any ten consecutive value draws exactly one gives a 4, so one new tile in ten
/// is a 4 and nine in ten are a 2.
pub proof fn lemma_one_four_in_ten(d: int)
    requires
        d >= 0,
    ensures
        Set::new(|i: int| 0 <= i < 10 && spawn_value(d + i) == 4) == set![(10 - d % 10) % 10],
        forall|i: int| 0 <= i < 10 ==> #[trigger] spawn_value(d + i) == 2 || spawn_value(d + i) == 4,
{
    let j = (10 - d % 10) % 10;
    assert forall|i: int| 0 <= i < 10 implies (#[trigger] spawn_value(d + i) == 4) == (i == j) by {
        assert((d + i) % 10 == (d % 10 + i) % 10) by (nonlinear_arith)
            requires
                d >= 0,
                i >= 0,
        ;
    }
    assert(Set::new(|i: int| 0 <= i < 10 && spawn_value(d + i) == 4) =~= set![j]);
}

/// Cell `a` comes before cell `b` reading the board row by row.
pub open spec fn cell_before(a: Cell, b: Cell) -> bool {
    a.row < b.row || (a.row == b.row && a.col < b.col)
}

/// `r` lists each occupied cell of `b` with its value, once, row by row.
pub open spec fn lists_tiles(b: Seq<Seq<u64>>, r: Seq<(Cell, u64)>) -> bool {
    &&& forall|j: int|
        0 <= j < r.len() ==> (#[trigger] r[j]).0.row < b.len() && r[j].0.col < b[r[j].0.row as int].len()
            && b[r[j].0.row as int][r[j].0.col as int] == r[j].1 && r[j].1 != 0
    &&& forall|i: int, j: int| 0 <= i < j < r.len() ==> cell_before(#[trigger] r[i].0, #[trigger] r[j].0)
    &&& forall|row: int, col: int|
        0 <= row < b.len() && 0 <= col < b[row].len() && #[trigger] b[row][col] != 0 ==> exists|j: int|
            0 <= j < r.len() && (#[trigger] r[j]).0.row == row && r[j].0.col == col
}

/// What a spawn on board `b` gives: nothing where no cell is empty, else the tile that
/// `spawn_ok` describes, written into that one cell.
pub open spec fn spawn_outcome(
    b: Seq<Seq<u64>>,
    cell_draw: int,
    value_draw: int,
    r: Option<(Cell, u64)>,
    after: Seq<Seq<u64>>,
) -> bool {
    if empty_total(b) == 0 {
        r is None && after == b
    } else {
        match r {
            Some((c, v)) => spawn_ok(b, cell_draw, value_draw, c, v) && after == b.update(
                c.row as int,
                b[c.row as int].update(c.col as int, v),
            ),
            None => false,
        }
    }
}

proof fn lemma_empties_step(s: Seq<u64>, c: int)
    requires
        0 <= c < s.len(),
    ensures
        empties_in(s.take(c + 1)) == empties_in(s.take(c)) + if s[c] == 0 {
            1int
        } else {
            0
        },
        empties_in(s.take(c)) >= 0,
{
    assert(s.take(c + 1) =~= s.take(c) + seq![s[c]]);
    lemma_tiles_of_append(s.take(c), seq![s[c]]);
    lemma_tiles_of_len(s.take(c));
    let one = seq![s[c]];
    assert(one.skip(1) =~= Seq::<u64>::empty());
    assert(tiles_of(one.skip(1)) =~= Seq::<u64>::empty());
    if s[c] != 0 {
        assert(tiles_of(one) =~= seq![s[c]]);
    } else {
        assert(tiles_of(one) =~= Seq::<u64>::empty());
    }
}

proof fn lemma_cells_fit(n: int, row: int, col: int)
    requires
        0 <= row < n,
        0 <= col < n,
    ensures
        row * n + col + 1 <= n * n,
{
    assert(row * n + col + 1 <= n * n) by (nonlinear_arith)
        requires
            0 <= row < n,
            0 <= col < n,
    ;
}

proof fn lemma_row_step(n: int, row: int)
    ensures
        row * n + n == (row + 1) * n,
{
    assert(row * n + n == (row + 1) * n) by (nonlinear_arith);
}

/// The outcome of one move: the new grid, and whether it differs from the old one.
pub struct MoveResult {
    pub grid: Grid,
    pub changed: bool,
}

/// The game board: `size` by `size` cells, each empty or holding one tile.
/// A cell holds at most one value, so no two tiles ever share a cell.
pub struct Grid {
    size: usize,
    rows: Vec<Vec<u64>>,
}

impl Grid {
    /// The board, row by row; 0 marks an empty cell.
    pub closed spec fn view(&self) -> Seq<Seq<u64>> {
        Seq::new(self.rows@.len(), |r: int| self.rows@[r]@)
    }

    /// The side length of the board.
    pub closed spec fn dim(&self) -> int {
        self.size as int
    }

    pub open spec fn wf(&self) -> bool {
        &&& board_ok(self@, self.dim())
        &&& self.dim() * self.dim() <= usize::MAX
    }

    /// The value at (col, row), or nothing where the cell is empty or off the board.
    pub open spec fn get_spec(&self, cell: Cell) -> Option<u64> {
        if cell.row < self.dim() && cell.col < self.dim() && self@[cell.row as int][cell.col as int]
            != 0 {
            Some(self@[cell.row as int][cell.col as int])
        } else {
            None
        }
    }

    /// An empty board of the given side length.
    pub fn new(size: usize) -> (g: Grid)
        requires
            size * size <= usize::MAX,
        ensures
            g.wf(),
            g.dim() == size,
            g@ == empty_board(size as int),
    {
        let mut rows: Vec<Vec<u64>> = Vec::new();
        let mut r: usize = 0;
        while r < size
            invariant
                r <= size,
                rows@.len() == r,
                forall|j: int| 0 <= j < r ==> (#[trigger] rows@[j])@ =~= Seq::new(size as nat, |c: int| 0u64),
            decreases size - r,
        {
            let mut row: Vec<u64> = Vec::new();
            let mut c: usize = 0;
            while c < size
                invariant
                    c <= size,
                    row@ =~= Seq::new(c as nat, |j: int| 0u64),
                decreases size - c,
            {
                row.push(0);
                c = c + 1;
            }
            rows.push(row);
            r = r + 1;
        }
        let g = Grid { size, rows };
        assert(g@ =~~= empty_board(size as int));
        g
    }

    /// The side length of the board.
    pub fn size(&self) -> (r: usize)
        ensures
            r == self.dim(),
    {
        self.size
    }

    /// The value at a cell; `None` for an empty cell or one off the board.
    pub fn get(&self, cell: Cell) -> (r: Option<u64>)
        requires
            self.wf(),
        ensures
            r == self.get_spec(cell),
    {
        if cell.row < self.size && cell.col < self.size {
            let v = self.rows[cell.row][cell.col];
            if v != 0 {
                return Some(v);
            }
        }
        None
    }

    /// Writes `value` into a cell; 0 empties it.
    fn put(&mut self, cell: Cell, value: u64)
        requires
            old(self).wf(),
            cell.row < old(self).dim(),
            cell.col < old(self).dim(),
            value == 0 || is_tile_value(value as nat),
        ensures
            final(self).wf(),
            final(self).dim() == old(self).dim(),
            final(self)@ == old(self)@.update(
                cell.row as int,
                old(self)@[cell.row as int].update(cell.col as int, value),
            ),
    {
        let ghost b = self@;
        assert(b[cell.row as int] == self.rows@[cell.row as int]@);
        self.rows[cell.row].set(cell.col, value);
        proof {
            let nb = b.update(cell.row as int, b[cell.row as int].update(cell.col as int, value));
            assert(self@ =~~= nb);
            assert forall|r: int| 0 <= r < self.dim() implies (#[trigger] self@[r]).len()
                == self.dim() && cells_ok(self@[r]) by {
                if r == cell.row {
                    assert forall|c: int| 0 <= c < self.dim() implies self@[r][c] == 0
                        || is_tile_value(self@[r][c] as nat) by {
                        if c != cell.col {
                            assert(self@[r][c] == b[r][c]);
                        }
                    }
                }
            }
        }
    }

    /// Places a tile on a cell, replacing whatever stood there.
    pub fn set(&mut self, cell: Cell, value: u64)
        requires
            old(self).wf(),
            cell.row < old(self).dim(),
            cell.col < old(self).dim(),
            is_tile_value(value as nat),
        ensures
            final(self).wf(),
            final(self).dim() == old(self).dim(),
            final(self)@ == old(self)@.update(
                cell.row as int,
                old(self)@[cell.row as int].update(cell.col as int, value),
            ),
            final(self).get_spec(cell) == Some(value),
    {
        self.put(cell, value);
    }

    /// Empties a cell; nothing happens where it is already empty.
    pub fn remove(&mut self, cell: Cell)
        requires
            old(self).wf(),
            cell.row < old(self).dim(),
            cell.col < old(self).dim(),
        ensures
            final(self).wf(),
            final(self).dim() == old(self).dim(),
            final(self)@ == old(self)@.update(
                cell.row as int,
                old(self)@[cell.row as int].update(cell.col as int, 0),
            ),
            final(self).get_spec(cell) == None::<u64>,
    {
        self.put(cell, 0);
    }

    /// Line `k` for a direction, read from the wall outward.
    fn read_line(&self, dir: Direction, k: usize) -> (r: Vec<u64>)
        requires
            self.wf(),
            k < self.dim(),
        ensures
            r@ == line_of(self@, self.dim(), dir, k as int),
    {
        let n = self.size;
        let mut out: Vec<u64> = Vec::new();
        let mut i: usize = 0;
        while i < n
            invariant
                self.wf(),
                n == self.dim(),
                k < n,
                i <= n,
                out@ =~= line_of(self@, n as int, dir, k as int).take(i as int),
            decreases n - i,
        {
            let c = cell_on_line(dir, n, k, i);
            assert(self@[c.row as int] == self.rows@[c.row as int]@);
            out.push(self.rows[c.row][c.col]);
            i = i + 1;
        }
        out
    }

    /// Whether every tile can still be doubled within a `u64`, which a move needs.
    pub fn can_merge_safely(&self) -> (r: bool)
        requires
            self.wf(),
        ensures
            r == board_mergeable(self@),
    {
        let n = self.size;
        let mut row: usize = 0;
        while row < n
            invariant
                self.wf(),
                n == self.dim(),
                row <= n,
                forall|r: int| 0 <= r < row ==> mergeable(#[trigger] self@[r]),
            decreases n - row,
        {
            assert(self@[row as int] == self.rows@[row as int]@);
            let mut col: usize = 0;
            while col < n
                invariant
                    self.wf(),
                    n == self.dim(),
                    row < n,
                    col <= n,
                    self@[row as int] == self.rows@[row as int]@,
                    forall|c: int| 0 <= c < col ==> self@[row as int][c] <= MERGE_LIMIT,
                decreases n - col,
            {
                if self.rows[row][col] > MERGE_LIMIT {
                    return false;
                }
                col = col + 1;
            }
            row = row + 1;
        }
        true
    }

    /// Pushes every tile toward one wall: equal neighbours merge once, then the tiles slide
    /// until each rests against the wall or another tile. The grid itself is left as it was.
    pub fn apply_move(&self, dir: Direction) -> (r: MoveResult)
        requires
            self.wf(),
            board_mergeable(self@),
        ensures
            r.grid.wf(),
            r.grid.dim() == self.dim(),
            r.grid@ == moved_board(self@, self.dim(), dir),
            r.changed == (r.grid@ != self@),
    {
        let n = self.size;
        let ghost b = self@;
        let mut lines: Vec<Vec<u64>> = Vec::new();
        let mut k: usize = 0;
        while k < n
            invariant
                self.wf(),
                board_mergeable(self@),
                b == self@,
                n == self.dim(),
                k <= n,
                lines@.len() == k,
                forall|j: int|
                    0 <= j < k ==> (#[trigger] lines@[j])@ == slide_line(line_of(b, n as int, dir, j))
                        && lines@[j]@.len() == n,
            decreases n - k,
        {
            let line = self.read_line(dir, k);
            proof {
                lemma_line_of_ok(b, n as int, dir, k as int);
            }
            let moved = slide_pass(&line);
            lines.push(moved);
            k = k + 1;
        }
        let ghost target = moved_board(b, n as int, dir);
        let mut rows: Vec<Vec<u64>> = Vec::new();
        let mut row: usize = 0;
        while row < n
            invariant
                n == self.dim(),
                row <= n,
                lines@.len() == n,
                forall|j: int|
                    0 <= j < n ==> (#[trigger] lines@[j])@ == slide_line(line_of(b, n as int, dir, j))
                        && lines@[j]@.len() == n,
                target == moved_board(b, n as int, dir),
                rows@.len() == row,
                forall|j: int| 0 <= j < row ==> (#[trigger] rows@[j])@ == target[j],
            decreases n - row,
        {
            let mut cur: Vec<u64> = Vec::new();
            let mut col: usize = 0;
            while col < n
                invariant
                    n == self.dim(),
                    row < n,
                    col <= n,
                    lines@.len() == n,
                    forall|j: int|
                        0 <= j < n ==> (#[trigger] lines@[j])@ == slide_line(
                            line_of(b, n as int, dir, j),
                        ) && lines@[j]@.len() == n,
                    target == moved_board(b, n as int, dir),
                    cur@ =~= target[row as int].take(col as int),
                decreases n - col,
            {
                let (lk, li) = position_on_line(dir, n, col, row);
                cur.push(lines[lk][li]);
                col = col + 1;
            }
            assert(cur@ =~= target[row as int]);
            rows.push(cur);
            row = row + 1;
        }
        let grid = Grid { size: n, rows };
        assert(grid@ =~~= target);
        proof {
            assert forall|r: int| 0 <= r < n implies (#[trigger] grid@[r]).len() == n && cells_ok(
                grid@[r],
            ) by {
                assert forall|c: int| 0 <= c < n implies grid@[r][c] == 0 || is_tile_value(
                    grid@[r][c] as nat,
                ) by {
                    let p = line_pos(dir, n as int, c, r);
                    lemma_line_of_ok(b, n as int, dir, p.0);
                    lemma_slide_line_cells(line_of(b, n as int, dir, p.0));
                }
            }
        }
        let changed = !self.same_cells(&grid);
        MoveResult { grid, changed }
    }

    /// Whether two boards of one size hold the same value in every cell.
    fn same_cells(&self, other: &Grid) -> (r: bool)
        requires
            self.wf(),
            other.wf(),
            self.dim() == other.dim(),
        ensures
            r == (self@ == other@),
    {
        let n = self.size;
        let mut row: usize = 0;
        while row < n
            invariant
                self.wf(),
                other.wf(),
                n == self.dim(),
                n == other.dim(),
                row <= n,
                forall|r: int| 0 <= r < row ==> self@[r] == other@[r],
            decreases n - row,
        {
            assert(self@[row as int] == self.rows@[row as int]@);
            assert(other@[row as int] == other.rows@[row as int]@);
            let mut col: usize = 0;
            while col < n
                invariant
                    self.wf(),
                    other.wf(),
                    n == self.dim(),
                    n == other.dim(),
                    row < n,
                    col <= n,
                    self@[row as int] == self.rows@[row as int]@,
                    other@[row as int] == other.rows@[row as int]@,
                    forall|c: int| 0 <= c < col ==> self@[row as int][c] == other@[row as int][c],
                decreases n - col,
            {
                if self.rows[row][col] != other.rows[row][col] {
                    return false;
                }
                col = col + 1;
            }
            assert(self@[row as int] =~= other@[row as int]);
            row = row + 1;
        }
        assert(self@ =~= other@);
        true
    }

    /// Number of empty cells.
    pub fn count_empty(&self) -> (r: usize)
        requires
            self.wf(),
        ensures
            r == empty_total(self@),
    {
        let n = self.size;
        let mut count: usize = 0;
        let mut row: usize = 0;
        let ghost mut seen: int = 0;
        while row < n
            invariant
                self.wf(),
                n == self.dim(),
                row <= n,
                count == empties_above(self@, row as int),
                0 <= count <= seen,
                seen == row * n,
            decreases n - row,
        {
            assert(self@[row as int] == self.rows@[row as int]@);
            assert(self@[row as int].take(0) =~= Seq::<u64>::empty());
            let mut col: usize = 0;
            while col < n
                invariant
                    self.wf(),
                    n == self.dim(),
                    row < n,
                    col <= n,
                    self@[row as int] == self.rows@[row as int]@,
                    count == empties_above(self@, row as int) + empties_in(
                        self@[row as int].take(col as int),
                    ),
                    0 <= count <= seen,
                    seen == row * n + col,
                decreases n - col,
            {
                proof {
                    lemma_empties_step(self@[row as int], col as int);
                    lemma_cells_fit(n as int, row as int, col as int);
                }
                if self.rows[row][col] == 0 {
                    count = count + 1;
                }
                proof {
                    seen = seen + 1;
                }
                col = col + 1;
            }
            assert(self@[row as int].take(n as int) =~= self@[row as int]);
            proof {
                lemma_row_step(n as int, row as int);
            }
            row = row + 1;
        }
        count
    }

    /// Adds one tile to an empty cell: the empty cell numbered `cell_draw` modulo the number
    /// of empty cells, counting row by row, with value 4 where `value_draw` is a multiple of
    /// ten and 2 otherwise. Where no cell is empty nothing is added and `None` comes back.
    /// Drawing among the empty cells alone gives each of them the same chance, with no retry.
    pub fn spawn(&mut self, cell_draw: u64, value_draw: u64) -> (r: Option<(Cell, u64)>)
        requires
            old(self).wf(),
        ensures
            final(self).wf(),
            final(self).dim() == old(self).dim(),
            spawn_outcome(old(self)@, cell_draw as int, value_draw as int, r, final(self)@),
    {
        let total = self.count_empty();
        if total == 0 {
            return None;
        }
        let k = (cell_draw % (total as u64)) as usize;
        let value: u64 = if value_draw % 10 == 0 {
            4
        } else {
            2
        };
        proof {
            assert(is_pow2(1));
            assert(is_pow2(2));
            assert(is_pow2(4));
        }
        let n = self.size;
        let ghost b = self@;
        let mut count: usize = 0;
        let mut row: usize = 0;
        while row < n
            invariant
                self.wf(),
                b == self@,
                b == old(self)@,
                n == old(self).dim(),
                is_tile_value(value as nat),
                value == spawn_value(value_draw as int),
                n == self.dim(),
                row <= n,
                count == empties_above(b, row as int),
                count <= k,
                k < total == empty_total(b),
                k == cell_draw as int % empty_total(b),
            decreases n - row,
        {
            assert(self@[row as int] == self.rows@[row as int]@);
            assert(b[row as int].take(0) =~= Seq::<u64>::empty());
            let mut col: usize = 0;
            while col < n
                invariant
                    self.wf(),
                    b == self@,
                    b == old(self)@,
                    n == old(self).dim(),
                    is_tile_value(value as nat),
                    value == spawn_value(value_draw as int),
                value == spawn_value(value_draw as int),
                b == old(self)@,
                n == old(self).dim(),
                is_tile_value(value as nat),
                value == spawn_value(value_draw as int),
                    n == self.dim(),
                    row < n,
                    col <= n,
                    self@[row as int] == self.rows@[row as int]@,
                    count == empties_before(b, col as int, row as int),
                    count <= k,
                    k < total == empty_total(b),
                    k == cell_draw as int % empty_total(b),
                decreases n - col,
            {
                proof {
                    lemma_empties_step(b[row as int], col as int);
                }
                if self.rows[row][col] == 0 {
                    if count == k {
                        let cell = Cell { col, row };
                        self.put(cell, value);
                        return Some((cell, value));
                    }
                    count = count + 1;
                }
                col = col + 1;
            }
            assert(b[row as int].take(n as int) =~= b[row as int]);
            row = row + 1;
        }
        // Every empty cell was counted, so the one numbered k was met above.
        assert(count == empty_total(b));
        None
    }

    /// A copy of every occupied cell with its value, row by row; later changes to the grid
    /// do not reach it.
    pub fn occupied_cells(&self) -> (r: Vec<(Cell, u64)>)
        requires
            self.wf(),
        ensures
            lists_tiles(self@, r@),
    {
        let n = self.size;
        let mut out: Vec<(Cell, u64)> = Vec::new();
        let mut row: usize = 0;
        while row < n
            invariant
                self.wf(),
                n == self.dim(),
                row <= n,
                forall|j: int|
                    0 <= j < out@.len() ==> (#[trigger] out@[j]).0.row < row && out@[j].0.col < n
                        && self@[out@[j].0.row as int][out@[j].0.col as int] == out@[j].1 && out@[j].1
                        != 0,
                forall|i: int, j: int|
                    0 <= i < j < out@.len() ==> cell_before(#[trigger] out@[i].0, #[trigger] out@[j].0),
                forall|rr: int, cc: int|
                    0 <= rr < row && 0 <= cc < n && #[trigger] self@[rr][cc] != 0 ==> exists|j: int|
                        0 <= j < out@.len() && (#[trigger] out@[j]).0.row == rr && out@[j].0.col == cc,
            decreases n - row,
        {
            assert(self@[row as int] == self.rows@[row as int]@);
            let mut col: usize = 0;
            while col < n
                invariant
                    self.wf(),
                    n == self.dim(),
                    row < n,
                    col <= n,
                    self@[row as int] == self.rows@[row as int]@,
                    forall|j: int|
                        0 <= j < out@.len() ==> ((#[trigger] out@[j]).0.row < row || (out@[j].0.row
                            == row && out@[j].0.col < col)) && out@[j].0.col < n
                            && self@[out@[j].0.row as int][out@[j].0.col as int] == out@[j].1
                            && out@[j].1 != 0,
                    forall|i: int, j: int|
                        0 <= i < j < out@.len() ==> cell_before(
                            #[trigger] out@[i].0,
                            #[trigger] out@[j].0,
                        ),
                    forall|rr: int, cc: int|
                        (0 <= rr < row && 0 <= cc < n || rr == row && 0 <= cc < col)
                            && #[trigger] self@[rr][cc] != 0 ==> exists|j: int|
                            0 <= j < out@.len() && (#[trigger] out@[j]).0.row == rr && out@[j].0.col
                                == cc,
                decreases n - col,
            {
                let v = self.rows[row][col];
                if v != 0 {
                    let ghost before = out@;
                    out.push((Cell { col, row }, v));
                    proof {
                        assert forall|rr: int, cc: int|
                            (0 <= rr < row && 0 <= cc < n || rr == row && 0 <= cc < col + 1)
                                && #[trigger] self@[rr][cc] != 0 implies exists|j: int|
                            0 <= j < out@.len() && (#[trigger] out@[j]).0.row == rr
                                && out@[j].0.col == cc by {
                            if rr == row && cc == col {
                                assert(out@[before.len() as int].0.row == rr);
                            } else {
                                let j = choose|j: int|
                                    0 <= j < before.len() && (#[trigger] before[j]).0.row == rr
                                        && before[j].0.col == cc;
                                assert(out@[j] == before[j]);
                            }
                        }
                    }
                }
                col = col + 1;
            }
            row = row + 1;
        }
        out
    }
}

} // verus!
