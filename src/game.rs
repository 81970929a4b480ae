use vstd::prelude::*;

use crate::grid::{board_mergeable, empty_board, moved_board, spawn_outcome, Cell, Direction, Grid};
use crate::rng::{mix, next_state, Rng};

verus! {

/// What one turn did: whether the move changed the board, and the tile added after it.
pub struct Turn {
    pub changed: bool,
    pub spawned: Option<(Cell, u64)>,
}

/// A running game: the board and the source of the numbers that place new tiles.
pub struct Game {
    grid: Grid,
    rng: Rng,
}

impl Game {
    pub closed spec fn board(&self) -> Grid {
        self.grid
    }

    pub closed spec fn rng_state(&self) -> u64 {
        self.rng.state()
    }

    pub open spec fn wf(&self) -> bool {
        self.board().wf()
    }

    /// A game on the given board, drawing from `seed`.
    pub fn with_grid(grid: Grid, seed: u64) -> (g: Game)
        requires
            grid.wf(),
        ensures
            g.wf(),
            g.board() == grid,
            g.rng_state() == seed,
    {
        Game { grid, rng: Rng::new(seed) }
    }

    /// A new game: an empty board of side `size` with one tile placed on it.
    pub fn new(size: usize, seed: u64) -> (g: Game)
        requires
            size * size <= usize::MAX,
        ensures
            g.wf(),
            g.board().dim() == size,
            g.rng_state() == next_state(next_state(seed)),
            exists|r: Option<(Cell, u64)>|
                spawn_outcome(
                    empty_board(size as int),
                    mix(next_state(seed)) as int,
                    mix(next_state(next_state(seed))) as int,
                    r,
                    g.board()@,
                ),
    {
        let mut game = Game { grid: Grid::new(size), rng: Rng::new(seed) };
        let ghost b = game.grid@;
        let cell_draw = game.rng.next_u64();
        let value_draw = game.rng.next_u64();
        let r = game.grid.spawn(cell_draw, value_draw);
        assert(spawn_outcome(empty_board(size as int), cell_draw as int, value_draw as int, r, game.grid@));
        game
    }

    /// The board.
    pub fn grid(&self) -> (r: &Grid)
        ensures
            *r == self.board(),
    {
        &self.grid
    }

    /// Plays one turn: the move, then, only where the move changed the board, one new tile
    /// placed with two draws (the cell, then the value).
    pub fn turn(&mut self, dir: Direction) -> (r: Turn)
        requires
            old(self).wf(),
            board_mergeable(old(self).board()@),
        ensures
            final(self).wf(),
            final(self).board().dim() == old(self).board().dim(),
            ({
                let moved = moved_board(old(self).board()@, old(self).board().dim(), dir);
                let s0 = old(self).rng_state();
                &&& r.changed == (moved != old(self).board()@)
                &&& !r.changed ==> r.spawned is None && final(self).board()@ == old(self).board()@
                    && final(self).rng_state() == s0
                &&& r.changed ==> final(self).rng_state() == next_state(next_state(s0))
                    && spawn_outcome(
                    moved,
                    mix(next_state(s0)) as int,
                    mix(next_state(next_state(s0))) as int,
                    r.spawned,
                    final(self).board()@,
                )
            }),
    {
        let result = self.grid.apply_move(dir);
        if !result.changed {
            return Turn { changed: false, spawned: None };
        }
        self.grid = result.grid;
        let cell_draw = self.rng.next_u64();
        let value_draw = self.rng.next_u64();
        let spawned = self.grid.spawn(cell_draw, value_draw);
        Turn { changed: true, spawned }
    }
}

} // verus!
