//! The game state and its turn rules: the player's move, the pursuer's
//! greedy chase step, the win/lose classification, and the per-cell queries
//! a renderer needs.

use vstd::prelude::*;

use crate::command::Command;
use crate::grid::Grid;

verus! {

/// The terminal/non-terminal classification of a game state.
#[derive(Clone, Copy, Debug, PartialEq, Eq, Structural)]
pub enum GameStatus {
    Win,
    Lose,
    Continue,
}

/// A running game: an immutable grid plus the mutable player and pursuer
/// positions and the fixed goal position.
#[derive(Clone)]
pub struct Game {
    pub grid: Grid,
    pub theseus_row: usize,
    pub theseus_col: usize,
    pub minotaur_row: usize,
    pub minotaur_col: usize,
    pub goal_row: usize,
    pub goal_col: usize,
}

/// The sign of an integer: -1, 0 or 1.
pub open spec fn sign(x: int) -> int {
    if x > 0 {
        1
    } else if x < 0 {
        -1
    } else {
        0
    }
}

/// The cell one step from `pos` in the direction of `command`
/// (`pos` itself for `Skip`).
pub open spec fn step_target(pos: (int, int), command: Command) -> (int, int) {
    match command {
        Command::Up => (pos.0 - 1, pos.1),
        Command::Down => (pos.0 + 1, pos.1),
        Command::Left => (pos.0, pos.1 - 1),
        Command::Right => (pos.0, pos.1 + 1),
        Command::Skip => pos,
    }
}

impl Game {
    /// The player's position.
    pub open spec fn theseus(self) -> (int, int) {
        (self.theseus_row as int, self.theseus_col as int)
    }

    /// The pursuer's position.
    pub open spec fn minotaur(self) -> (int, int) {
        (self.minotaur_row as int, self.minotaur_col as int)
    }

    /// The goal position.
    pub open spec fn goal(self) -> (int, int) {
        (self.goal_row as int, self.goal_col as int)
    }

    /// The game invariant: the grid is well formed and non-empty, all three
    /// positions are on the grid, the goal stands on a goal tile, and
    /// neither the player nor the pursuer stands on a wall.
    pub open spec fn wf(self) -> bool {
        &&& self.grid.wf()
        &&& self.grid.height >= 1
        &&& self.grid.width >= 1
        &&& self.grid.spec_in_bounds(self.theseus().0, self.theseus().1)
        &&& self.grid.spec_in_bounds(self.minotaur().0, self.minotaur().1)
        &&& self.grid.spec_in_bounds(self.goal().0, self.goal().1)
        &&& self.grid.tile(self.goal().0, self.goal().1) == 'G'
        &&& self.grid.tile(self.theseus().0, self.theseus().1) != 'X'
        &&& self.grid.tile(self.minotaur().0, self.minotaur().1) != 'X'
    }

    /// The status of a state: `Win` when the player stands on the goal,
    /// else `Lose` when the pursuer has caught the player, else `Continue`.
    /// `Win` is checked first, so a cell shared by all three is a win.
    pub open spec fn spec_status(self) -> GameStatus {
        if self.theseus() == self.goal() {
            GameStatus::Win
        } else if self.theseus() == self.minotaur() {
            GameStatus::Lose
        } else {
            GameStatus::Continue
        }
    }

    /// Where the player stands after applying `command`: one step in the
    /// commanded direction when that cell is on the grid and not a wall,
    /// otherwise (and always for `Skip`) the old position.
    pub open spec fn theseus_after(self, command: Command) -> (int, int) {
        if command is Skip {
            self.theseus()
        } else {
            let t = step_target(self.theseus(), command);
            if self.grid.passable(t.0, t.1) {
                t
            } else {
                self.theseus()
            }
        }
    }

    /// Where the pursuer stands after its chase step. Once the game has
    /// ended it freezes. Otherwise, whenever the columns differ it attempts
    /// only the one-step horizontal move toward the player, keeping still if
    /// that cell is blocked — it does not fall back to the vertical axis
    /// that turn. Only with the columns already equal does it attempt the
    /// vertical step toward the player, under the same rule.
    pub open spec fn minotaur_after(self) -> (int, int) {
        if self.spec_status() != GameStatus::Continue {
            self.minotaur()
        } else {
            let col_diff = self.theseus().1 - self.minotaur().1;
            let row_diff = self.theseus().0 - self.minotaur().0;
            if col_diff != 0 {
                let t = (self.minotaur().0, self.minotaur().1 + sign(col_diff));
                if self.grid.passable(t.0, t.1) {
                    t
                } else {
                    self.minotaur()
                }
            } else if row_diff != 0 {
                let t = (self.minotaur().0 + sign(row_diff), self.minotaur().1);
                if self.grid.passable(t.0, t.1) {
                    t
                } else {
                    self.minotaur()
                }
            } else {
                self.minotaur()
            }
        }
    }

    /// Classify the current state. A pure query: without a mutation in
    /// between, repeated calls return the same value.
    pub fn status(&self) -> (s: GameStatus)
        ensures
            s == self.spec_status(),
    {
        if self.theseus_row == self.goal_row && self.theseus_col == self.goal_col {
            GameStatus::Win
        } else if self.theseus_row == self.minotaur_row && self.theseus_col == self.minotaur_col {
            GameStatus::Lose
        } else {
            GameStatus::Continue
        }
    }

    /// Apply one player command. An illegal move (off the grid or into a
    /// wall) is a silent no-op, not an error; `Skip` never moves.
    pub fn theseus_move(&mut self, command: Command)
        requires
            old(self).wf(),
        ensures
            final(self).wf(),
            final(self).grid == old(self).grid,
            final(self).minotaur() == old(self).minotaur(),
            final(self).goal() == old(self).goal(),
            final(self).theseus() == old(self).theseus_after(command),
    {
        let (new_row, new_col): (usize, usize) = match command {
            Command::Up => {
                if self.theseus_row == 0 {
                    return ;
                }
                (self.theseus_row - 1, self.theseus_col)
            },
            Command::Down => {
                if self.theseus_row == usize::MAX {
                    return ;
                }
                (self.theseus_row + 1, self.theseus_col)
            },
            Command::Left => {
                if self.theseus_col == 0 {
                    return ;
                }
                (self.theseus_row, self.theseus_col - 1)
            },
            Command::Right => {
                if self.theseus_col == usize::MAX {
                    return ;
                }
                (self.theseus_row, self.theseus_col + 1)
            },
            Command::Skip => {
                return ;
            },
        };
        if self.grid.passable_at(new_row, new_col) {
            self.theseus_row = new_row;
            self.theseus_col = new_col;
        }
    }

    /// Apply the pursuer's chase step; a no-op once the game has ended.
    /// Mutates the pursuer position only.
    pub fn minotaur_move(&mut self)
        requires
            old(self).wf(),
        ensures
            final(self).wf(),
            final(self).grid == old(self).grid,
            final(self).theseus() == old(self).theseus(),
            final(self).goal() == old(self).goal(),
            final(self).minotaur() == old(self).minotaur_after(),
    {
        let s = self.status();
        if s != GameStatus::Continue {
            return ;
        }
        if self.theseus_col != self.minotaur_col {
            let next_col: usize = if self.theseus_col > self.minotaur_col {
                self.minotaur_col + 1
            } else {
                self.minotaur_col - 1
            };
            if self.grid.passable_at(self.minotaur_row, next_col) {
                self.minotaur_col = next_col;
            }
        } else if self.theseus_row != self.minotaur_row {
            let next_row: usize = if self.theseus_row > self.minotaur_row {
                self.minotaur_row + 1
            } else {
                self.minotaur_row - 1
            };
            if self.grid.passable_at(next_row, self.minotaur_col) {
                self.minotaur_row = next_row;
            }
        }
    }

    /// Whether the player stands at (row, col).
    pub fn is_theseus(&self, row: usize, col: usize) -> (b: bool)
        ensures
            b == ((row as int, col as int) == self.theseus()),
    {
        row == self.theseus_row && col == self.theseus_col
    }

    /// Whether the pursuer stands at (row, col).
    pub fn is_minotaur(&self, row: usize, col: usize) -> (b: bool)
        ensures
            b == ((row as int, col as int) == self.minotaur()),
    {
        row == self.minotaur_row && col == self.minotaur_col
    }

    /// Whether (row, col) is a wall tile; false off the grid.
    pub fn is_wall(&self, row: usize, col: usize) -> (b: bool)
        requires
            self.wf(),
        ensures
            b == (self.grid.spec_in_bounds(row as int, col as int) && self.grid.tile(
                row as int,
                col as int,
            ) == 'X'),
    {
        match self.grid.get(row, col) {
            Some(c) => c == 'X',
            None => false,
        }
    }

    /// Whether (row, col) is the goal position.
    pub fn is_goal(&self, row: usize, col: usize) -> (b: bool)
        ensures
            b == ((row as int, col as int) == self.goal()),
    {
        row == self.goal_row && col == self.goal_col
    }

    /// Whether (row, col) is an open tile holding neither the player nor
    /// the pursuer; false off the grid.
    pub fn is_empty(&self, row: usize, col: usize) -> (b: bool)
        requires
            self.wf(),
        ensures
            b == (self.grid.spec_in_bounds(row as int, col as int) && self.grid.tile(
                row as int,
                col as int,
            ) == ' ' && (row as int, col as int) != self.theseus() && (row as int, col as int)
                != self.minotaur()),
    {
        let open = match self.grid.get(row, col) {
            Some(c) => c == ' ',
            None => false,
        };
        open && !self.is_theseus(row, col) && !self.is_minotaur(row, col)
    }

    /// The number of rows of the board.
    pub fn height(&self) -> (h: usize)
        ensures
            h == self.grid.height,
    {
        self.grid.height
    }

    /// The number of columns of the board.
    pub fn width(&self) -> (w: usize)
        ensures
            w == self.grid.width,
    {
        self.grid.width
    }
}

/// Law: a move toward a wall leaves the player in place. For any well-formed
/// game and any direction whose target cell is a wall tile, applying that
/// command does not change the player's position.
pub proof fn lemma_wall_blocks(g: Game, command: Command)
    requires
        g.wf(),
        !(command is Skip),
        g.grid.spec_in_bounds(
            step_target(g.theseus(), command).0,
            step_target(g.theseus(), command).1,
        ),
        g.grid.tile(step_target(g.theseus(), command).0, step_target(g.theseus(), command).1)
            == 'X',
    ensures
        g.theseus_after(command) == g.theseus(),
{
}

/// Law: a move off the edge of the grid leaves the player in place.
pub proof fn lemma_bounds_block(g: Game, command: Command)
    requires
        !g.grid.spec_in_bounds(
            step_target(g.theseus(), command).0,
            step_target(g.theseus(), command).1,
        ),
    ensures
        g.theseus_after(command) == g.theseus(),
{
}

/// Law: `Skip` never changes the player's position, whatever the board.
pub proof fn lemma_skip_keeps_position(g: Game)
    ensures
        g.theseus_after(Command::Skip) == g.theseus(),
{
}

/// Law: horizontal priority. Whenever the game continues, the columns
/// differ, and the one-step horizontal move toward the player is open, the
/// pursuer takes exactly that step — whatever the rows are.
pub proof fn lemma_pursuer_horizontal_priority(g: Game)
    requires
        g.spec_status() == GameStatus::Continue,
        g.theseus().1 != g.minotaur().1,
        g.grid.passable(g.minotaur().0, g.minotaur().1 + sign(g.theseus().1 - g.minotaur().1)),
    ensures
        g.minotaur_after() == (
            g.minotaur().0,
            g.minotaur().1 + sign(g.theseus().1 - g.minotaur().1),
        ),
{
}

/// Law: no fallback. Whenever the game continues, the columns differ, and
/// the one-step horizontal move toward the player is blocked, the pursuer
/// stays put for the turn — it does not try the vertical axis, even when
/// the rows differ too.
pub proof fn lemma_pursuer_blocked_horizontal_stays(g: Game)
    requires
        g.spec_status() == GameStatus::Continue,
        g.theseus().1 != g.minotaur().1,
        !g.grid.passable(g.minotaur().0, g.minotaur().1 + sign(g.theseus().1 - g.minotaur().1)),
    ensures
        g.minotaur_after() == g.minotaur(),
{
}

/// Law: the win check precedes the lose check. When the player's position
/// equals both the goal and the pursuer's position, the status is `Win`.
pub proof fn lemma_win_precedence(g: Game)
    requires
        g.theseus() == g.goal(),
        g.theseus() == g.minotaur(),
    ensures
        g.spec_status() == GameStatus::Win,
{
}

} // verus!
