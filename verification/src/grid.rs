//! The immutable rectangular tile map underneath a game.
//!
//! A tile is one of three characters: `' '` (open), `'X'` (wall) and `'G'`
//! (goal). The player and the pursuer are not tile content; the game tracks
//! their positions separately, layered over the grid.

use vstd::prelude::*;

verus! {

/// True for the three characters of the tile alphabet.
pub open spec fn tile_char(c: char) -> bool {
    c == ' ' || c == 'X' || c == 'G'
}

/// An immutable rectangular map from (row, column) to a tile character.
#[derive(Clone)]
pub struct Grid {
    pub rows: Vec<Vec<char>>,
    pub height: usize,
    pub width: usize,
}

impl View for Grid {
    type V = Seq<Seq<char>>;

    open spec fn view(&self) -> Seq<Seq<char>> {
        self.rows@.map_values(|r: Vec<char>| r@)
    }
}

impl Grid {
    /// The grid's invariant: the cached height and width agree with the
    /// stored rows, every row has exactly `width` columns, and every cell
    /// holds a character of the tile alphabet.
    pub open spec fn wf(self) -> bool {
        &&& self.height == self@.len()
        &&& (forall|i: int| 0 <= i < self@.len() ==> (#[trigger] self@[i]).len() == self.width)
        &&& (self.height == 0 ==> self.width == 0)
        &&& (forall|i: int, j: int|
            0 <= i < self@.len() && 0 <= j < self@[i].len() ==> tile_char(#[trigger] self@[i][j]))
    }

    /// Whether (row, col) lies on the grid.
    pub open spec fn spec_in_bounds(self, row: int, col: int) -> bool {
        0 <= row < self.height && 0 <= col < self.width
    }

    /// The tile character at (row, col); meaningful only in bounds.
    pub open spec fn tile(self, row: int, col: int) -> char {
        self@[row][col]
    }

    /// Whether a piece may stand at (row, col): on the grid and not a wall.
    pub open spec fn passable(self, row: int, col: int) -> bool {
        self.spec_in_bounds(row, col) && self.tile(row, col) != 'X'
    }

    /// The empty grid: no rows, no columns.
    pub fn new() -> (g: Grid)
        ensures
            g.wf(),
            g@ == Seq::<Seq<char>>::empty(),
            g.height == 0,
            g.width == 0,
    {
        Grid { rows: Vec::new(), height: 0, width: 0 }
    }

    /// Whether (row, col) lies on the grid.
    pub fn in_bounds(&self, row: usize, col: usize) -> (b: bool)
        ensures
            b == self.spec_in_bounds(row as int, col as int),
    {
        row < self.height && col < self.width
    }

    /// The tile at (row, col), or `None` when the coordinates are off the
    /// grid. Callers must treat `None` as impassable.
    pub fn get(&self, row: usize, col: usize) -> (r: Option<char>)
        requires
            self.wf(),
        ensures
            r == (if self.spec_in_bounds(row as int, col as int) {
                Some(self.tile(row as int, col as int))
            } else {
                None::<char>
            }),
    {
        if self.in_bounds(row, col) {
            proof {
                assert(self@[row as int] == self.rows@[row as int]@);
            }
            Some(self.rows[row][col])
        } else {
            None
        }
    }

    /// Whether a piece may step onto (row, col).
    pub(crate) fn passable_at(&self, row: usize, col: usize) -> (b: bool)
        requires
            self.wf(),
        ensures
            b == self.passable(row as int, col as int),
    {
        match self.get(row, col) {
            Some(c) => c != 'X',
            None => false,
        }
    }
}

} // verus!
