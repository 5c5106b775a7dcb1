//! Wall layout of a board: answers where the nearest wall boundary lies from
//! a cell in a direction, and validates the stored wall data against the
//! board dimensions.

use vstd::prelude::*;

use crate::Position;

verus! {

/// True when `v` occurs in `s`.
pub open spec fn seq_has(s: Seq<usize>, v: int) -> bool {
    exists|i: int| 0 <= i < s.len() && s[i] == v
}

/// Immutable containers holding the layout of the walls.
///
/// A *bottom wall* at `(col, row)` is a horizontal segment immediately below
/// row `row` in column `col`; a *right wall* at `(row, col)` is a vertical
/// segment immediately to the right of column `col` in row `row`.
pub trait WallConfiguration: Sized {
    /// The stored wall data is consistent with the board dimensions.
    spec fn wf(&self) -> bool;

    spec fn spec_height(&self) -> int;

    spec fn spec_width(&self) -> int;

    /// A horizontal wall segment lies immediately below `row` in column `col`.
    spec fn has_bottom_wall(&self, col: int, row: int) -> bool;

    /// A vertical wall segment lies immediately to the right of `col` in row `row`.
    spec fn has_right_wall(&self, row: int, col: int) -> bool;

    fn is_valid(&self) -> (r: bool)
        ensures
            r == self.wf(),
    ;

    fn get_height(&self) -> (h: usize)
        ensures
            h == self.spec_height(),
    ;

    fn get_width(&self) -> (w: usize)
        ensures
            w == self.spec_width(),
    ;

    /// First free row when sliding up from `position`, as far as walls are
    /// concerned: one past the nearest bottom wall strictly above, or `None`
    /// when no wall lies above.
    fn next_wall_up(&self, position: &Position) -> (r: Option<usize>)
        requires
            self.wf(),
            position.row < self.spec_height(),
            position.col < self.spec_width(),
        ensures
            match r {
                None => forall|t: int|
                    0 <= t < position.row ==> !self.has_bottom_wall(position.col as int, t),
                Some(k) => 0 < k <= position.row && self.has_bottom_wall(
                    position.col as int,
                    k - 1,
                ) && forall|t: int|
                    k <= t < position.row ==> !self.has_bottom_wall(position.col as int, t),
            },
    ;

    /// Last free row when sliding down from `position`, as far as walls are
    /// concerned: the row of the nearest bottom wall at or below, or `None`
    /// when no wall lies below.
    fn next_wall_down(&self, position: &Position) -> (r: Option<usize>)
        requires
            self.wf(),
            position.row < self.spec_height(),
            position.col < self.spec_width(),
        ensures
            match r {
                None => forall|t: int|
                    position.row <= t ==> !self.has_bottom_wall(position.col as int, t),
                Some(k) => position.row <= k && self.has_bottom_wall(position.col as int, k as int)
                    && forall|t: int|
                    position.row <= t < k ==> !self.has_bottom_wall(position.col as int, t),
            },
    ;

    /// Last free column when sliding right from `position`, as far as walls
    /// are concerned.
    fn next_wall_right(&self, position: &Position) -> (r: Option<usize>)
        requires
            self.wf(),
            position.row < self.spec_height(),
            position.col < self.spec_width(),
        ensures
            match r {
                None => forall|t: int|
                    position.col <= t ==> !self.has_right_wall(position.row as int, t),
                Some(k) => position.col <= k && self.has_right_wall(position.row as int, k as int)
                    && forall|t: int|
                    position.col <= t < k ==> !self.has_right_wall(position.row as int, t),
            },
    ;

    /// First free column when sliding left from `position`, as far as walls
    /// are concerned.
    fn next_wall_left(&self, position: &Position) -> (r: Option<usize>)
        requires
            self.wf(),
            position.row < self.spec_height(),
            position.col < self.spec_width(),
        ensures
            match r {
                None => forall|t: int|
                    0 <= t < position.col ==> !self.has_right_wall(position.row as int, t),
                Some(k) => 0 < k <= position.col && self.has_right_wall(
                    position.row as int,
                    k - 1,
                ) && forall|t: int|
                    k <= t < position.col ==> !self.has_right_wall(position.row as int, t),
            },
    ;
}

/// Immutable container storing the layout of the walls, one list of wall
/// indices per row (`right_walls`) and per column (`bottom_walls`).
pub struct WallConfigurationVecVec {
    pub height: usize,
    pub width: usize,
    pub right_walls: Vec<Vec<usize>>,
    pub bottom_walls: Vec<Vec<usize>>,
}

impl WallConfigurationVecVec {
    /// Nearest wall index from `position` among `walls`: with `diff == 1` the
    /// smallest index at or after `position`; with `diff == -1` one past the
    /// largest index strictly before `position`.
    pub fn next_wall(walls: &[usize], position: usize, diff: isize) -> (r: Option<usize>)
        requires
            diff == 1 || diff == -1,
        ensures
            diff == 1 ==> match r {
                None => forall|i: int| 0 <= i < walls@.len() ==> walls@[i] < position,
                Some(k) => position <= k && seq_has(walls@, k as int) && forall|i: int|
                    0 <= i < walls@.len() && position <= walls@[i] ==> k <= walls@[i],
            },
            diff == -1 ==> match r {
                None => forall|i: int| 0 <= i < walls@.len() ==> position <= walls@[i],
                Some(k) => 0 < k <= position && seq_has(walls@, k - 1) && forall|i: int|
                    0 <= i < walls@.len() && walls@[i] < position ==> walls@[i] < k,
            },
    {
        let mut best: Option<usize> = None;
        let mut i: usize = 0;
        while i < walls.len()
            invariant
                diff == 1 || diff == -1,
                i <= walls@.len(),
                diff == 1 ==> match best {
                    None => forall|j: int| 0 <= j < i ==> walls@[j] < position,
                    Some(b) => position <= b && seq_has(walls@, b as int) && forall|j: int|
                        0 <= j < i && position <= walls@[j] ==> b <= walls@[j],
                },
                diff == -1 ==> match best {
                    None => forall|j: int| 0 <= j < i ==> position <= walls@[j],
                    Some(b) => b < position && seq_has(walls@, b as int) && forall|j: int|
                        0 <= j < i && walls@[j] < position ==> walls@[j] <= b,
                },
            decreases walls@.len() - i,
        {
            let w = walls[i];
            if diff == 1 {
                if w >= position {
                    best = match best {
                        None => Some(w),
                        Some(b) => if w < b {
                            Some(w)
                        } else {
                            Some(b)
                        },
                    };
                }
            } else {
                if w < position {
                    best = match best {
                        None => Some(w),
                        Some(b) => if w > b {
                            Some(w)
                        } else {
                            Some(b)
                        },
                    };
                }
            }
            i = i + 1;
        }
        if diff == 1 {
            best
        } else {
            match best {
                None => None,
                Some(b) => Some(b + 1),
            }
        }
    }
}

impl WallConfiguration for WallConfigurationVecVec {
    open spec fn wf(&self) -> bool {
        &&& self.right_walls@.len() == self.height
        &&& self.bottom_walls@.len() == self.width
        &&& forall|r: int, j: int|
            0 <= r < self.right_walls@.len() && 0 <= j < self.right_walls@[r]@.len()
                ==> self.right_walls@[r]@[j] < self.width
        &&& forall|c: int, j: int|
            0 <= c < self.bottom_walls@.len() && 0 <= j < self.bottom_walls@[c]@.len()
                ==> self.bottom_walls@[c]@[j] < self.height
    }

    open spec fn spec_height(&self) -> int {
        self.height as int
    }

    open spec fn spec_width(&self) -> int {
        self.width as int
    }

    open spec fn has_bottom_wall(&self, col: int, row: int) -> bool {
        0 <= col < self.bottom_walls@.len() && seq_has(self.bottom_walls@[col]@, row)
    }

    open spec fn has_right_wall(&self, row: int, col: int) -> bool {
        0 <= row < self.right_walls@.len() && seq_has(self.right_walls@[row]@, col)
    }

    fn get_height(&self) -> (h: usize) {
        self.height
    }

    fn get_width(&self) -> (w: usize) {
        self.width
    }

    fn is_valid(&self) -> (r: bool) {
        if self.right_walls.len() != self.height {
            return false;
        }
        if self.bottom_walls.len() != self.width {
            return false;
        }
        let mut r: usize = 0;
        while r < self.right_walls.len()
            invariant
                self.right_walls@.len() == self.height,
                self.bottom_walls@.len() == self.width,
                r <= self.right_walls@.len(),
                forall|r2: int, j: int|
                    0 <= r2 < r && 0 <= j < self.right_walls@[r2]@.len()
                        ==> self.right_walls@[r2]@[j] < self.width,
            decreases self.right_walls@.len() - r,
        {
            let row_walls: &Vec<usize> = &self.right_walls[r];
            let mut j: usize = 0;
            while j < row_walls.len()
                invariant
                    r < self.right_walls@.len(),
                    row_walls@ == self.right_walls@[r as int]@,
                    j <= row_walls@.len(),
                    forall|j2: int| 0 <= j2 < j ==> row_walls@[j2] < self.width,
                decreases row_walls@.len() - j,
            {
                if row_walls[j] >= self.width {
                    return false;
                }
                j = j + 1;
            }
            r = r + 1;
        }
        let mut c: usize = 0;
        while c < self.bottom_walls.len()
            invariant
                self.right_walls@.len() == self.height,
                self.bottom_walls@.len() == self.width,
                c <= self.bottom_walls@.len(),
                forall|r2: int, j: int|
                    0 <= r2 < self.right_walls@.len() && 0 <= j < self.right_walls@[r2]@.len()
                        ==> self.right_walls@[r2]@[j] < self.width,
                forall|c2: int, j: int|
                    0 <= c2 < c && 0 <= j < self.bottom_walls@[c2]@.len()
                        ==> self.bottom_walls@[c2]@[j] < self.height,
            decreases self.bottom_walls@.len() - c,
        {
            let col_walls: &Vec<usize> = &self.bottom_walls[c];
            let mut j: usize = 0;
            while j < col_walls.len()
                invariant
                    c < self.bottom_walls@.len(),
                    col_walls@ == self.bottom_walls@[c as int]@,
                    j <= col_walls@.len(),
                    forall|j2: int| 0 <= j2 < j ==> col_walls@[j2] < self.height,
                decreases col_walls@.len() - j,
            {
                if col_walls[j] >= self.height {
                    return false;
                }
                j = j + 1;
            }
            c = c + 1;
        }
        true
    }

    fn next_wall_up(&self, position: &Position) -> (r: Option<usize>) {
        WallConfigurationVecVec::next_wall(
            self.bottom_walls[position.col].as_slice(),
            position.row,
            -1,
        )
    }

    fn next_wall_down(&self, position: &Position) -> (r: Option<usize>) {
        WallConfigurationVecVec::next_wall(
            self.bottom_walls[position.col].as_slice(),
            position.row,
            1,
        )
    }

    fn next_wall_right(&self, position: &Position) -> (r: Option<usize>) {
        WallConfigurationVecVec::next_wall(
            self.right_walls[position.row].as_slice(),
            position.col,
            1,
        )
    }

    fn next_wall_left(&self, position: &Position) -> (r: Option<usize>) {
        WallConfigurationVecVec::next_wall(
            self.right_walls[position.row].as_slice(),
            position.col,
            -1,
        )
    }
}

} // verus!
