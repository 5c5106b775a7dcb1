//! Immutable snapshots of all robots' cells: answer where the nearest other
//! robot lies from a cell in a direction, and produce updated snapshots.

use vstd::prelude::*;

use crate::Position;

verus! {

/// Immutable containers for the positions of the robots.
///
/// The model of a container is the ordered sequence of its robots' cells,
/// one entry per robot id, given by [`RobotPositions::pos_seq`].
pub trait RobotPositions: Sized {
    /// The ordered sequence of robot cells, one per robot id.
    spec fn pos_seq(&self) -> Seq<Position>;

    fn get_robot_position(&self, robot: usize) -> (p: &Position)
        requires
            robot < self.pos_seq().len(),
        ensures
            *p == self.pos_seq()[robot as int],
    ;

    fn num_robots(&self) -> (n: usize)
        ensures
            n == self.pos_seq().len(),
    ;

    /// A new snapshot with only the entry for `robot` changed; the original
    /// is untouched.
    fn update(&self, robot: usize, position: Position) -> (r: Self)
        requires
            robot < self.pos_seq().len(),
        ensures
            r.pos_seq() == self.pos_seq().update(robot as int, position),
    ;

    /// A fresh snapshot holding the same cells.
    fn duplicate(&self) -> (r: Self)
        ensures
            r.pos_seq() == self.pos_seq(),
    ;

    /// Whether two snapshots hold the same cells in the same order.
    fn same_positions(&self, other: &Self) -> (r: bool)
        ensures
            r == (self.pos_seq() == other.pos_seq()),
    ;

    /// First free row when sliding up from `position`, as far as robots are
    /// concerned: one below the nearest robot strictly above on the same
    /// column, or `None` when no robot blocks.
    fn next_robot_up(&self, position: &Position) -> (r: Option<usize>)
        ensures
            match r {
                None => forall|i: int|
                    0 <= i < self.pos_seq().len() ==> !(self.pos_seq()[i].col == position.col
                        && self.pos_seq()[i].row < position.row),
                Some(k) => 0 < k <= position.row && (exists|i: int|
                    0 <= i < self.pos_seq().len() && self.pos_seq()[i].col == position.col
                        && self.pos_seq()[i].row == k - 1) && forall|i: int|
                    0 <= i < self.pos_seq().len() && self.pos_seq()[i].col == position.col
                        && self.pos_seq()[i].row < position.row ==> self.pos_seq()[i].row < k,
            },
    ;

    /// Last free row when sliding down from `position`, as far as robots are
    /// concerned: one above the nearest robot strictly below on the same
    /// column, or `None` when no robot blocks.
    fn next_robot_down(&self, position: &Position) -> (r: Option<usize>)
        ensures
            match r {
                None => forall|i: int|
                    0 <= i < self.pos_seq().len() ==> !(self.pos_seq()[i].col == position.col
                        && self.pos_seq()[i].row > position.row),
                Some(k) => position.row <= k && (exists|i: int|
                    0 <= i < self.pos_seq().len() && self.pos_seq()[i].col == position.col
                        && self.pos_seq()[i].row == k + 1) && forall|i: int|
                    0 <= i < self.pos_seq().len() && self.pos_seq()[i].col == position.col
                        && self.pos_seq()[i].row > position.row ==> self.pos_seq()[i].row > k,
            },
    ;

    /// Last free column when sliding right from `position`, as far as robots
    /// are concerned.
    fn next_robot_right(&self, position: &Position) -> (r: Option<usize>)
        ensures
            match r {
                None => forall|i: int|
                    0 <= i < self.pos_seq().len() ==> !(self.pos_seq()[i].row == position.row
                        && self.pos_seq()[i].col > position.col),
                Some(k) => position.col <= k && (exists|i: int|
                    0 <= i < self.pos_seq().len() && self.pos_seq()[i].row == position.row
                        && self.pos_seq()[i].col == k + 1) && forall|i: int|
                    0 <= i < self.pos_seq().len() && self.pos_seq()[i].row == position.row
                        && self.pos_seq()[i].col > position.col ==> self.pos_seq()[i].col > k,
            },
    ;

    /// First free column when sliding left from `position`, as far as robots
    /// are concerned.
    fn next_robot_left(&self, position: &Position) -> (r: Option<usize>)
        ensures
            match r {
                None => forall|i: int|
                    0 <= i < self.pos_seq().len() ==> !(self.pos_seq()[i].row == position.row
                        && self.pos_seq()[i].col < position.col),
                Some(k) => 0 < k <= position.col && (exists|i: int|
                    0 <= i < self.pos_seq().len() && self.pos_seq()[i].row == position.row
                        && self.pos_seq()[i].col == k - 1) && forall|i: int|
                    0 <= i < self.pos_seq().len() && self.pos_seq()[i].row == position.row
                        && self.pos_seq()[i].col < position.col ==> self.pos_seq()[i].col < k,
            },
    ;
}

/// Robot positions backed by a `Vec`, indexed by robot id.
#[derive(Clone, Debug, PartialEq, Eq)]
pub struct RobotPositionsVec {
    positions: Vec<Position>,
}

impl RobotPositionsVec {
    pub fn new(positions: Vec<Position>) -> (r: Self)
        ensures
            r.pos_seq() == positions@,
    {
        RobotPositionsVec { positions }
    }
}

impl RobotPositions for RobotPositionsVec {
    closed spec fn pos_seq(&self) -> Seq<Position> {
        self.positions@
    }

    fn get_robot_position(&self, robot: usize) -> (p: &Position) {
        &self.positions[robot]
    }

    fn num_robots(&self) -> (n: usize) {
        self.positions.len()
    }

    fn update(&self, robot: usize, position: Position) -> (r: Self) {
        let mut positions_cloned: Vec<Position> = Vec::new();
        let mut i: usize = 0;
        while i < self.positions.len()
            invariant
                i <= self.positions@.len(),
                positions_cloned@ == self.positions@.subrange(0, i as int),
            decreases self.positions@.len() - i,
        {
            positions_cloned.push(self.positions[i]);
            proof {
                assert(positions_cloned@ =~= self.positions@.subrange(0, i + 1));
            }
            i = i + 1;
        }
        proof {
            assert(positions_cloned@ =~= self.positions@);
        }
        positions_cloned.set(robot, position);
        RobotPositionsVec { positions: positions_cloned }
    }

    fn duplicate(&self) -> (r: Self) {
        let mut positions_cloned: Vec<Position> = Vec::new();
        let mut i: usize = 0;
        while i < self.positions.len()
            invariant
                i <= self.positions@.len(),
                positions_cloned@ == self.positions@.subrange(0, i as int),
            decreases self.positions@.len() - i,
        {
            positions_cloned.push(self.positions[i]);
            proof {
                assert(positions_cloned@ =~= self.positions@.subrange(0, i + 1));
            }
            i = i + 1;
        }
        proof {
            assert(positions_cloned@ =~= self.positions@);
        }
        RobotPositionsVec { positions: positions_cloned }
    }

    fn same_positions(&self, other: &Self) -> (r: bool) {
        if self.positions.len() != other.positions.len() {
            return false;
        }
        let mut i: usize = 0;
        while i < self.positions.len()
            invariant
                self.positions@.len() == other.positions@.len(),
                i <= self.positions@.len(),
                forall|j: int| 0 <= j < i ==> self.positions@[j] == other.positions@[j],
            decreases self.positions@.len() - i,
        {
            if self.positions[i] != other.positions[i] {
                return false;
            }
            i = i + 1;
        }
        proof {
            assert(self.positions@ =~= other.positions@);
        }
        true
    }

    fn next_robot_up(&self, position: &Position) -> (r: Option<usize>) {
        let mut best: Option<usize> = None;
        let mut i: usize = 0;
        while i < self.positions.len()
            invariant
                i <= self.positions@.len(),
                match best {
                    None => forall|j: int|
                        0 <= j < i ==> !(self.positions@[j].col == position.col
                            && self.positions@[j].row < position.row),
                    Some(b) => b < position.row && (exists|j: int|
                        0 <= j < self.positions@.len() && self.positions@[j].col == position.col
                            && self.positions@[j].row == b) && forall|j: int|
                        0 <= j < i && self.positions@[j].col == position.col
                            && self.positions@[j].row < position.row
                            ==> self.positions@[j].row <= b,
                },
            decreases self.positions@.len() - i,
        {
            let p = self.positions[i];
            if p.col == position.col && p.row < position.row {
                best = match best {
                    None => Some(p.row),
                    Some(b) => if p.row > b {
                        Some(p.row)
                    } else {
                        Some(b)
                    },
                };
            }
            i = i + 1;
        }
        match best {
            None => None,
            Some(b) => {
                proof {
                    let j0 = choose|j: int|
                        0 <= j < self.positions@.len() && self.positions@[j].col == position.col
                            && self.positions@[j].row == b;
                    assert(self.pos_seq()[j0].row == b);
                }
                Some(b + 1)
            },
        }
    }

    fn next_robot_down(&self, position: &Position) -> (r: Option<usize>) {
        let mut best: Option<usize> = None;
        let mut i: usize = 0;
        while i < self.positions.len()
            invariant
                i <= self.positions@.len(),
                match best {
                    None => forall|j: int|
                        0 <= j < i ==> !(self.positions@[j].col == position.col
                            && self.positions@[j].row > position.row),
                    Some(b) => b > position.row && (exists|j: int|
                        0 <= j < self.positions@.len() && self.positions@[j].col == position.col
                            && self.positions@[j].row == b) && forall|j: int|
                        0 <= j < i && self.positions@[j].col == position.col
                            && self.positions@[j].row > position.row
                            ==> self.positions@[j].row >= b,
                },
            decreases self.positions@.len() - i,
        {
            let p = self.positions[i];
            if p.col == position.col && p.row > position.row {
                best = match best {
                    None => Some(p.row),
                    Some(b) => if p.row < b {
                        Some(p.row)
                    } else {
                        Some(b)
                    },
                };
            }
            i = i + 1;
        }
        match best {
            None => None,
            Some(b) => {
                proof {
                    let j0 = choose|j: int|
                        0 <= j < self.positions@.len() && self.positions@[j].col == position.col
                            && self.positions@[j].row == b;
                    assert(self.pos_seq()[j0].row == b);
                }
                Some(b - 1)
            },
        }
    }

    fn next_robot_right(&self, position: &Position) -> (r: Option<usize>) {
        let mut best: Option<usize> = None;
        let mut i: usize = 0;
        while i < self.positions.len()
            invariant
                i <= self.positions@.len(),
                match best {
                    None => forall|j: int|
                        0 <= j < i ==> !(self.positions@[j].row == position.row
                            && self.positions@[j].col > position.col),
                    Some(b) => b > position.col && (exists|j: int|
                        0 <= j < self.positions@.len() && self.positions@[j].row == position.row
                            && self.positions@[j].col == b) && forall|j: int|
                        0 <= j < i && self.positions@[j].row == position.row
                            && self.positions@[j].col > position.col
                            ==> self.positions@[j].col >= b,
                },
            decreases self.positions@.len() - i,
        {
            let p = self.positions[i];
            if p.row == position.row && p.col > position.col {
                best = match best {
                    None => Some(p.col),
                    Some(b) => if p.col < b {
                        Some(p.col)
                    } else {
                        Some(b)
                    },
                };
            }
            i = i + 1;
        }
        match best {
            None => None,
            Some(b) => {
                proof {
                    let j0 = choose|j: int|
                        0 <= j < self.positions@.len() && self.positions@[j].row == position.row
                            && self.positions@[j].col == b;
                    assert(self.pos_seq()[j0].col == b);
                }
                Some(b - 1)
            },
        }
    }

    fn next_robot_left(&self, position: &Position) -> (r: Option<usize>) {
        let mut best: Option<usize> = None;
        let mut i: usize = 0;
        while i < self.positions.len()
            invariant
                i <= self.positions@.len(),
                match best {
                    None => forall|j: int|
                        0 <= j < i ==> !(self.positions@[j].row == position.row
                            && self.positions@[j].col < position.col),
                    Some(b) => b < position.col && (exists|j: int|
                        0 <= j < self.positions@.len() && self.positions@[j].row == position.row
                            && self.positions@[j].col == b) && forall|j: int|
                        0 <= j < i && self.positions@[j].row == position.row
                            && self.positions@[j].col < position.col
                            ==> self.positions@[j].col <= b,
                },
            decreases self.positions@.len() - i,
        {
            let p = self.positions[i];
            if p.row == position.row && p.col < position.col {
                best = match best {
                    None => Some(p.col),
                    Some(b) => if p.col > b {
                        Some(p.col)
                    } else {
                        Some(b)
                    },
                };
            }
            i = i + 1;
        }
        match best {
            None => None,
            Some(b) => {
                proof {
                    let j0 = choose|j: int|
                        0 <= j < self.positions@.len() && self.positions@[j].row == position.row
                            && self.positions@[j].col == b;
                    assert(self.pos_seq()[j0].col == b);
                }
                Some(b + 1)
            },
        }
    }
}

} // verus!
