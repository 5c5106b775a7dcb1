//! Movement rules of the board: combine the wall layout, the robot snapshot
//! and the board edge to compute where a sliding robot stops.

use vstd::prelude::*;

use crate::robot_positions::RobotPositions;
use crate::wall_configuration::WallConfiguration;
use crate::{Direction, Position};

verus! {

/// Some robot of `ps` occupies the cell `(row, col)`.
pub open spec fn robot_at(ps: Seq<Position>, row: int, col: int) -> bool {
    exists|i: int| 0 <= i < ps.len() && ps[i].row == row && ps[i].col == col
}

/// All robot cells lie within the board dimensions of `walls`.
pub open spec fn positions_in_bounds<W: WallConfiguration>(walls: W, ps: Seq<Position>) -> bool {
    forall|i: int|
        0 <= i < ps.len() ==> (#[trigger] ps[i]).row < walls.spec_height() && ps[i].col
            < walls.spec_width()
}

/// No two robots share a cell.
pub open spec fn positions_distinct(ps: Seq<Position>) -> bool {
    forall|i: int, j: int| 0 <= i < j < ps.len() ==> ps[i] != ps[j]
}

/// Row `s` is where a robot sliding up from `from` comes to rest: every cell
/// strictly above down to `s` is free and no wall is crossed, and `s` itself
/// is forced by the board edge, a wall, or a robot directly above.
pub open spec fn up_stop<W: WallConfiguration>(
    walls: W,
    ps: Seq<Position>,
    from: Position,
    s: int,
) -> bool {
    &&& 0 <= s <= from.row
    &&& forall|t: int| s <= t < from.row ==> !walls.has_bottom_wall(from.col as int, t)
    &&& forall|t: int| s <= t < from.row ==> !robot_at(ps, t, from.col as int)
    &&& (s == 0 || walls.has_bottom_wall(from.col as int, s - 1) || robot_at(
        ps,
        s - 1,
        from.col as int,
    ))
}

/// Row `s` is where a robot sliding down from `from` comes to rest.
pub open spec fn down_stop<W: WallConfiguration>(
    walls: W,
    ps: Seq<Position>,
    from: Position,
    s: int,
) -> bool {
    &&& from.row <= s < walls.spec_height()
    &&& forall|t: int| from.row <= t < s ==> !walls.has_bottom_wall(from.col as int, t)
    &&& forall|t: int| from.row < t <= s ==> !robot_at(ps, t, from.col as int)
    &&& (s == walls.spec_height() - 1 || walls.has_bottom_wall(from.col as int, s) || robot_at(
        ps,
        s + 1,
        from.col as int,
    ))
}

/// Column `s` is where a robot sliding right from `from` comes to rest.
pub open spec fn right_stop<W: WallConfiguration>(
    walls: W,
    ps: Seq<Position>,
    from: Position,
    s: int,
) -> bool {
    &&& from.col <= s < walls.spec_width()
    &&& forall|t: int| from.col <= t < s ==> !walls.has_right_wall(from.row as int, t)
    &&& forall|t: int| from.col < t <= s ==> !robot_at(ps, from.row as int, t)
    &&& (s == walls.spec_width() - 1 || walls.has_right_wall(from.row as int, s) || robot_at(
        ps,
        from.row as int,
        s + 1,
    ))
}

/// Column `s` is where a robot sliding left from `from` comes to rest.
pub open spec fn left_stop<W: WallConfiguration>(
    walls: W,
    ps: Seq<Position>,
    from: Position,
    s: int,
) -> bool {
    &&& 0 <= s <= from.col
    &&& forall|t: int| s <= t < from.col ==> !walls.has_right_wall(from.row as int, t)
    &&& forall|t: int| s <= t < from.col ==> !robot_at(ps, from.row as int, t)
    &&& (s == 0 || walls.has_right_wall(from.row as int, s - 1) || robot_at(
        ps,
        from.row as int,
        s - 1,
    ))
}

/// `dest` is the resting cell of a slide from `from` in direction `dir`.
pub open spec fn move_stop<W: WallConfiguration>(
    walls: W,
    ps: Seq<Position>,
    from: Position,
    dir: Direction,
    dest: Position,
) -> bool {
    match dir {
        Direction::Up => dest.col == from.col && up_stop(walls, ps, from, dest.row as int),
        Direction::Down => dest.col == from.col && down_stop(walls, ps, from, dest.row as int),
        Direction::Right => dest.row == from.row && right_stop(walls, ps, from, dest.col as int),
        Direction::Left => dest.row == from.row && left_stop(walls, ps, from, dest.col as int),
    }
}

/// Robot `robot` can actually move in direction `dir` and comes to rest on
/// `dest`: the slide stops there and the slide is not empty.
pub open spec fn valid_move_to<W: WallConfiguration>(
    walls: W,
    ps: Seq<Position>,
    robot: int,
    dir: Direction,
    dest: Position,
) -> bool {
    &&& 0 <= robot < ps.len()
    &&& move_stop(walls, ps, ps[robot], dir, dest)
    &&& dest != ps[robot]
}

/// Rank of a direction in the order the movement rules report moves.
pub open spec fn dir_rank(d: Direction) -> int {
    match d {
        Direction::Up => 0,
        Direction::Down => 1,
        Direction::Right => 2,
        Direction::Left => 3,
    }
}

/// The resting row of a slide is unique.
pub proof fn lemma_up_stop_unique<W: WallConfiguration>(
    walls: W,
    ps: Seq<Position>,
    from: Position,
    s1: int,
    s2: int,
)
    requires
        up_stop(walls, ps, from, s1),
        up_stop(walls, ps, from, s2),
    ensures
        s1 == s2,
{
    if s1 < s2 {
        assert(s1 <= s2 - 1 < from.row);
        assert(!walls.has_bottom_wall(from.col as int, s2 - 1));
        assert(!robot_at(ps, s2 - 1, from.col as int));
    }
    if s2 < s1 {
        assert(s2 <= s1 - 1 < from.row);
        assert(!walls.has_bottom_wall(from.col as int, s1 - 1));
        assert(!robot_at(ps, s1 - 1, from.col as int));
    }
}

/// The resting row of a slide is unique.
pub proof fn lemma_down_stop_unique<W: WallConfiguration>(
    walls: W,
    ps: Seq<Position>,
    from: Position,
    s1: int,
    s2: int,
)
    requires
        down_stop(walls, ps, from, s1),
        down_stop(walls, ps, from, s2),
    ensures
        s1 == s2,
{
    if s1 < s2 {
        assert(!walls.has_bottom_wall(from.col as int, s1) && !robot_at(
            ps,
            s1 + 1,
            from.col as int,
        ));
    }
    if s2 < s1 {
        assert(!walls.has_bottom_wall(from.col as int, s2) && !robot_at(
            ps,
            s2 + 1,
            from.col as int,
        ));
    }
}

/// The resting column of a slide is unique.
pub proof fn lemma_right_stop_unique<W: WallConfiguration>(
    walls: W,
    ps: Seq<Position>,
    from: Position,
    s1: int,
    s2: int,
)
    requires
        right_stop(walls, ps, from, s1),
        right_stop(walls, ps, from, s2),
    ensures
        s1 == s2,
{
    if s1 < s2 {
        assert(!walls.has_right_wall(from.row as int, s1) && !robot_at(
            ps,
            from.row as int,
            s1 + 1,
        ));
    }
    if s2 < s1 {
        assert(!walls.has_right_wall(from.row as int, s2) && !robot_at(
            ps,
            from.row as int,
            s2 + 1,
        ));
    }
}

/// The resting column of a slide is unique.
pub proof fn lemma_left_stop_unique<W: WallConfiguration>(
    walls: W,
    ps: Seq<Position>,
    from: Position,
    s1: int,
    s2: int,
)
    requires
        left_stop(walls, ps, from, s1),
        left_stop(walls, ps, from, s2),
    ensures
        s1 == s2,
{
    if s1 < s2 {
        assert(!walls.has_right_wall(from.row as int, s2 - 1) && !robot_at(
            ps,
            from.row as int,
            s2 - 1,
        ));
    }
    if s2 < s1 {
        assert(!walls.has_right_wall(from.row as int, s1 - 1) && !robot_at(
            ps,
            from.row as int,
            s1 - 1,
        ));
    }
}

/// Law: a computed destination never equals the moving robot's current cell;
/// a slide of zero displacement is never reported as a move.
pub proof fn lemma_destination_differs<W: WallConfiguration>(
    walls: W,
    ps: Seq<Position>,
    robot: int,
    dir: Direction,
    dest: Position,
)
    requires
        valid_move_to(walls, ps, robot, dir, dest),
    ensures
        dest != ps[robot],
{
}

/// Law: a computed destination is never a cell occupied by any robot.
pub proof fn lemma_destination_unoccupied<W: WallConfiguration>(
    walls: W,
    ps: Seq<Position>,
    robot: int,
    dir: Direction,
    dest: Position,
)
    requires
        valid_move_to(walls, ps, robot, dir, dest),
    ensures
        forall|i: int| 0 <= i < ps.len() ==> ps[i] != dest,
{
    let from = ps[robot];
    assert forall|i: int| 0 <= i < ps.len() implies ps[i] != dest by {
        if ps[i] == dest {
            match dir {
                Direction::Up => {
                    assert(dest.row < from.row);
                    assert(robot_at(ps, dest.row as int, from.col as int));
                },
                Direction::Down => {
                    assert(dest.row > from.row);
                    assert(robot_at(ps, dest.row as int, from.col as int));
                },
                Direction::Right => {
                    assert(dest.col > from.col);
                    assert(robot_at(ps, from.row as int, dest.col as int));
                },
                Direction::Left => {
                    assert(dest.col < from.col);
                    assert(robot_at(ps, from.row as int, dest.col as int));
                },
            }
        }
    }
}

/// Law: applying a valid move keeps all robot cells within bounds and
/// pairwise distinct; the resulting snapshot never contains duplicates.
pub proof fn lemma_move_preserves_wf<W: WallConfiguration>(
    walls: W,
    ps: Seq<Position>,
    robot: int,
    dir: Direction,
    dest: Position,
)
    requires
        positions_in_bounds(walls, ps),
        positions_distinct(ps),
        valid_move_to(walls, ps, robot, dir, dest),
    ensures
        positions_in_bounds(walls, ps.update(robot, dest)),
        positions_distinct(ps.update(robot, dest)),
{
    lemma_destination_unoccupied(walls, ps, robot, dir, dest);
    let updated = ps.update(robot, dest);
    assert forall|i: int, j: int| 0 <= i < j < updated.len() implies updated[i] != updated[j] by {
        if i != robot && j != robot {
            assert(ps[i] != ps[j]);
        }
    }
}

/// The cell against the board edge in direction `dir`, seen from `from`.
pub open spec fn edge_cell<W: WallConfiguration>(walls: W, from: Position, dir: Direction) -> Position {
    match dir {
        Direction::Up => Position { row: 0, col: from.col },
        Direction::Down => Position { row: (walls.spec_height() - 1) as usize, col: from.col },
        Direction::Right => Position { row: from.row, col: (walls.spec_width() - 1) as usize },
        Direction::Left => Position { row: from.row, col: 0 },
    }
}

/// No wall lies on the moving robot's row or column line for `dir`, and no
/// other robot shares that line.
pub open spec fn line_clear<W: WallConfiguration>(
    walls: W,
    ps: Seq<Position>,
    robot: int,
    dir: Direction,
) -> bool {
    match dir {
        Direction::Up => vertical_line_clear(walls, ps, robot),
        Direction::Down => vertical_line_clear(walls, ps, robot),
        Direction::Right => horizontal_line_clear(walls, ps, robot),
        Direction::Left => horizontal_line_clear(walls, ps, robot),
    }
}

pub open spec fn vertical_line_clear<W: WallConfiguration>(
    walls: W,
    ps: Seq<Position>,
    robot: int,
) -> bool {
    &&& forall|t: int| !walls.has_bottom_wall(ps[robot].col as int, t)
    &&& forall|i: int| 0 <= i < ps.len() && i != robot ==> (#[trigger] ps[i]).col != ps[robot].col
}

pub open spec fn horizontal_line_clear<W: WallConfiguration>(
    walls: W,
    ps: Seq<Position>,
    robot: int,
) -> bool {
    &&& forall|t: int| !walls.has_right_wall(ps[robot].row as int, t)
    &&& forall|i: int| 0 <= i < ps.len() && i != robot ==> (#[trigger] ps[i]).row != ps[robot].row
}

/// Law: a robot sliding on a line with no walls and no other robot stops
/// exactly against the board edge in that direction.
pub proof fn lemma_clear_line_reaches_edge<W: WallConfiguration>(
    walls: W,
    ps: Seq<Position>,
    robot: int,
    dir: Direction,
)
    requires
        0 <= robot < ps.len(),
        positions_in_bounds(walls, ps),
        walls.spec_height() <= usize::MAX,
        walls.spec_width() <= usize::MAX,
        line_clear(walls, ps, robot, dir),
        edge_cell(walls, ps[robot], dir) != ps[robot],
    ensures
        valid_move_to(walls, ps, robot, dir, edge_cell(walls, ps[robot], dir)),
{
    let from = ps[robot];
    let dest = edge_cell(walls, from, dir);
    match dir {
        Direction::Up => {
            assert forall|t: int| 0 <= t < from.row implies !robot_at(ps, t, from.col as int) by {
                if robot_at(ps, t, from.col as int) {
                    let i = choose|i: int|
                        0 <= i < ps.len() && ps[i].row == t && ps[i].col == from.col;
                    assert(i == robot);
                }
            }
        },
        Direction::Down => {
            assert forall|t: int| from.row < t implies !robot_at(ps, t, from.col as int) by {
                if robot_at(ps, t, from.col as int) {
                    let i = choose|i: int|
                        0 <= i < ps.len() && ps[i].row == t && ps[i].col == from.col;
                    assert(i == robot);
                }
            }
            assert(down_stop(walls, ps, from, walls.spec_height() - 1));
        },
        Direction::Right => {
            assert forall|t: int| from.col < t implies !robot_at(ps, from.row as int, t) by {
                if robot_at(ps, from.row as int, t) {
                    let i = choose|i: int|
                        0 <= i < ps.len() && ps[i].row == from.row && ps[i].col == t;
                    assert(i == robot);
                }
            }
            assert(right_stop(walls, ps, from, walls.spec_width() - 1));
        },
        Direction::Left => {
            assert forall|t: int| 0 <= t < from.col implies !robot_at(ps, from.row as int, t) by {
                if robot_at(ps, from.row as int, t) {
                    let i = choose|i: int|
                        0 <= i < ps.len() && ps[i].row == from.row && ps[i].col == t;
                    assert(i == robot);
                }
            }
        },
    }
}

/// Immutable container for the board setup.
pub struct Board<W: WallConfiguration> {
    wall_configuration: W,
}

impl<W: WallConfiguration> Board<W> {
    /// The wall layout this board was built from.
    pub closed spec fn walls(&self) -> W {
        self.wall_configuration
    }

    pub fn new(wall_configuration: W) -> (b: Self)
        ensures
            b.walls() == wall_configuration,
    {
        Board { wall_configuration }
    }

    fn get_valid_up_move<P: RobotPositions>(&self, robot: usize, robot_positions: &P) -> (r:
        Option<Position>)
        requires
            self.walls().wf(),
            robot < robot_positions.pos_seq().len(),
            positions_in_bounds(self.walls(), robot_positions.pos_seq()),
        ensures
            match r {
                Some(p) => valid_move_to(
                    self.walls(),
                    robot_positions.pos_seq(),
                    robot as int,
                    Direction::Up,
                    p,
                ),
                None => up_stop(
                    self.walls(),
                    robot_positions.pos_seq(),
                    robot_positions.pos_seq()[robot as int],
                    robot_positions.pos_seq()[robot as int].row as int,
                ),
            },
    {
        let position = *robot_positions.get_robot_position(robot);
        let up_wall = self.wall_configuration.next_wall_up(&position);
        let up_robot = robot_positions.next_robot_up(&position);
        let mut stop: usize = 0;
        if let Some(k) = up_wall {
            if k > stop {
                stop = k;
            }
        }
        if let Some(k) = up_robot {
            if k > stop {
                stop = k;
            }
        }
        proof {
            let ps = robot_positions.pos_seq();
            let c = position.col as int;
            assert forall|t: int|
                stop <= t < position.row implies !self.walls().has_bottom_wall(c, t) by {}
            assert forall|t: int| stop <= t < position.row implies !robot_at(ps, t, c) by {
                if robot_at(ps, t, c) {
                    let i = choose|i: int| 0 <= i < ps.len() && ps[i].row == t && ps[i].col == c;
                    assert(ps[i].col == position.col && ps[i].row < position.row);
                }
            }
            if stop > 0 {
                if up_robot == Some(stop) {
                    let i = choose|i: int|
                        0 <= i < ps.len() && ps[i].col == position.col && ps[i].row == stop - 1;
                    assert(robot_at(ps, stop - 1, c));
                } else {
                    assert(up_wall == Some(stop));
                }
            }
            assert(up_stop(self.walls(), ps, position, stop as int));
        }
        if stop != position.row {
            Some(Position { row: stop, col: position.col })
        } else {
            None
        }
    }

    fn get_valid_down_move<P: RobotPositions>(&self, robot: usize, robot_positions: &P) -> (r:
        Option<Position>)
        requires
            self.walls().wf(),
            robot < robot_positions.pos_seq().len(),
            positions_in_bounds(self.walls(), robot_positions.pos_seq()),
        ensures
            match r {
                Some(p) => valid_move_to(
                    self.walls(),
                    robot_positions.pos_seq(),
                    robot as int,
                    Direction::Down,
                    p,
                ),
                None => down_stop(
                    self.walls(),
                    robot_positions.pos_seq(),
                    robot_positions.pos_seq()[robot as int],
                    robot_positions.pos_seq()[robot as int].row as int,
                ),
            },
    {
        let position = *robot_positions.get_robot_position(robot);
        let down_wall = self.wall_configuration.next_wall_down(&position);
        let down_robot = robot_positions.next_robot_down(&position);
        let mut stop: usize = self.wall_configuration.get_height() - 1;
        if let Some(k) = down_wall {
            if k < stop {
                stop = k;
            }
        }
        if let Some(k) = down_robot {
            if k < stop {
                stop = k;
            }
        }
        proof {
            let ps = robot_positions.pos_seq();
            let c = position.col as int;
            assert forall|t: int|
                position.row < t <= stop implies !robot_at(ps, t, c) by {
                if robot_at(ps, t, c) {
                    let i = choose|i: int| 0 <= i < ps.len() && ps[i].row == t && ps[i].col == c;
                    assert(ps[i].col == position.col && ps[i].row > position.row);
                }
            }
            if stop != self.walls().spec_height() - 1 {
                if down_robot == Some(stop) {
                    let i = choose|i: int|
                        0 <= i < ps.len() && ps[i].col == position.col && ps[i].row == stop + 1;
                    assert(robot_at(ps, stop + 1, c));
                } else {
                    assert(down_wall == Some(stop));
                }
            }
            assert(down_stop(self.walls(), ps, position, stop as int));
        }
        if stop != position.row {
            Some(Position { row: stop, col: position.col })
        } else {
            None
        }
    }

    fn get_valid_right_move<P: RobotPositions>(&self, robot: usize, robot_positions: &P) -> (r:
        Option<Position>)
        requires
            self.walls().wf(),
            robot < robot_positions.pos_seq().len(),
            positions_in_bounds(self.walls(), robot_positions.pos_seq()),
        ensures
            match r {
                Some(p) => valid_move_to(
                    self.walls(),
                    robot_positions.pos_seq(),
                    robot as int,
                    Direction::Right,
                    p,
                ),
                None => right_stop(
                    self.walls(),
                    robot_positions.pos_seq(),
                    robot_positions.pos_seq()[robot as int],
                    robot_positions.pos_seq()[robot as int].col as int,
                ),
            },
    {
        let position = *robot_positions.get_robot_position(robot);
        let right_wall = self.wall_configuration.next_wall_right(&position);
        let right_robot = robot_positions.next_robot_right(&position);
        let mut stop: usize = self.wall_configuration.get_width() - 1;
        if let Some(k) = right_wall {
            if k < stop {
                stop = k;
            }
        }
        if let Some(k) = right_robot {
            if k < stop {
                stop = k;
            }
        }
        proof {
            let ps = robot_positions.pos_seq();
            let rw = position.row as int;
            assert forall|t: int|
                position.col < t <= stop implies !robot_at(ps, rw, t) by {
                if robot_at(ps, rw, t) {
                    let i = choose|i: int| 0 <= i < ps.len() && ps[i].row == rw && ps[i].col == t;
                    assert(ps[i].row == position.row && ps[i].col > position.col);
                }
            }
            if stop != self.walls().spec_width() - 1 {
                if right_robot == Some(stop) {
                    let i = choose|i: int|
                        0 <= i < ps.len() && ps[i].row == position.row && ps[i].col == stop + 1;
                    assert(robot_at(ps, rw, stop + 1));
                } else {
                    assert(right_wall == Some(stop));
                }
            }
            assert(right_stop(self.walls(), ps, position, stop as int));
        }
        if stop != position.col {
            Some(Position { row: position.row, col: stop })
        } else {
            None
        }
    }

    fn get_valid_left_move<P: RobotPositions>(&self, robot: usize, robot_positions: &P) -> (r:
        Option<Position>)
        requires
            self.walls().wf(),
            robot < robot_positions.pos_seq().len(),
            positions_in_bounds(self.walls(), robot_positions.pos_seq()),
        ensures
            match r {
                Some(p) => valid_move_to(
                    self.walls(),
                    robot_positions.pos_seq(),
                    robot as int,
                    Direction::Left,
                    p,
                ),
                None => left_stop(
                    self.walls(),
                    robot_positions.pos_seq(),
                    robot_positions.pos_seq()[robot as int],
                    robot_positions.pos_seq()[robot as int].col as int,
                ),
            },
    {
        let position = *robot_positions.get_robot_position(robot);
        let left_wall = self.wall_configuration.next_wall_left(&position);
        let left_robot = robot_positions.next_robot_left(&position);
        let mut stop: usize = 0;
        if let Some(k) = left_wall {
            if k > stop {
                stop = k;
            }
        }
        if let Some(k) = left_robot {
            if k > stop {
                stop = k;
            }
        }
        proof {
            let ps = robot_positions.pos_seq();
            let rw = position.row as int;
            assert forall|t: int|
                stop <= t < position.col implies !self.walls().has_right_wall(rw, t) by {}
            assert forall|t: int| stop <= t < position.col implies !robot_at(ps, rw, t) by {
                if robot_at(ps, rw, t) {
                    let i = choose|i: int| 0 <= i < ps.len() && ps[i].row == rw && ps[i].col == t;
                    assert(ps[i].row == position.row && ps[i].col < position.col);
                }
            }
            if stop > 0 {
                if left_robot == Some(stop) {
                    let i = choose|i: int|
                        0 <= i < ps.len() && ps[i].row == position.row && ps[i].col == stop - 1;
                    assert(robot_at(ps, rw, stop - 1));
                } else {
                    assert(left_wall == Some(stop));
                }
            }
            assert(left_stop(self.walls(), ps, position, stop as int));
        }
        if stop != position.col {
            Some(Position { row: position.row, col: stop })
        } else {
            None
        }
    }

    /// All moves robot `robot` can make from the snapshot `robot_positions`,
    /// with their destinations, in the direction order up, down, right, left.
    pub fn get_valid_moves_for_robot<P: RobotPositions>(
        &self,
        robot: usize,
        robot_positions: &P,
    ) -> (r: Vec<(Direction, Position)>)
        requires
            self.walls().wf(),
            robot < robot_positions.pos_seq().len(),
            positions_in_bounds(self.walls(), robot_positions.pos_seq()),
        ensures
            forall|j: int|
                0 <= j < r@.len() ==> #[trigger] valid_move_to(
                    self.walls(),
                    robot_positions.pos_seq(),
                    robot as int,
                    r@[j].0,
                    r@[j].1,
                ),
            forall|dir: Direction, dest: Position|
                valid_move_to(self.walls(), robot_positions.pos_seq(), robot as int, dir, dest)
                    ==> r@.contains((dir, dest)),
            forall|j1: int, j2: int|
                0 <= j1 < j2 < r@.len() ==> dir_rank(r@[j1].0) < dir_rank(r@[j2].0),
    {
        let up = self.get_valid_up_move(robot, robot_positions);
        let down = self.get_valid_down_move(robot, robot_positions);
        let right = self.get_valid_right_move(robot, robot_positions);
        let left = self.get_valid_left_move(robot, robot_positions);
        let mut result: Vec<(Direction, Position)> = Vec::new();
        if let Some(p) = up {
            result.push((Direction::Up, p));
        }
        if let Some(p) = down {
            result.push((Direction::Down, p));
        }
        if let Some(p) = right {
            result.push((Direction::Right, p));
        }
        if let Some(p) = left {
            result.push((Direction::Left, p));
        }
        proof {
            let w = self.walls();
            let ps = robot_positions.pos_seq();
            let from = ps[robot as int];
            let iu: int = 0;
            let id: int = if up is Some {
                1
            } else {
                0
            };
            let ir: int = id + if down is Some {
                1int
            } else {
                0int
            };
            let il: int = ir + if right is Some {
                1int
            } else {
                0int
            };
            assert(up matches Some(p) ==> result@[iu] == (Direction::Up, p));
            assert(down matches Some(p) ==> result@[id] == (Direction::Down, p));
            assert(right matches Some(p) ==> result@[ir] == (Direction::Right, p));
            assert(left matches Some(p) ==> result@[il] == (Direction::Left, p));
            assert forall|dir: Direction, dest: Position|
                valid_move_to(w, ps, robot as int, dir, dest) implies result@.contains(
                (dir, dest),
            ) by {
                match dir {
                    Direction::Up => {
                        match up {
                            Some(p) => {
                                lemma_up_stop_unique(w, ps, from, dest.row as int, p.row as int);
                                assert(dest == p);
                                assert(result@[iu] == (Direction::Up, p));
                            },
                            None => {
                                lemma_up_stop_unique(
                                    w,
                                    ps,
                                    from,
                                    dest.row as int,
                                    from.row as int,
                                );
                            },
                        }
                    },
                    Direction::Down => {
                        match down {
                            Some(p) => {
                                lemma_down_stop_unique(w, ps, from, dest.row as int, p.row as int);
                                assert(dest == p);
                                assert(result@[id] == (Direction::Down, p));
                            },
                            None => {
                                lemma_down_stop_unique(
                                    w,
                                    ps,
                                    from,
                                    dest.row as int,
                                    from.row as int,
                                );
                            },
                        }
                    },
                    Direction::Right => {
                        match right {
                            Some(p) => {
                                lemma_right_stop_unique(w, ps, from, dest.col as int, p.col as int);
                                assert(dest == p);
                                assert(result@[ir] == (Direction::Right, p));
                            },
                            None => {
                                lemma_right_stop_unique(
                                    w,
                                    ps,
                                    from,
                                    dest.col as int,
                                    from.col as int,
                                );
                            },
                        }
                    },
                    Direction::Left => {
                        match left {
                            Some(p) => {
                                lemma_left_stop_unique(w, ps, from, dest.col as int, p.col as int);
                                assert(dest == p);
                                assert(result@[il] == (Direction::Left, p));
                            },
                            None => {
                                lemma_left_stop_unique(
                                    w,
                                    ps,
                                    from,
                                    dest.col as int,
                                    from.col as int,
                                );
                            },
                        }
                    },
                }
            }
        }
        result
    }
}

} // verus!
