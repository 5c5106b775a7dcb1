//! Best-first search over robot snapshots: expands states through the
//! movement rules, threads moves through a move sequence, and returns a
//! minimal-move solution bringing the target robot onto the target cell.

use core::marker::PhantomData;

use vstd::arithmetic::power::lemma_pow_positive;
use vstd::arithmetic::power::pow;
use vstd::prelude::*;
use vstd::seq_lib::group_seq_properties;
use vstd::set_lib::lemma_int_range;
use vstd::set_lib::lemma_len_subset;
use vstd::set_lib::set_int_range;

use crate::board::{
    positions_in_bounds, positions_distinct, valid_move_to, Board, lemma_move_preserves_wf,
};
use crate::move_sequence::{Move, MoveSequence};
use crate::robot_positions::RobotPositions;
use crate::wall_configuration::WallConfiguration;
use crate::Direction;
use crate::Position;

verus! {

/// The target robot stands on the target cell in snapshot `ps`.
pub open spec fn goal_reached(ps: Seq<Position>, target: (usize, Position)) -> bool {
    target.0 < ps.len() && ps[target.0 as int] == target.1
}

/// The snapshot in force before step `i` of `steps` is taken: the snapshot
/// produced by step `i - 1`, or `start` for the first step.  At
/// `i == steps.len()` this is the final snapshot.
pub open spec fn chain_state(
    start: Seq<Position>,
    steps: Seq<(Move, Seq<Position>)>,
    i: int,
) -> Seq<Position> {
    if i <= 0 {
        start
    } else {
        steps[i - 1].1
    }
}

/// Step `(m, post)` is legal from snapshot `pre`: the moved robot slides to
/// the recorded cell and every other robot stays put.
pub open spec fn valid_step<W: WallConfiguration>(
    walls: W,
    pre: Seq<Position>,
    m: Move,
    post: Seq<Position>,
) -> bool {
    &&& (m.robot as int) < pre.len()
    &&& valid_move_to(walls, pre, m.robot as int, m.direction, post[m.robot as int])
    &&& post == pre.update(m.robot as int, post[m.robot as int])
}

/// Every step of `steps` is legal from the snapshot the previous steps
/// produced, starting from `start`.
pub open spec fn valid_chain<W: WallConfiguration>(
    walls: W,
    start: Seq<Position>,
    steps: Seq<(Move, Seq<Position>)>,
) -> bool {
    forall|i: int|
        0 <= i < steps.len() ==> valid_step(
            walls,
            chain_state(start, steps, i),
            (#[trigger] steps[i]).0,
            steps[i].1,
        )
}

/// A reachable snapshot is well formed: same robot count as the start,
/// within bounds, and with pairwise distinct cells.
pub open spec fn state_wf<W: WallConfiguration>(
    walls: W,
    start: Seq<Position>,
    ps: Seq<Position>,
) -> bool {
    &&& ps.len() == start.len()
    &&& positions_in_bounds(walls, ps)
    &&& positions_distinct(ps)
}

/// Search cost of one in-flight node, compared lexicographically: fewer
/// moves first, then fewer switches between which robot is moved.
struct Cost {
    moves: usize,
    robot_change: usize,
}

spec fn cost_le(a: Cost, b: Cost) -> bool {
    a.moves < b.moves || (a.moves == b.moves && a.robot_change <= b.robot_change)
}

/// A move sequence together with the cost under which it was enqueued.
pub struct SequenceWithCost<P, M> where P: RobotPositions, M: MoveSequence<P> {
    move_sequence: M,
    cost: Cost,
    phantom_position: PhantomData<P>,
}

impl<P, M> SequenceWithCost<P, M> where P: RobotPositions, M: MoveSequence<P> {
    /// The recorded steps of this node's move sequence.
    pub closed spec fn steps(&self) -> Seq<(Move, Seq<Position>)> {
        self.move_sequence.steps()
    }

    /// The move count this node was enqueued under.
    pub closed spec fn num_moves(&self) -> int {
        self.cost.moves as int
    }

    /// The robot-switch count this node was enqueued under.
    pub closed spec fn num_robot_changes(&self) -> int {
        self.cost.robot_change as int
    }

    /// The recorded steps in chronological order.
    pub fn moves(&self) -> (r: Vec<(Move, P)>)
        ensures
            r@.len() == self.steps().len(),
            forall|i: int|
                0 <= i < r@.len() ==> (#[trigger] r@[i]).0 == self.steps()[i].0
                    && r@[i].1.pos_seq() == self.steps()[i].1,
    {
        self.move_sequence.duplicate().to_vec()
    }
}

/// Whether a snapshot with the same cells is already recorded in `seen`.
fn contains_state<P: RobotPositions>(seen: &Vec<P>, p: &P) -> (r: bool)
    ensures
        r == exists|i: int| 0 <= i < seen@.len() && (#[trigger] seen@[i]).pos_seq() == p.pos_seq(),
{
    let mut i: usize = 0;
    while i < seen.len()
        invariant
            i <= seen@.len(),
            forall|j: int| 0 <= j < i ==> (#[trigger] seen@[j]).pos_seq() != p.pos_seq(),
        decreases seen@.len() - i,
    {
        if seen[i].same_positions(p) {
            return true;
        }
        i = i + 1;
    }
    false
}

/// Index of a minimum-cost node in a non-empty queue.
fn min_cost_index<P: RobotPositions, M: MoveSequence<P>>(
    queue: &Vec<SequenceWithCost<P, M>>,
) -> (best: usize)
    requires
        queue@.len() > 0,
    ensures
        best < queue@.len(),
        forall|i: int|
            0 <= i < queue@.len() ==> cost_le(queue@[best as int].cost, (#[trigger] queue@[i]).cost),
{
    let mut best: usize = 0;
    let mut j: usize = 1;
    while j < queue.len()
        invariant
            0 < queue@.len(),
            best < queue@.len(),
            1 <= j <= queue@.len(),
            forall|i: int|
                0 <= i < j ==> cost_le(queue@[best as int].cost, (#[trigger] queue@[i]).cost),
        decreases queue@.len() - j,
    {
        let challenger = &queue[j];
        let incumbent = &queue[best];
        if challenger.cost.moves < incumbent.cost.moves || (challenger.cost.moves
            == incumbent.cost.moves && challenger.cost.robot_change
            < incumbent.cost.robot_change) {
            best = j;
        }
        j = j + 1;
    }
    best
}

/// All cells of `s` lie within a board of the given dimensions.
spec fn state_in_bounds(s: Seq<Position>, height: int, width: int) -> bool {
    forall|i: int| 0 <= i < s.len() ==> (#[trigger] s[i]).row < height && s[i].col < width
}

/// Injective numbering of in-bounds snapshots, used to bound how many
/// distinct snapshots a search can ever record.
spec fn state_code(s: Seq<Position>, height: int, width: int) -> int
    decreases s.len(),
{
    if s.len() == 0 {
        0
    } else {
        (s[0].row * width + s[0].col) + (height * width) * state_code(s.drop_first(), height, width)
    }
}

proof fn lemma_state_code_bounds(s: Seq<Position>, height: int, width: int)
    requires
        height > 0,
        width > 0,
        state_in_bounds(s, height, width),
    ensures
        0 <= state_code(s, height, width) < pow(height * width, s.len()),
    decreases s.len(),
{
    let b = height * width;
    reveal(pow);
    if s.len() == 0 {
        assert(pow(b, 0) == 1);
    } else {
        let rest = s.drop_first();
        assert(state_in_bounds(rest, height, width)) by {
            assert(forall|i: int| 0 <= i < rest.len() ==> rest[i] == s[i + 1]);
        }
        lemma_state_code_bounds(rest, height, width);
        let d = s[0].row * width + s[0].col;
        let rc = state_code(rest, height, width);
        assert(0 <= d < b) by (nonlinear_arith)
            requires
                height > 0,
                width > 0,
                0 <= s[0].row < height,
                0 <= s[0].col < width,
                d == s[0].row * width + s[0].col,
                b == height * width,
        {
        }
        assert(pow(b, s.len()) == b * pow(b, rest.len()));
        assert(0 <= d + b * rc < b * pow(b, rest.len())) by (nonlinear_arith)
            requires
                0 <= d < b,
                0 <= rc < pow(b, rest.len()),
                b > 0,
        {
        }
    }
}

proof fn lemma_state_code_injective(s1: Seq<Position>, s2: Seq<Position>, height: int, width: int)
    requires
        height > 0,
        width > 0,
        s1.len() == s2.len(),
        state_in_bounds(s1, height, width),
        state_in_bounds(s2, height, width),
        state_code(s1, height, width) == state_code(s2, height, width),
    ensures
        s1 == s2,
    decreases s1.len(),
{
    let b = height * width;
    if s1.len() == 0 {
        assert(s1 =~= s2);
    } else {
        let r1 = s1.drop_first();
        let r2 = s2.drop_first();
        assert(state_in_bounds(r1, height, width)) by {
            assert(forall|i: int| 0 <= i < r1.len() ==> r1[i] == s1[i + 1]);
        }
        assert(state_in_bounds(r2, height, width)) by {
            assert(forall|i: int| 0 <= i < r2.len() ==> r2[i] == s2[i + 1]);
        }
        let d1 = s1[0].row * width + s1[0].col;
        let d2 = s2[0].row * width + s2[0].col;
        let c1 = state_code(r1, height, width);
        let c2 = state_code(r2, height, width);
        lemma_state_code_bounds(r1, height, width);
        lemma_state_code_bounds(r2, height, width);
        assert(0 <= d1 < b && 0 <= d2 < b) by (nonlinear_arith)
            requires
                height > 0,
                width > 0,
                0 <= s1[0].row < height,
                0 <= s1[0].col < width,
                0 <= s2[0].row < height,
                0 <= s2[0].col < width,
                d1 == s1[0].row * width + s1[0].col,
                d2 == s2[0].row * width + s2[0].col,
                b == height * width,
        {
        }
        assert(d1 == d2 && c1 == c2) by (nonlinear_arith)
            requires
                0 <= d1 < b,
                0 <= d2 < b,
                d1 + b * c1 == d2 + b * c2,
                b > 0,
        {
        }
        assert(s1[0].row == s2[0].row && s1[0].col == s2[0].col) by (nonlinear_arith)
            requires
                width > 0,
                0 <= s1[0].col < width,
                0 <= s2[0].col < width,
                s1[0].row * width + s1[0].col == s2[0].row * width + s2[0].col,
                s1[0].row >= 0,
                s2[0].row >= 0,
        {
        }
        lemma_state_code_injective(r1, r2, height, width);
        assert(s1 =~= s2) by {
            assert(forall|i: int| 1 <= i < s1.len() ==> s1[i] == r1[i - 1] && s2[i] == r2[i - 1]);
        }
    }
}

/// A collection of pairwise distinct in-bounds snapshots of `n` robots can
/// hold at most `(height * width) ^ n` entries.
proof fn lemma_distinct_states_bounded(
    states: Seq<Seq<Position>>,
    height: int,
    width: int,
    n: nat,
)
    requires
        height > 0,
        width > 0,
        forall|i: int|
            0 <= i < states.len() ==> (#[trigger] states[i]).len() == n && state_in_bounds(
                states[i],
                height,
                width,
            ),
        forall|i: int, j: int| 0 <= i < j < states.len() ==> states[i] != states[j],
    ensures
        states.len() <= pow(height * width, n),
{
    broadcast use group_seq_properties;

    let b = height * width;
    let codes = states.map_values(|s: Seq<Position>| state_code(s, height, width));
    assert(codes.len() == states.len());
    assert forall|i: int, j: int|
        0 <= i < codes.len() && 0 <= j < codes.len() && i != j implies codes[i] != codes[j] by {
        if codes[i] == codes[j] {
            if i < j {
                lemma_state_code_injective(states[i], states[j], height, width);
            } else {
                lemma_state_code_injective(states[j], states[i], height, width);
            }
        }
    }
    assert(codes.no_duplicates());
    codes.unique_seq_to_set();
    assert forall|x: int| codes.to_set().contains(x) implies set_int_range(
        0,
        pow(b, n),
    ).contains(x) by {
        let i = choose|i: int| 0 <= i < codes.len() && codes[i] == x;
        lemma_state_code_bounds(states[i], height, width);
    }
    assert(codes.to_set().subset_of(set_int_range(0, pow(b, n))));
    assert(b > 0) by (nonlinear_arith)
        requires
            height > 0,
            width > 0,
            b == height * width,
    {
    }
    lemma_pow_positive(b, n);
    lemma_int_range(0, pow(b, n));
    lemma_len_subset(codes.to_set(), set_int_range(0, pow(b, n)));
}

/// The snapshot a queue node currently stands on: the last snapshot of its
/// history, or the start for an empty history.
pub open spec fn node_state<P: RobotPositions, M: MoveSequence<P>>(
    start: Seq<Position>,
    node: SequenceWithCost<P, M>,
) -> Seq<Position> {
    chain_state(start, node.steps(), node.steps().len() as int)
}

/// Snapshot `s` is fully expanded into `states`: it is not a goal snapshot,
/// and the snapshot after every move the rules allow from it already lies in
/// `states`.
pub open spec fn expanded_into<W: WallConfiguration>(
    walls: W,
    states: Seq<Seq<Position>>,
    target: (usize, Position),
    s: Seq<Position>,
) -> bool {
    &&& !goal_reached(s, target)
    &&& forall|robot: int, dir: Direction, dest: Position|
        #[trigger] valid_move_to(walls, s, robot, dir, dest) ==> states.contains(
            s.update(robot, dest),
        )
}

/// A sealed region: a collection of snapshots holding the start, none of
/// which is a goal snapshot, closed under every move the rules allow.  Such
/// a region witnesses that the goal is unreachable from the start.
pub open spec fn sealed_region<W: WallConfiguration>(
    walls: W,
    start: Seq<Position>,
    target: (usize, Position),
    states: Seq<Seq<Position>>,
) -> bool {
    &&& states.contains(start)
    &&& forall|k: int|
        0 <= k < states.len() ==> expanded_into(walls, states, target, #[trigger] states[k])
}

/// Law: a sealed region witnesses unreachability.  Every legal chain from
/// the start stays inside the region, so none of its snapshots -- in
/// particular not its last -- satisfies the goal.
pub proof fn lemma_sealed_region_unreachable<W: WallConfiguration>(
    walls: W,
    start: Seq<Position>,
    target: (usize, Position),
    states: Seq<Seq<Position>>,
    steps: Seq<(Move, Seq<Position>)>,
)
    requires
        sealed_region(walls, start, target, states),
        valid_chain(walls, start, steps),
    ensures
        states.contains(chain_state(start, steps, steps.len() as int)),
        !goal_reached(chain_state(start, steps, steps.len() as int), target),
    decreases steps.len(),
{
    if steps.len() == 0 {
        assert(chain_state(start, steps, 0) == start);
    } else {
        let prefix = steps.drop_last();
        assert forall|i: int|
            0 <= i < prefix.len() implies valid_step(
            walls,
            chain_state(start, prefix, i),
            (#[trigger] prefix[i]).0,
            prefix[i].1,
        ) by {
            assert(prefix[i] == steps[i]);
            assert(chain_state(start, prefix, i) == chain_state(start, steps, i));
            assert(valid_step(walls, chain_state(start, steps, i), steps[i].0, steps[i].1));
        }
        lemma_sealed_region_unreachable(walls, start, target, states, prefix);
        let pre = chain_state(start, prefix, prefix.len() as int);
        assert(pre == chain_state(start, steps, steps.len() - 1));
        let last = steps.last();
        assert(valid_step(walls, chain_state(start, steps, steps.len() - 1), last.0, last.1));
        let k = choose|k: int| 0 <= k < states.len() && states[k] == pre;
        assert(expanded_into(walls, states, target, pre));
        assert(valid_move_to(walls, pre, last.0.robot as int, last.0.direction, last.1[last.0.robot as int]));
        assert(states.contains(pre.update(last.0.robot as int, last.1[last.0.robot as int])));
        assert(chain_state(start, steps, steps.len() as int) == last.1);
    }
    let kf = choose|k: int|
        0 <= k < states.len() && states[k] == chain_state(start, steps, steps.len() as int);
    assert(expanded_into(walls, states, target, states[kf]));
}

/// A snapshot with cells `x` is already recorded in `seen`, under a move
/// count of at most `b`.
#[verifier::opaque]
spec fn in_seen<P: RobotPositions>(
    seen: Seq<P>,
    seen_moves: Seq<int>,
    x: Seq<Position>,
    b: int,
) -> bool {
    exists|i: int| 0 <= i < seen.len() && (#[trigger] seen[i]).pos_seq() == x && seen_moves[i] <= b
}

/// Snapshot `s`, recorded under move count `m`, is fully expanded into the
/// snapshots recorded in `seen`: it is not a goal snapshot, and the snapshot
/// after every move the rules allow from it is recorded under a move count
/// of at most `m + 1`.
#[verifier::opaque]
spec fn expanded_in_seen<W: WallConfiguration, P: RobotPositions>(
    walls: W,
    seen: Seq<P>,
    seen_moves: Seq<int>,
    target: (usize, Position),
    s: Seq<Position>,
    m: int,
) -> bool {
    &&& !goal_reached(s, target)
    &&& forall|robot: int, dir: Direction, dest: Position|
        #[trigger] valid_move_to(walls, s, robot, dir, dest) ==> in_seen(
            seen,
            seen_moves,
            s.update(robot, dest),
            m + 1,
        )
}

/// Some node of `queue` stands on the snapshot `x` with move count `m`.
#[verifier::opaque]
spec fn queued_state<P: RobotPositions, M: MoveSequence<P>>(
    start: Seq<Position>,
    queue: Seq<SequenceWithCost<P, M>>,
    x: Seq<Position>,
    m: int,
) -> bool {
    exists|j: int|
        0 <= j < queue.len() && node_state(start, #[trigger] queue[j]) == x && queue[j].num_moves()
            == m
}

proof fn lemma_in_seen_push<P: RobotPositions>(
    seen: Seq<P>,
    seen_moves: Seq<int>,
    y: P,
    ym: int,
    x: Seq<Position>,
    b: int,
)
    requires
        seen.len() == seen_moves.len(),
        in_seen(seen, seen_moves, x, b),
    ensures
        in_seen(seen.push(y), seen_moves.push(ym), x, b),
{
    reveal(in_seen);
    let i = choose|i: int|
        0 <= i < seen.len() && (#[trigger] seen[i]).pos_seq() == x && seen_moves[i] <= b;
    assert(seen.push(y)[i] == seen[i]);
    assert(seen_moves.push(ym)[i] == seen_moves[i]);
}

proof fn lemma_expanded_in_seen_push<W: WallConfiguration, P: RobotPositions>(
    walls: W,
    seen: Seq<P>,
    seen_moves: Seq<int>,
    y: P,
    ym: int,
    target: (usize, Position),
    s: Seq<Position>,
    m: int,
)
    requires
        seen.len() == seen_moves.len(),
        expanded_in_seen(walls, seen, seen_moves, target, s, m),
    ensures
        expanded_in_seen(walls, seen.push(y), seen_moves.push(ym), target, s, m),
{
    reveal(expanded_in_seen);
    assert forall|robot: int, dir: Direction, dest: Position|
        #[trigger] valid_move_to(walls, s, robot, dir, dest) implies in_seen(
        seen.push(y),
        seen_moves.push(ym),
        s.update(robot, dest),
        m + 1,
    ) by {
        lemma_in_seen_push(seen, seen_moves, y, ym, s.update(robot, dest), m + 1);
    }
}

proof fn lemma_queued_state_push<P: RobotPositions, M: MoveSequence<P>>(
    start: Seq<Position>,
    queue: Seq<SequenceWithCost<P, M>>,
    y: SequenceWithCost<P, M>,
    x: Seq<Position>,
    m: int,
)
    requires
        queued_state(start, queue, x, m),
    ensures
        queued_state(start, queue.push(y), x, m),
{
    reveal(queued_state);
    let j = choose|j: int|
        0 <= j < queue.len() && node_state(start, #[trigger] queue[j]) == x && queue[j].num_moves()
            == m;
    assert(queue.push(y)[j] == queue[j]);
}

/// Every node the queue holds is internally consistent: its history is a
/// legal chain from the start, its recorded cost matches the history, every
/// snapshot along it is well formed, and no snapshot before the last one
/// already satisfies the goal.
pub open spec fn node_wf<W: WallConfiguration, P: RobotPositions, M: MoveSequence<P>>(
    walls: W,
    start: Seq<Position>,
    target: (usize, Position),
    node: SequenceWithCost<P, M>,
) -> bool {
    &&& valid_chain(walls, start, node.steps())
    &&& node.num_moves() == node.steps().len()
    &&& 0 <= node.num_robot_changes() <= node.num_moves()
    &&& forall|i: int|
        0 <= i <= node.steps().len() ==> state_wf(
            walls,
            start,
            #[trigger] chain_state(start, node.steps(), i),
        )
    &&& forall|i: int|
        0 <= i < node.steps().len() ==> !goal_reached(
            #[trigger] chain_state(start, node.steps(), i),
            target,
        )
}

proof fn lemma_seen_bounded<W: WallConfiguration, P: RobotPositions>(
    walls: W,
    start: Seq<Position>,
    seen: Seq<P>,
)
    requires
        0 < start.len(),
        positions_in_bounds(walls, start),
        forall|i: int|
            0 <= i < seen.len() ==> state_wf(walls, start, (#[trigger] seen[i]).pos_seq()),
        forall|i: int, j: int| 0 <= i < j < seen.len() ==> seen[i].pos_seq() != seen[j].pos_seq(),
    ensures
        seen.len() <= pow(walls.spec_height() * walls.spec_width(), start.len()),
{
    let height = walls.spec_height();
    let width = walls.spec_width();
    assert(start[0].row < height && start[0].col < width);
    let states = seen.map_values(|p: P| p.pos_seq());
    assert forall|i: int|
        0 <= i < states.len() implies (#[trigger] states[i]).len() == start.len()
        && state_in_bounds(states[i], height, width) by {
        assert(states[i] == seen[i].pos_seq());
        assert(state_wf(walls, start, seen[i].pos_seq()));
    }
    assert forall|i: int, j: int| 0 <= i < j < states.len() implies states[i] != states[j] by {
        assert(states[i] == seen[i].pos_seq() && states[j] == seen[j].pos_seq());
    }
    lemma_distinct_states_bounded(states, height, width, start.len());
}

proof fn lemma_queue_facts_after_remove<W: WallConfiguration, P: RobotPositions, M: MoveSequence<P>>(
    walls: W,
    start: Seq<Position>,
    target: (usize, Position),
    q0: Seq<SequenceWithCost<P, M>>,
    best: int,
    slen: int,
    c: Cost,
)
    requires
        0 <= best < q0.len(),
        forall|i: int| 0 <= i < q0.len() ==> node_wf(walls, start, target, #[trigger] q0[i]),
        forall|i: int| 0 <= i < q0.len() ==> (#[trigger] q0[i]).num_moves() < slen,
        forall|i: int| 0 <= i < q0.len() ==> cost_le(c, (#[trigger] q0[i]).cost),
    ensures
        forall|i: int|
            0 <= i < q0.remove(best).len() ==> node_wf(
                walls,
                start,
                target,
                #[trigger] q0.remove(best)[i],
            ),
        forall|i: int|
            0 <= i < q0.remove(best).len() ==> (#[trigger] q0.remove(best)[i]).num_moves() < slen,
        forall|i: int|
            0 <= i < q0.remove(best).len() ==> (#[trigger] q0.remove(best)[i]).num_moves()
                >= c.moves,
{
    q0.remove_ensures(best);
    assert forall|i: int|
        0 <= i < q0.remove(best).len() implies node_wf(
        walls,
        start,
        target,
        #[trigger] q0.remove(best)[i],
    ) && q0.remove(best)[i].num_moves() < slen && q0.remove(best)[i].num_moves() >= c.moves by {
        if i < best {
            assert(q0.remove(best)[i] == q0[i]);
        } else {
            assert(q0.remove(best)[i] == q0[i + 1]);
        }
    }
}

proof fn lemma_ternary_after_remove<W: WallConfiguration, P: RobotPositions, M: MoveSequence<P>>(
    walls: W,
    start: Seq<Position>,
    target: (usize, Position),
    seen: Seq<P>,
    seen_moves: Seq<int>,
    q0: Seq<SequenceWithCost<P, M>>,
    best: int,
)
    requires
        0 <= best < q0.len(),
        seen.len() == seen_moves.len(),
        forall|i: int|
            0 <= i < seen.len() ==> queued_state(
                start,
                q0,
                (#[trigger] seen[i]).pos_seq(),
                seen_moves[i],
            ) || expanded_in_seen(walls, seen, seen_moves, target, seen[i].pos_seq(), seen_moves[i]),
    ensures
        forall|i: int|
            0 <= i < seen.len() ==> ((#[trigger] seen[i]).pos_seq() == node_state(start, q0[best])
                && seen_moves[i] == q0[best].num_moves()) || queued_state(
                start,
                q0.remove(best),
                seen[i].pos_seq(),
                seen_moves[i],
            ) || expanded_in_seen(walls, seen, seen_moves, target, seen[i].pos_seq(), seen_moves[i]),
{
    assert forall|i: int|
        0 <= i < seen.len() implies ((#[trigger] seen[i]).pos_seq() == node_state(start, q0[best])
        && seen_moves[i] == q0[best].num_moves()) || queued_state(
        start,
        q0.remove(best),
        seen[i].pos_seq(),
        seen_moves[i],
    ) || expanded_in_seen(walls, seen, seen_moves, target, seen[i].pos_seq(), seen_moves[i]) by {
        if queued_state(start, q0, seen[i].pos_seq(), seen_moves[i]) {
            reveal(queued_state);
            let j = choose|j: int|
                0 <= j < q0.len() && node_state(start, #[trigger] q0[j]) == seen[i].pos_seq()
                    && q0[j].num_moves() == seen_moves[i];
            if j != best {
                q0.remove_ensures(best);
                if j < best {
                    assert(q0.remove(best)[j] == q0[j]);
                } else {
                    assert(q0.remove(best)[j - 1] == q0[j]);
                }
            }
        }
    }
}

#[verifier::rlimit(100)]
proof fn lemma_extend_node<W: WallConfiguration, P: RobotPositions, M: MoveSequence<P>>(
    walls: W,
    start: Seq<Position>,
    target: (usize, Position),
    node: SequenceWithCost<P, M>,
    new_node: SequenceWithCost<P, M>,
    mv: Move,
    dest: Position,
    next: Seq<Position>,
)
    requires
        node_wf(walls, start, target, node),
        state_wf(walls, start, node_state(start, node)),
        !goal_reached(node_state(start, node), target),
        valid_move_to(walls, node_state(start, node), mv.robot as int, mv.direction, dest),
        next == node_state(start, node).update(mv.robot as int, dest),
        new_node.steps() == node.steps().push((mv, next)),
        new_node.num_moves() == node.num_moves() + 1,
        node.num_robot_changes() <= new_node.num_robot_changes() <= node.num_robot_changes() + 1,
    ensures
        node_wf(walls, start, target, new_node),
        state_wf(walls, start, next),
        node_state(start, new_node) == next,
{
    let cur = node_state(start, node);
    let nsteps = new_node.steps();
    let osteps = node.steps();
    lemma_move_preserves_wf(walls, cur, mv.robot as int, mv.direction, dest);
    assert(next[mv.robot as int] == dest);
    assert(next.len() == start.len());
    assert forall|i: int|
        0 <= i <= osteps.len() implies chain_state(start, nsteps, i) == #[trigger] chain_state(
        start,
        osteps,
        i,
    ) by {
        if i > 0 {
            assert(nsteps[i - 1] == osteps[i - 1]);
        }
    }
    assert(chain_state(start, nsteps, nsteps.len() as int) == next);
    assert forall|i: int|
        0 <= i < nsteps.len() implies valid_step(
        walls,
        chain_state(start, nsteps, i),
        (#[trigger] nsteps[i]).0,
        nsteps[i].1,
    ) by {
        if i < osteps.len() {
            assert(nsteps[i] == osteps[i]);
            assert(valid_step(walls, chain_state(start, osteps, i), osteps[i].0, osteps[i].1));
        } else {
            assert(nsteps[i] == (mv, next));
            assert(chain_state(start, nsteps, i) == cur);
            assert(valid_step(walls, cur, mv, next));
        }
    }
    assert forall|i: int|
        0 <= i <= nsteps.len() implies state_wf(
        walls,
        start,
        #[trigger] chain_state(start, nsteps, i),
    ) by {
        if i <= osteps.len() {
            assert(state_wf(walls, start, chain_state(start, osteps, i)));
        } else {
            assert(chain_state(start, nsteps, i) == next);
        }
    }
    assert forall|i: int|
        0 <= i < nsteps.len() implies !goal_reached(
        #[trigger] chain_state(start, nsteps, i),
        target,
    ) by {
        if i < osteps.len() {
            assert(!goal_reached(chain_state(start, osteps, i), target));
        } else {
            assert(chain_state(start, nsteps, i) == cur);
        }
    }
}

proof fn lemma_ternary_after_enqueue<W: WallConfiguration, P: RobotPositions, M: MoveSequence<P>>(
    walls: W,
    start: Seq<Position>,
    target: (usize, Position),
    seen0: Seq<P>,
    sm0: Seq<int>,
    queue0: Seq<SequenceWithCost<P, M>>,
    next: P,
    new_node: SequenceWithCost<P, M>,
    cur: Seq<Position>,
    curm: int,
)
    requires
        seen0.len() == sm0.len(),
        forall|i: int|
            0 <= i < seen0.len() ==> ((#[trigger] seen0[i]).pos_seq() == cur && sm0[i] == curm)
                || queued_state(start, queue0, seen0[i].pos_seq(), sm0[i]) || expanded_in_seen(
                walls,
                seen0,
                sm0,
                target,
                seen0[i].pos_seq(),
                sm0[i],
            ),
        node_state(start, new_node) == next.pos_seq(),
        new_node.num_moves() == curm + 1,
    ensures
        forall|i: int|
            0 <= i < seen0.push(next).len() ==> ((#[trigger] seen0.push(next)[i]).pos_seq() == cur
                && sm0.push(curm + 1)[i] == curm) || queued_state(
                start,
                queue0.push(new_node),
                seen0.push(next)[i].pos_seq(),
                sm0.push(curm + 1)[i],
            ) || expanded_in_seen(
                walls,
                seen0.push(next),
                sm0.push(curm + 1),
                target,
                seen0.push(next)[i].pos_seq(),
                sm0.push(curm + 1)[i],
            ),
{
    let seen1 = seen0.push(next);
    let sm1 = sm0.push(curm + 1);
    let queue1 = queue0.push(new_node);
    assert forall|i: int|
        0 <= i < seen1.len() implies ((#[trigger] seen1[i]).pos_seq() == cur && sm1[i] == curm)
        || queued_state(start, queue1, seen1[i].pos_seq(), sm1[i]) || expanded_in_seen(
        walls,
        seen1,
        sm1,
        target,
        seen1[i].pos_seq(),
        sm1[i],
    ) by {
        if i < seen0.len() {
            assert(seen1[i] == seen0[i] && sm1[i] == sm0[i]);
            if seen0[i].pos_seq() == cur && sm0[i] == curm {
            } else if queued_state(start, queue0, seen0[i].pos_seq(), sm0[i]) {
                lemma_queued_state_push(start, queue0, new_node, seen0[i].pos_seq(), sm0[i]);
            } else {
                lemma_expanded_in_seen_push(
                    walls,
                    seen0,
                    sm0,
                    next,
                    curm + 1,
                    target,
                    seen0[i].pos_seq(),
                    sm0[i],
                );
            }
        } else {
            assert(seen1[i] == next && sm1[i] == curm + 1);
            assert(queue1[queue1.len() - 1] == new_node);
            assert(queued_state(start, queue1, next.pos_seq(), curm + 1)) by {
                reveal(queued_state);
            }
        }
    }
}

proof fn lemma_sealed_from_seen<W: WallConfiguration, P: RobotPositions>(
    walls: W,
    start: Seq<Position>,
    target: (usize, Position),
    seen: Seq<P>,
    seen_moves: Seq<int>,
)
    requires
        seen.len() >= 1,
        seen.len() == seen_moves.len(),
        seen[0].pos_seq() == start,
        forall|i: int|
            0 <= i < seen.len() ==> expanded_in_seen(
                walls,
                seen,
                seen_moves,
                target,
                (#[trigger] seen[i]).pos_seq(),
                seen_moves[i],
            ),
    ensures
        sealed_region(walls, start, target, seen.map_values(|p: P| p.pos_seq())),
{
    reveal(in_seen);
    reveal(expanded_in_seen);
    let states = seen.map_values(|p: P| p.pos_seq());
    assert(states[0] == seen[0].pos_seq());
    assert(states.contains(start));
    assert forall|k: int|
        0 <= k < states.len() implies expanded_into(walls, states, target, #[trigger] states[k]) by {
        assert(states[k] == seen[k].pos_seq());
        assert(expanded_in_seen(walls, seen, seen_moves, target, seen[k].pos_seq(), seen_moves[k]));
        assert forall|robot: int, dir: Direction, dest: Position|
            #[trigger] valid_move_to(walls, states[k], robot, dir, dest) implies states.contains(
            states[k].update(robot, dest),
        ) by {
            assert(in_seen(
                seen,
                seen_moves,
                seen[k].pos_seq().update(robot, dest),
                seen_moves[k] + 1,
            ));
            let moved = seen[k].pos_seq().update(robot, dest);
            let i = choose|i: int|
                0 <= i < seen.len() && (#[trigger] seen[i]).pos_seq() == moved && seen_moves[i]
                    <= seen_moves[k] + 1;
            assert(states[i] == seen[i].pos_seq());
        }
    }
}

proof fn lemma_chain_chase<W: WallConfiguration, P: RobotPositions, M: MoveSequence<P>>(
    walls: W,
    start: Seq<Position>,
    target: (usize, Position),
    seen: Seq<P>,
    seen_moves: Seq<int>,
    queue: Seq<SequenceWithCost<P, M>>,
    steps: Seq<(Move, Seq<Position>)>,
)
    requires
        valid_chain(walls, start, steps),
        seen.len() == seen_moves.len(),
        seen.len() >= 1,
        seen[0].pos_seq() == start,
        seen_moves[0] == 0,
        forall|i: int|
            0 <= i < seen.len() ==> queued_state(
                start,
                queue,
                (#[trigger] seen[i]).pos_seq(),
                seen_moves[i],
            ) || expanded_in_seen(walls, seen, seen_moves, target, seen[i].pos_seq(), seen_moves[i]),
    ensures
        (exists|k: int|
            0 <= k < seen.len() && (#[trigger] seen[k]).pos_seq() == chain_state(
                start,
                steps,
                steps.len() as int,
            ) && seen_moves[k] <= steps.len()) || (exists|j: int|
            0 <= j < queue.len() && (#[trigger] queue[j]).num_moves() <= steps.len()),
    decreases steps.len(),
{
    if steps.len() == 0 {
        assert(chain_state(start, steps, 0) == start);
        assert(seen[0].pos_seq() == start && seen_moves[0] <= 0);
    } else {
        let prefix = steps.drop_last();
        assert forall|i: int|
            0 <= i < prefix.len() implies valid_step(
            walls,
            chain_state(start, prefix, i),
            (#[trigger] prefix[i]).0,
            prefix[i].1,
        ) by {
            assert(prefix[i] == steps[i]);
            assert(chain_state(start, prefix, i) == chain_state(start, steps, i));
            assert(valid_step(walls, chain_state(start, steps, i), steps[i].0, steps[i].1));
        }
        lemma_chain_chase(walls, start, target, seen, seen_moves, queue, prefix);
        let pre = chain_state(start, prefix, prefix.len() as int);
        let fin = chain_state(start, steps, steps.len() as int);
        if exists|j: int| 0 <= j < queue.len() && (#[trigger] queue[j]).num_moves() <= prefix.len() {
            let j = choose|j: int|
                0 <= j < queue.len() && (#[trigger] queue[j]).num_moves() <= prefix.len();
            assert(queue[j].num_moves() <= steps.len());
        } else {
            let k = choose|k: int|
                0 <= k < seen.len() && (#[trigger] seen[k]).pos_seq() == pre && seen_moves[k]
                    <= prefix.len();
            if queued_state(start, queue, seen[k].pos_seq(), seen_moves[k]) {
                reveal(queued_state);
                let j = choose|j: int|
                    0 <= j < queue.len() && node_state(start, #[trigger] queue[j])
                        == seen[k].pos_seq() && queue[j].num_moves() == seen_moves[k];
                assert(queue[j].num_moves() <= steps.len());
            } else {
                assert(expanded_in_seen(walls, seen, seen_moves, target, pre, seen_moves[k]));
                let last = steps.last();
                assert(pre == chain_state(start, steps, steps.len() - 1));
                assert(valid_step(walls, pre, last.0, last.1));
                assert(valid_move_to(
                    walls,
                    pre,
                    last.0.robot as int,
                    last.0.direction,
                    last.1[last.0.robot as int],
                ));
                assert(in_seen(
                    seen,
                    seen_moves,
                    pre.update(last.0.robot as int, last.1[last.0.robot as int]),
                    seen_moves[k] + 1,
                )) by {
                    reveal(expanded_in_seen);
                }
                assert(fin == last.1);
                assert(last.1 == pre.update(last.0.robot as int, last.1[last.0.robot as int]));
                reveal(in_seen);
                let k2 = choose|i: int|
                    0 <= i < seen.len() && (#[trigger] seen[i]).pos_seq() == fin && seen_moves[i]
                        <= seen_moves[k] + 1;
                assert(seen_moves[k2] <= steps.len());
            }
        }
    }
}

/// Expands one dequeued node: pushes every move the rules allow from its
/// snapshot whose resulting snapshot was not seen before, marking each
/// pushed snapshot as seen under a move count one above the node's.
#[verifier::rlimit(100)]
fn expand_node<W: WallConfiguration, P: RobotPositions, M: MoveSequence<P>>(
    board: &Board<W>,
    robot_positions: &P,
    node: &SequenceWithCost<P, M>,
    target: (usize, Position),
    seen: &mut Vec<P>,
    queue: &mut Vec<SequenceWithCost<P, M>>,
    sm: Ghost<Seq<int>>,
) -> (sm_out: Ghost<Seq<int>>)
    requires
        board.walls().wf(),
        0 < robot_positions.pos_seq().len(),
        target.0 < robot_positions.pos_seq().len(),
        positions_in_bounds(board.walls(), robot_positions.pos_seq()),
        positions_distinct(robot_positions.pos_seq()),
        !goal_reached(robot_positions.pos_seq(), target),
        node_wf(board.walls(), robot_positions.pos_seq(), target, *node),
        node.num_moves() < old(seen)@.len(),
        node.num_moves() < usize::MAX,
        !goal_reached(node_state(robot_positions.pos_seq(), *node), target),
        1 <= old(seen)@.len(),
        old(seen)@[0].pos_seq() == robot_positions.pos_seq(),
        sm@.len() == old(seen)@.len(),
        forall|i: int| 0 <= i < sm@.len() ==> sm@[i] <= node.num_moves() + 1,
        forall|j: int|
            0 <= j < old(queue)@.len() ==> (#[trigger] old(queue)@[j]).num_moves()
                >= node.num_moves(),
        forall|i: int|
            0 <= i < old(seen)@.len() ==> state_wf(
                board.walls(),
                robot_positions.pos_seq(),
                (#[trigger] old(seen)@[i]).pos_seq(),
            ),
        forall|i: int, j: int|
            0 <= i < j < old(seen)@.len() ==> old(seen)@[i].pos_seq() != old(seen)@[j].pos_seq(),
        forall|i: int|
            0 <= i < old(queue)@.len() ==> node_wf(
                board.walls(),
                robot_positions.pos_seq(),
                target,
                #[trigger] old(queue)@[i],
            ),
        forall|i: int|
            0 <= i < old(queue)@.len() ==> (#[trigger] old(queue)@[i]).num_moves() < old(seen)@.len(),
        forall|i: int|
            0 <= i < old(seen)@.len() ==> ((#[trigger] old(seen)@[i]).pos_seq() == node_state(
                robot_positions.pos_seq(),
                *node,
            ) && sm@[i] == node.num_moves()) || queued_state(
                robot_positions.pos_seq(),
                old(queue)@,
                old(seen)@[i].pos_seq(),
                sm@[i],
            ) || expanded_in_seen(
                board.walls(),
                old(seen)@,
                sm@,
                target,
                old(seen)@[i].pos_seq(),
                sm@[i],
            ),
    ensures
        old(seen)@.len() <= final(seen)@.len() <= pow(
            board.walls().spec_height() * board.walls().spec_width(),
            robot_positions.pos_seq().len(),
        ),
        final(seen)@[0].pos_seq() == robot_positions.pos_seq(),
        sm_out@.len() == final(seen)@.len(),
        forall|i: int| 0 <= i < sm@.len() ==> sm_out@[i] == sm@[i],
        forall|i: int| 0 <= i < sm_out@.len() ==> sm_out@[i] <= node.num_moves() + 1,
        forall|j: int|
            0 <= j < final(queue)@.len() ==> (#[trigger] final(queue)@[j]).num_moves()
                >= node.num_moves(),
        forall|i: int|
            0 <= i < final(seen)@.len() ==> state_wf(
                board.walls(),
                robot_positions.pos_seq(),
                (#[trigger] final(seen)@[i]).pos_seq(),
            ),
        forall|i: int, j: int|
            0 <= i < j < final(seen)@.len() ==> final(seen)@[i].pos_seq() != final(seen)@[j].pos_seq(),
        forall|i: int|
            0 <= i < final(queue)@.len() ==> node_wf(
                board.walls(),
                robot_positions.pos_seq(),
                target,
                #[trigger] final(queue)@[i],
            ),
        forall|i: int|
            0 <= i < final(queue)@.len() ==> (#[trigger] final(queue)@[i]).num_moves() < final(seen)@.len(),
        forall|i: int|
            0 <= i < final(seen)@.len() ==> queued_state(
                robot_positions.pos_seq(),
                final(queue)@,
                (#[trigger] final(seen)@[i]).pos_seq(),
                sm_out@[i],
            ) || expanded_in_seen(
                board.walls(),
                final(seen)@,
                sm_out@,
                target,
                final(seen)@[i].pos_seq(),
                sm_out@[i],
            ),
        final(queue)@.len() == old(queue)@.len() + (final(seen)@.len() - old(seen)@.len()),
{
    let ghost walls = board.walls();
    let ghost start = robot_positions.pos_seq();
    let ghost bound = pow(walls.spec_height() * walls.spec_width(), start.len());
    let ghost s0 = seen@.len();
    let ghost q1 = queue@.len();
    let ghost mut seen_moves: Seq<int> = sm@;
    proof {
        lemma_seen_bounded(walls, start, seen@);
    }
    let last_step = node.move_sequence.last();
    let current: &P = match last_step {
        Some((_, p)) => p,
        None => robot_positions,
    };
    proof {
        assert(current.pos_seq() == chain_state(start, node.steps(), node.steps().len() as int));
        assert(current.pos_seq() == node_state(start, *node));
        assert(state_wf(walls, start, current.pos_seq()));
    }
    let num = current.num_robots();
    let mut robot: usize = 0;
    while robot < num
        invariant
            board.walls() == walls,
            robot_positions.pos_seq() == start,
            walls.wf(),
            0 < start.len(),
            target.0 < start.len(),
            positions_in_bounds(walls, start),
            positions_distinct(start),
            bound == pow(walls.spec_height() * walls.spec_width(), start.len()),
            !goal_reached(start, target),
            num == start.len(),
            robot <= num,
            node_wf(walls, start, target, *node),
            node.num_moves() < seen@.len(),
            node.num_moves() < usize::MAX,
            current.pos_seq() == node_state(start, *node),
            state_wf(walls, start, current.pos_seq()),
            !goal_reached(current.pos_seq(), target),
            1 <= seen@.len() <= bound,
            seen@[0].pos_seq() == start,
            seen_moves.len() == seen@.len(),
            s0 <= seen@.len(),
            forall|i: int| 0 <= i < s0 ==> seen_moves[i] == sm@[i],
            forall|i: int| 0 <= i < seen_moves.len() ==> seen_moves[i] <= node.num_moves() + 1,
            forall|j: int|
                0 <= j < queue@.len() ==> (#[trigger] queue@[j]).num_moves() >= node.num_moves(),
            forall|i: int|
                0 <= i < seen@.len() ==> state_wf(walls, start, (#[trigger] seen@[i]).pos_seq()),
            forall|i: int, j: int|
                0 <= i < j < seen@.len() ==> seen@[i].pos_seq() != seen@[j].pos_seq(),
            forall|i: int|
                0 <= i < queue@.len() ==> node_wf(walls, start, target, #[trigger] queue@[i]),
            forall|i: int|
                0 <= i < queue@.len() ==> (#[trigger] queue@[i]).num_moves() < seen@.len(),
            forall|i: int|
                0 <= i < seen@.len() ==> ((#[trigger] seen@[i]).pos_seq() == current.pos_seq()
                    && seen_moves[i] == node.num_moves()) || queued_state(
                    start,
                    queue@,
                    seen@[i].pos_seq(),
                    seen_moves[i],
                ) || expanded_in_seen(
                    walls,
                    seen@,
                    seen_moves,
                    target,
                    seen@[i].pos_seq(),
                    seen_moves[i],
                ),
            forall|rb: int, dir: Direction, dest: Position|
                0 <= rb < robot && #[trigger] valid_move_to(
                    walls,
                    current.pos_seq(),
                    rb,
                    dir,
                    dest,
                ) ==> in_seen(
                    seen@,
                    seen_moves,
                    current.pos_seq().update(rb, dest),
                    node.num_moves() + 1,
                ),
            queue@.len() == q1 + (seen@.len() - s0),
        decreases num - robot,
    {
        let moves = board.get_valid_moves_for_robot(robot, current);
        let mut mi: usize = 0;
        while mi < moves.len()
            invariant
                board.walls() == walls,
                robot_positions.pos_seq() == start,
                walls.wf(),
                0 < start.len(),
                target.0 < start.len(),
                positions_in_bounds(walls, start),
                positions_distinct(start),
                bound == pow(walls.spec_height() * walls.spec_width(), start.len()),
                !goal_reached(start, target),
                num == start.len(),
                robot < num,
                node_wf(walls, start, target, *node),
                node.num_moves() < seen@.len(),
                node.num_moves() < usize::MAX,
                current.pos_seq() == node_state(start, *node),
                state_wf(walls, start, current.pos_seq()),
                !goal_reached(current.pos_seq(), target),
                mi <= moves@.len(),
                forall|j: int|
                    0 <= j < moves@.len() ==> #[trigger] valid_move_to(
                        walls,
                        current.pos_seq(),
                        robot as int,
                        moves@[j].0,
                        moves@[j].1,
                    ),
                forall|dir: Direction, dest: Position|
                    valid_move_to(walls, current.pos_seq(), robot as int, dir, dest)
                        ==> moves@.contains((dir, dest)),
                1 <= seen@.len() <= bound,
                seen@[0].pos_seq() == start,
                seen_moves.len() == seen@.len(),
                s0 <= seen@.len(),
                forall|i: int| 0 <= i < s0 ==> seen_moves[i] == sm@[i],
                forall|i: int| 0 <= i < seen_moves.len() ==> seen_moves[i] <= node.num_moves() + 1,
                forall|j: int|
                    0 <= j < queue@.len() ==> (#[trigger] queue@[j]).num_moves()
                        >= node.num_moves(),
                forall|i: int|
                    0 <= i < seen@.len() ==> state_wf(walls, start, (#[trigger] seen@[i]).pos_seq()),
                forall|i: int, j: int|
                    0 <= i < j < seen@.len() ==> seen@[i].pos_seq() != seen@[j].pos_seq(),
                forall|i: int|
                    0 <= i < queue@.len() ==> node_wf(walls, start, target, #[trigger] queue@[i]),
                forall|i: int|
                    0 <= i < queue@.len() ==> (#[trigger] queue@[i]).num_moves() < seen@.len(),
                forall|i: int|
                    0 <= i < seen@.len() ==> ((#[trigger] seen@[i]).pos_seq() == current.pos_seq()
                        && seen_moves[i] == node.num_moves()) || queued_state(
                        start,
                        queue@,
                        seen@[i].pos_seq(),
                        seen_moves[i],
                    ) || expanded_in_seen(
                        walls,
                        seen@,
                        seen_moves,
                        target,
                        seen@[i].pos_seq(),
                        seen_moves[i],
                    ),
                forall|rb: int, dir: Direction, dest: Position|
                    0 <= rb < robot && #[trigger] valid_move_to(
                        walls,
                        current.pos_seq(),
                        rb,
                        dir,
                        dest,
                    ) ==> in_seen(
                        seen@,
                        seen_moves,
                        current.pos_seq().update(rb, dest),
                        node.num_moves() + 1,
                    ),
                forall|j: int|
                    0 <= j < mi ==> in_seen(
                        seen@,
                        seen_moves,
                        current.pos_seq().update(robot as int, (#[trigger] moves@[j]).1),
                        node.num_moves() + 1,
                    ),
                queue@.len() == q1 + (seen@.len() - s0),
            decreases moves@.len() - mi,
        {
            let (dir, dest) = moves[mi];
            proof {
                assert(valid_move_to(walls, current.pos_seq(), robot as int, dir, dest));
            }
            let next = current.update(robot, dest);
            let ghost seen0 = seen@;
            let ghost sm0 = seen_moves;
            let ghost queue0 = queue@;
            if !contains_state(&seen, &next) {
                let inc: usize = match last_step {
                    Some((m, _)) => if m.robot == robot {
                        0
                    } else {
                        1
                    },
                    None => 0,
                };
                let new_node = SequenceWithCost {
                    move_sequence: node.move_sequence.append(
                        Move { robot, direction: dir },
                        next.duplicate(),
                    ),
                    cost: Cost {
                        moves: node.cost.moves + 1,
                        robot_change: node.cost.robot_change + inc,
                    },
                    phantom_position: PhantomData,
                };
                proof {
                    lemma_extend_node(
                        walls,
                        start,
                        target,
                        *node,
                        new_node,
                        Move { robot, direction: dir },
                        dest,
                        next.pos_seq(),
                    );
                }
                seen.push(next);
                queue.push(new_node);
                proof {
                    seen_moves = seen_moves.push(node.num_moves() + 1);
                    lemma_seen_bounded(walls, start, seen@);
                    assert(seen@ == seen0.push(seen@[seen@.len() - 1]));
                    assert(queue@ == queue0.push(queue@[queue@.len() - 1]));
                    let newp = seen@[seen@.len() - 1];
                    lemma_ternary_after_enqueue(
                        walls,
                        start,
                        target,
                        seen0,
                        sm0,
                        queue0,
                        newp,
                        queue@[queue@.len() - 1],
                        current.pos_seq(),
                        node.num_moves(),
                    );
                    assert forall|rb: int, dir2: Direction, dest2: Position|
                        0 <= rb < robot && #[trigger] valid_move_to(
                        walls,
                        current.pos_seq(),
                        rb,
                        dir2,
                        dest2,
                    ) implies in_seen(
                        seen@,
                        seen_moves,
                        current.pos_seq().update(rb, dest2),
                        node.num_moves() + 1,
                    ) by {
                        lemma_in_seen_push(
                            seen0,
                            sm0,
                            newp,
                            node.num_moves() + 1,
                            current.pos_seq().update(rb, dest2),
                            node.num_moves() + 1,
                        );
                    }
                    assert forall|j: int|
                        0 <= j < mi implies in_seen(
                        seen@,
                        seen_moves,
                        current.pos_seq().update(robot as int, (#[trigger] moves@[j]).1),
                        node.num_moves() + 1,
                    ) by {
                        lemma_in_seen_push(
                            seen0,
                            sm0,
                            newp,
                            node.num_moves() + 1,
                            current.pos_seq().update(robot as int, moves@[j].1),
                            node.num_moves() + 1,
                        );
                    }
                    assert(in_seen(seen@, seen_moves, next.pos_seq(), node.num_moves() + 1)) by {
                        reveal(in_seen);
                        assert(seen@[seen@.len() - 1].pos_seq() == next.pos_seq());
                        assert(seen_moves[seen@.len() - 1] == node.num_moves() + 1);
                    }
                }
            } else {
                proof {
                    assert(in_seen(seen@, seen_moves, next.pos_seq(), node.num_moves() + 1)) by {
                        reveal(in_seen);
                        let k = choose|i: int|
                            0 <= i < seen@.len() && (#[trigger] seen@[i]).pos_seq()
                                == next.pos_seq();
                        assert(seen_moves[k] <= node.num_moves() + 1);
                    }
                }
            }
            proof {
                assert forall|j: int|
                    0 <= j < mi + 1 implies in_seen(
                    seen@,
                    seen_moves,
                    current.pos_seq().update(robot as int, (#[trigger] moves@[j]).1),
                    node.num_moves() + 1,
                ) by {
                    if j == mi {
                        assert(moves@[j].1 == dest);
                        assert(next.pos_seq() == current.pos_seq().update(robot as int, dest));
                        assert(in_seen(seen@, seen_moves, next.pos_seq(), node.num_moves() + 1));
                    }
                }
            }
            mi = mi + 1;
        }
        proof {
            assert forall|rb: int, dir: Direction, dest: Position|
                0 <= rb < robot + 1 && #[trigger] valid_move_to(
                walls,
                current.pos_seq(),
                rb,
                dir,
                dest,
            ) implies in_seen(
                seen@,
                seen_moves,
                current.pos_seq().update(rb, dest),
                node.num_moves() + 1,
            ) by {
                if rb == robot as int {
                    assert(moves@.contains((dir, dest)));
                    let j = choose|j: int| 0 <= j < moves@.len() && moves@[j] == (dir, dest);
                    assert(in_seen(
                        seen@,
                        seen_moves,
                        current.pos_seq().update(robot as int, moves@[j].1),
                        node.num_moves() + 1,
                    ));
                }
            }
        }
        robot = robot + 1;
    }
    proof {
        assert(expanded_in_seen(
            walls,
            seen@,
            seen_moves,
            target,
            current.pos_seq(),
            node.num_moves(),
        )) by {
            reveal(expanded_in_seen);
            assert forall|rb: int, dir: Direction, dest: Position|
                #[trigger] valid_move_to(walls, current.pos_seq(), rb, dir, dest) implies in_seen(
                seen@,
                seen_moves,
                current.pos_seq().update(rb, dest),
                node.num_moves() + 1,
            ) by {
                assert(0 <= rb < num);
            }
        }
        assert forall|i: int|
            0 <= i < seen@.len() implies queued_state(
            start,
            queue@,
            (#[trigger] seen@[i]).pos_seq(),
            seen_moves[i],
        ) || expanded_in_seen(
            walls,
            seen@,
            seen_moves,
            target,
            seen@[i].pos_seq(),
            seen_moves[i],
        ) by {
            if seen@[i].pos_seq() == current.pos_seq() && seen_moves[i] == node.num_moves() {
                assert(expanded_in_seen(
                    walls,
                    seen@,
                    seen_moves,
                    target,
                    seen@[i].pos_seq(),
                    seen_moves[i],
                ));
            }
        }
    }
    Ghost(seen_moves)
}

/// Best-first search for a minimal-move solution.
///
/// Expands snapshots in ascending cost order, marking each snapshot visited
/// at the moment it is enqueued so that each distinct snapshot is expanded
/// at most once.  A returned node records a legal chain of slides from the
/// start whose last snapshot, and no earlier one, puts the target robot on
/// the target cell, and no legal chain reaching the goal is shorter.  A
/// `None` comes with a sealed region: the goal is unreachable from the
/// start under the movement rules.
#[verifier::rlimit(100)]
pub fn solve<W: WallConfiguration, P: RobotPositions, M: MoveSequence<P>>(
    board: &Board<W>,
    robot_positions: P,
    empty_move_sequence: M,
    target: (usize, Position),
) -> (r: Option<SequenceWithCost<P, M>>)
    requires
        board.walls().wf(),
        positions_in_bounds(board.walls(), robot_positions.pos_seq()),
        positions_distinct(robot_positions.pos_seq()),
        target.0 < robot_positions.pos_seq().len(),
        (target.1.row as int) < board.walls().spec_height(),
        (target.1.col as int) < board.walls().spec_width(),
        empty_move_sequence.steps() == Seq::<(Move, Seq<Position>)>::empty(),
    ensures
        match r {
            Some(s) => {
                &&& valid_chain(board.walls(), robot_positions.pos_seq(), s.steps())
                &&& s.num_moves() == s.steps().len()
                &&& goal_reached(
                    chain_state(robot_positions.pos_seq(), s.steps(), s.steps().len() as int),
                    target,
                )
                &&& forall|i: int|
                    0 <= i < s.steps().len() ==> !goal_reached(
                        #[trigger] chain_state(robot_positions.pos_seq(), s.steps(), i),
                        target,
                    )
                &&& forall|i: int|
                    0 <= i <= s.steps().len() ==> state_wf(
                        board.walls(),
                        robot_positions.pos_seq(),
                        #[trigger] chain_state(robot_positions.pos_seq(), s.steps(), i),
                    )
                &&& forall|other: Seq<(Move, Seq<Position>)>|
                    #[trigger] valid_chain(board.walls(), robot_positions.pos_seq(), other)
                        && goal_reached(
                        chain_state(robot_positions.pos_seq(), other, other.len() as int),
                        target,
                    ) ==> s.steps().len() <= other.len()
            },
            None => !goal_reached(robot_positions.pos_seq(), target) && exists|
                states: Seq<Seq<Position>>,
            |
                #[trigger] sealed_region(
                    board.walls(),
                    robot_positions.pos_seq(),
                    target,
                    states,
                ),
        },
{
    let ghost walls = board.walls();
    let ghost start = robot_positions.pos_seq();
    let ghost bound = pow(walls.spec_height() * walls.spec_width(), start.len());

    let mut seen: Vec<P> = Vec::new();
    seen.push(robot_positions.duplicate());
    let mut queue: Vec<SequenceWithCost<P, M>> = Vec::new();
    queue.push(
        SequenceWithCost {
            cost: Cost { moves: 0, robot_change: 0 },
            move_sequence: empty_move_sequence,
            phantom_position: PhantomData,
        },
    );
    let ghost mut seen_moves: Seq<int> = Seq::<int>::empty().push(0);
    let ghost mut threshold: int = 0;
    proof {
        lemma_seen_bounded(walls, start, seen@);
        assert(queue@[0].steps() == Seq::<(Move, Seq<Position>)>::empty());
        assert(chain_state(start, queue@[0].steps(), 0) == start);
        assert(node_wf(walls, start, target, queue@[0]));
        assert(node_state(start, queue@[0]) == start);
        assert(queued_state(start, queue@, seen@[0].pos_seq(), 0)) by {
            reveal(queued_state);
        }
    }
    while queue.len() > 0
        invariant
            board.walls() == walls,
            robot_positions.pos_seq() == start,
            walls.wf(),
            0 < start.len(),
            target.0 < start.len(),
            positions_in_bounds(walls, start),
            positions_distinct(start),
            bound == pow(walls.spec_height() * walls.spec_width(), start.len()),
            1 <= seen@.len() <= bound,
            seen@[0].pos_seq() == start,
            seen_moves.len() == seen@.len(),
            seen_moves[0] == 0,
            0 <= threshold,
            forall|i: int| 0 <= i < seen_moves.len() ==> seen_moves[i] <= threshold + 1,
            forall|j: int|
                0 <= j < queue@.len() ==> (#[trigger] queue@[j]).num_moves() >= threshold,
            forall|i: int|
                0 <= i < seen@.len() ==> state_wf(walls, start, (#[trigger] seen@[i]).pos_seq()),
            forall|i: int, j: int|
                0 <= i < j < seen@.len() ==> seen@[i].pos_seq() != seen@[j].pos_seq(),
            forall|i: int|
                0 <= i < queue@.len() ==> node_wf(walls, start, target, #[trigger] queue@[i]),
            forall|i: int|
                0 <= i < queue@.len() ==> (#[trigger] queue@[i]).num_moves() < seen@.len(),
            forall|i: int|
                0 <= i < seen@.len() ==> queued_state(
                    start,
                    queue@,
                    (#[trigger] seen@[i]).pos_seq(),
                    seen_moves[i],
                ) || expanded_in_seen(
                    walls,
                    seen@,
                    seen_moves,
                    target,
                    seen@[i].pos_seq(),
                    seen_moves[i],
                ),
            !goal_reached(start, target) || exists|i: int|
                0 <= i < queue@.len() && (#[trigger] queue@[i]).num_moves() == 0,
        decreases bound - seen@.len(), queue@.len(),
    {
        let ghost q0 = queue@;
        let best = min_cost_index(&queue);
        let node = queue.remove(best);
        proof {
            lemma_queue_facts_after_remove(
                walls,
                start,
                target,
                q0,
                best as int,
                seen@.len() as int,
                node.cost,
            );
            lemma_ternary_after_remove(
                walls,
                start,
                target,
                seen@,
                seen_moves,
                q0,
                best as int,
            );
            assert(node_wf(walls, start, target, node));
            threshold = node.num_moves();
        }
        let last_step = node.move_sequence.last();
        let current: &P = match last_step {
            Some((_, p)) => p,
            None => &robot_positions,
        };
        proof {
            assert(current.pos_seq() == chain_state(start, node.steps(), node.steps().len() as int));
            assert(current.pos_seq() == node_state(start, node));
            assert(state_wf(walls, start, current.pos_seq()));
        }
        let cur_pos = *current.get_robot_position(target.0);
        if cur_pos == target.1 {
            proof {
                assert(goal_reached(
                    chain_state(start, node.steps(), node.steps().len() as int),
                    target,
                ));
                assert forall|other: Seq<(Move, Seq<Position>)>|
                    #[trigger] valid_chain(walls, start, other) && goal_reached(
                    chain_state(start, other, other.len() as int),
                    target,
                ) implies node.steps().len() <= other.len() by {
                    if other.len() < node.num_moves() {
                        lemma_chain_chase(walls, start, target, seen@, seen_moves, q0, other);
                        let ghost fin = chain_state(start, other, other.len() as int);
                        if exists|j: int|
                            0 <= j < q0.len() && (#[trigger] q0[j]).num_moves() <= other.len() {
                            let j = choose|j: int|
                                0 <= j < q0.len() && (#[trigger] q0[j]).num_moves() <= other.len();
                            assert(cost_le(node.cost, q0[j].cost));
                        } else {
                            let k = choose|k: int|
                                0 <= k < seen@.len() && (#[trigger] seen@[k]).pos_seq() == fin
                                    && seen_moves[k] <= other.len();
                            if queued_state(start, q0, seen@[k].pos_seq(), seen_moves[k]) {
                                reveal(queued_state);
                                let j = choose|j: int|
                                    0 <= j < q0.len() && node_state(start, #[trigger] q0[j])
                                        == seen@[k].pos_seq() && q0[j].num_moves() == seen_moves[k];
                                assert(cost_le(node.cost, q0[j].cost));
                            } else {
                                assert(expanded_in_seen(
                                    walls,
                                    seen@,
                                    seen_moves,
                                    target,
                                    seen@[k].pos_seq(),
                                    seen_moves[k],
                                ));
                                assert(!goal_reached(seen@[k].pos_seq(), target)) by {
                                    reveal(expanded_in_seen);
                                }
                            }
                        }
                    }
                }
            }
            return Some(node);
        }
        proof {
            assert(!goal_reached(current.pos_seq(), target));
            if goal_reached(start, target) {
                let i0 = choose|i: int| 0 <= i < q0.len() && (#[trigger] q0[i]).num_moves() == 0;
                assert(cost_le(node.cost, q0[i0].cost));
                assert(node.num_moves() == 0);
                assert(current.pos_seq() == chain_state(start, node.steps(), 0));
                assert(false);
            }
        }
        // A vector's length fits in usize, so reading it shows that the
        // popped node's move count, which lies below it, cannot overflow
        // when the children's costs are computed.
        let _seen_count: usize = seen.len();
        let sm_out = expand_node(
            board,
            &robot_positions,
            &node,
            target,
            &mut seen,
            &mut queue,
            Ghost(seen_moves),
        );
        proof {
            seen_moves = sm_out@;
        }
    }
    proof {
        assert forall|i: int|
            0 <= i < seen@.len() implies expanded_in_seen(
            walls,
            seen@,
            seen_moves,
            target,
            (#[trigger] seen@[i]).pos_seq(),
            seen_moves[i],
        ) by {
            assert(!queued_state(start, queue@, seen@[i].pos_seq(), seen_moves[i])) by {
                reveal(queued_state);
            }
        }
        lemma_sealed_from_seen(walls, start, target, seen@, seen_moves);
        assert(sealed_region(walls, start, target, seen@.map_values(|p: P| p.pos_seq())));
    }
    None
}

} // verus!
