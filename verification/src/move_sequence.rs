//! Append-only records of (move, resulting snapshot) steps: a flat
//! growable-array backend, and a shared-tail backend with O(1) append so
//! that many search branches can extend a common prefix without copying it.

use std::rc::Rc;

use vstd::prelude::*;

use crate::robot_positions::RobotPositions;
use crate::{Direction, Position};

verus! {

/// One slide: which robot moved, and in which direction.
#[derive(Clone, Copy, Debug, Eq, PartialEq, Structural)]
pub struct Move {
    pub robot: usize,
    pub direction: Direction,
}

/// The model of recorded steps: each move paired with the cell sequence of
/// the snapshot it produced.
pub open spec fn step_model<P: RobotPositions>(s: Seq<(Move, P)>) -> Seq<(Move, Seq<Position>)> {
    s.map_values(|e: (Move, P)| (e.0, e.1.pos_seq()))
}

/// Immutable containers holding a sequence of moves.
///
/// The model of a container is the chronological sequence of its steps,
/// given by [`MoveSequence::steps`].
pub trait MoveSequence<P: RobotPositions>: Sized {
    /// The recorded steps in chronological order.
    spec fn steps(&self) -> Seq<(Move, Seq<Position>)>;

    fn empty() -> (r: Self)
        ensures
            r.steps() == Seq::<(Move, Seq<Position>)>::empty(),
    ;

    /// A new sequence extending this one by one step; the original is
    /// untouched.
    fn append(&self, move_: Move, next_positions: P) -> (r: Self)
        ensures
            r.steps() == self.steps().push((move_, next_positions.pos_seq())),
    ;

    /// The most recent step, or `None` for the empty sequence.
    fn last(&self) -> (r: Option<(&Move, &P)>)
        ensures
            match r {
                None => self.steps().len() == 0,
                Some(pair) => self.steps().len() > 0 && *pair.0 == self.steps().last().0
                    && pair.1.pos_seq() == self.steps().last().1,
            },
    ;

    /// The steps in chronological order as a flat vector.
    fn to_vec(self) -> (r: Vec<(Move, P)>)
        ensures
            r@.len() == self.steps().len(),
            forall|i: int|
                0 <= i < r@.len() ==> (#[trigger] r@[i]).0 == self.steps()[i].0
                    && r@[i].1.pos_seq() == self.steps()[i].1,
    ;

    /// A fresh sequence holding the same steps.
    fn duplicate(&self) -> (r: Self)
        ensures
            r.steps() == self.steps(),
    ;
}

/// Move sequence backed by a `Vec` that is copied on append.
#[derive(Clone)]
pub struct MoveSequenceVec<P: RobotPositions> {
    path: Vec<(Move, P)>,
}

impl<P: RobotPositions> MoveSequence<P> for MoveSequenceVec<P> {
    closed spec fn steps(&self) -> Seq<(Move, Seq<Position>)> {
        step_model(self.path@)
    }

    fn empty() -> (r: Self) {
        let r = MoveSequenceVec { path: Vec::new() };
        proof {
            assert(r.steps() =~= Seq::<(Move, Seq<Position>)>::empty());
        }
        r
    }

    fn append(&self, move_: Move, next_positions: P) -> (r: Self) {
        let mut path_cloned: Vec<(Move, P)> = Vec::new();
        let mut i: usize = 0;
        while i < self.path.len()
            invariant
                i <= self.path@.len(),
                path_cloned@.len() == i,
                forall|j: int|
                    0 <= j < i ==> (#[trigger] path_cloned@[j]).0 == self.path@[j].0
                        && path_cloned@[j].1.pos_seq() == self.path@[j].1.pos_seq(),
            decreases self.path@.len() - i,
        {
            let entry = &self.path[i];
            path_cloned.push((entry.0, entry.1.duplicate()));
            i = i + 1;
        }
        path_cloned.push((move_, next_positions));
        let r = MoveSequenceVec { path: path_cloned };
        proof {
            assert(r.steps() =~= self.steps().push((move_, next_positions.pos_seq())));
        }
        r
    }

    fn last(&self) -> (r: Option<(&Move, &P)>) {
        if self.path.len() == 0 {
            None
        } else {
            let entry = &self.path[self.path.len() - 1];
            Some((&entry.0, &entry.1))
        }
    }

    fn to_vec(self) -> (r: Vec<(Move, P)>) {
        self.path
    }

    fn duplicate(&self) -> (r: Self) {
        let mut path_cloned: Vec<(Move, P)> = Vec::new();
        let mut i: usize = 0;
        while i < self.path.len()
            invariant
                i <= self.path@.len(),
                path_cloned@.len() == i,
                forall|j: int|
                    0 <= j < i ==> (#[trigger] path_cloned@[j]).0 == self.path@[j].0
                        && path_cloned@[j].1.pos_seq() == self.path@[j].1.pos_seq(),
            decreases self.path@.len() - i,
        {
            let entry = &self.path[i];
            path_cloned.push((entry.0, entry.1.duplicate()));
            i = i + 1;
        }
        let r = MoveSequenceVec { path: path_cloned };
        proof {
            assert(r.steps() =~= self.steps());
        }
        r
    }
}

enum MoveSequenceLinkedListInner<P: RobotPositions> {
    Nil,
    Cons(Move, P, Rc<MoveSequenceLinkedListInner<P>>),
}

spec fn inner_steps<P: RobotPositions>(l: MoveSequenceLinkedListInner<P>) -> Seq<
    (Move, Seq<Position>),
>
    decreases l,
{
    match l {
        MoveSequenceLinkedListInner::Nil => Seq::empty(),
        MoveSequenceLinkedListInner::Cons(m, p, rest) => inner_steps(*rest).push((m, p.pos_seq())),
    }
}

/// Move sequence backed by a linked list with `Rc`-shared tails, so that
/// appending never copies or invalidates a shared prefix.
#[derive(Clone)]
pub struct MoveSequenceLinkedList<P: RobotPositions>(Rc<MoveSequenceLinkedListInner<P>>);

impl<P: RobotPositions> MoveSequence<P> for MoveSequenceLinkedList<P> {
    closed spec fn steps(&self) -> Seq<(Move, Seq<Position>)> {
        inner_steps(*self.0)
    }

    fn empty() -> (r: Self) {
        MoveSequenceLinkedList(Rc::new(MoveSequenceLinkedListInner::Nil))
    }

    fn append(&self, move_: Move, next_positions: P) -> (r: Self) {
        MoveSequenceLinkedList(
            Rc::new(MoveSequenceLinkedListInner::Cons(move_, next_positions, self.0.clone())),
        )
    }

    fn last(&self) -> (r: Option<(&Move, &P)>) {
        match &*self.0 {
            MoveSequenceLinkedListInner::Nil => None,
            MoveSequenceLinkedListInner::Cons(m, p, _) => Some((m, p)),
        }
    }

    fn to_vec(self) -> (r: Vec<(Move, P)>) {
        let ghost orig = self.steps();
        let mut rev: Vec<(Move, P)> = Vec::new();
        let mut current: Rc<MoveSequenceLinkedListInner<P>> = self.0;
        loop
            invariant
                rev@.len() + inner_steps(*current).len() == orig.len(),
                forall|j: int|
                    0 <= j < inner_steps(*current).len() ==> #[trigger] inner_steps(*current)[j]
                        == orig[j],
                forall|j: int|
                    0 <= j < rev@.len() ==> ((#[trigger] rev@[j]).0, rev@[j].1.pos_seq()) == orig[orig.len() - 1 - j],
            ensures
                rev@.len() == orig.len(),
                forall|j: int|
                    0 <= j < rev@.len() ==> ((#[trigger] rev@[j]).0, rev@[j].1.pos_seq()) == orig[orig.len() - 1 - j],
            decreases inner_steps(*current).len(),
        {
            let next_current: Rc<MoveSequenceLinkedListInner<P>>;
            match &*current {
                MoveSequenceLinkedListInner::Nil => {
                    break;
                },
                MoveSequenceLinkedListInner::Cons(m, p, rest) => {
                    proof {
                        assert(inner_steps(*current) == inner_steps(**rest).push(
                            (*m, p.pos_seq()),
                        ));
                        assert forall|j: int|
                            0 <= j < inner_steps(**rest).len() implies #[trigger] inner_steps(
                            **rest,
                        )[j] == orig[j] by {
                            assert(inner_steps(*current)[j] == inner_steps(**rest)[j]);
                        }
                        assert(inner_steps(*current)[inner_steps(*current).len() - 1] == (
                            *m,
                            p.pos_seq(),
                        ));
                    }
                    rev.push((*m, p.duplicate()));
                    next_current = rest.clone();
                },
            }
            current = next_current;
        }
        let mut result: Vec<(Move, P)> = Vec::new();
        while rev.len() > 0
            invariant
                result@.len() + rev@.len() == orig.len(),
                forall|j: int|
                    0 <= j < rev@.len() ==> ((#[trigger] rev@[j]).0, rev@[j].1.pos_seq()) == orig[orig.len() - 1 - j],
                forall|j: int|
                    0 <= j < result@.len() ==> ((#[trigger] result@[j]).0, result@[j].1.pos_seq())
                        == orig[j],
            decreases rev@.len(),
        {
            let e = rev.pop().unwrap();
            result.push(e);
        }
        result
    }

    fn duplicate(&self) -> (r: Self) {
        MoveSequenceLinkedList(self.0.clone())
    }
}

} // verus!
