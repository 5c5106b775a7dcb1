use slide_solver::move_sequence::Move;
use slide_solver::move_sequence::MoveSequence;
use slide_solver::move_sequence::MoveSequenceLinkedList;
use slide_solver::move_sequence::MoveSequenceVec;
use slide_solver::robot_positions::RobotPositionsVec;
use slide_solver::Direction;
use slide_solver::Position;

fn helper<S: MoveSequence<RobotPositionsVec> + Clone>(empty: S) {
    assert!(empty.last().is_none());
    assert_eq!(
        empty.clone().to_vec().into_iter().collect::<Vec<_>>(),
        vec![]
    );

    let positions_1 = RobotPositionsVec::new(vec![Position::new(0, 0)]);
    let appended_once = empty.append(
        Move {
            robot: 0,
            direction: Direction::Up,
        },
        positions_1.clone(),
    );
    assert_eq!(appended_once.last().unwrap().1, &positions_1);
    assert_eq!(
        appended_once
            .clone()
            .to_vec()
            .into_iter()
            .map(|(_, p)| p)
            .collect::<Vec<_>>(),
        vec![positions_1.clone()]
    );

    let positions_2 = RobotPositionsVec::new(vec![Position::new(1, 1)]);
    let appended_twice = appended_once.append(
        Move {
            robot: 0,
            direction: Direction::Down,
        },
        positions_2.clone(),
    );
    assert_eq!(appended_twice.last().unwrap().1, &positions_2);
    assert_eq!(
        appended_twice
            .clone()
            .to_vec()
            .into_iter()
            .map(|(_, p)| p)
            .collect::<Vec<_>>(),
        vec![positions_1.clone(), positions_2.clone()]
    );
}

#[test]
fn test_move_sequences() {
    helper(MoveSequenceVec::empty());
    helper(MoveSequenceLinkedList::empty());
}
