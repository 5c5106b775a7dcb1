use slide_solver::board::Board;
use slide_solver::move_sequence::MoveSequence;
use slide_solver::move_sequence::MoveSequenceLinkedList;
use slide_solver::move_sequence::MoveSequenceVec;
use slide_solver::robot_positions::RobotPositions;
use slide_solver::robot_positions::RobotPositionsVec;
use slide_solver::solver::solve;
use slide_solver::wall_configuration::WallConfigurationVecVec;
use slide_solver::Direction;
use slide_solver::Position;

fn example_board() -> Board<WallConfigurationVecVec> {
    Board::new(WallConfigurationVecVec {
        height: 6,
        width: 5,
        right_walls: vec![vec![], vec![2], vec![], vec![], vec![], vec![]],
        bottom_walls: vec![vec![], vec![], vec![1], vec![], vec![]],
    })
}

fn example_positions() -> RobotPositionsVec {
    RobotPositionsVec::new(vec![
        Position::new(0, 0),
        Position::new(1, 0),
        Position::new(1, 2),
        Position::new(1, 4),
    ])
}

#[test]
fn test_solve_with_solution() {
    let board = example_board();
    let robot_positions = example_positions();
    let empty_move_sequence = MoveSequenceLinkedList::<RobotPositionsVec>::empty();
    let cases: Vec<(usize, Position, usize)> = vec![
        (0, Position::new(0, 0), 0),
        (0, Position::new(0, 4), 1),
        (0, Position::new(0, 3), 2),
        (0, Position::new(4, 3), 5),
        (3, Position::new(0, 0), 4),
        (0, Position::new(3, 1), 8),
        (1, Position::new(2, 3), 6),
        (0, Position::new(2, 3), 6),
        (0, Position::new(3, 2), 8),
        (0, Position::new(2, 2), 6),
        (0, Position::new(3, 3), 7),
    ];
    for (robot, target_position, moves) in cases {
        let solution = solve(
            &board,
            robot_positions.clone(),
            empty_move_sequence.clone(),
            (robot, target_position),
        )
        .unwrap();

        // assert correct number of moves
        assert_eq!(solution.moves().len(), moves);

        // last move should always be made with the target robot
        if moves > 0 {
            assert_eq!(solution.moves().last().unwrap().0.robot, robot);
        }
    }
}

#[test]
fn test_solve_with_no_solution() {
    let board = Board::new(WallConfigurationVecVec {
        height: 3,
        width: 3,
        right_walls: vec![vec![], vec![], vec![]],
        bottom_walls: vec![vec![], vec![], vec![]],
    });
    let robot_positions = RobotPositionsVec::new(vec![Position::new(0, 0), Position::new(1, 1)]);
    let empty_move_sequence = MoveSequenceLinkedList::<RobotPositionsVec>::empty();

    assert!(solve(
        &board,
        robot_positions.clone(),
        empty_move_sequence.clone(),
        (0, Position::new(1, 1)), // there's no way for the robot to reach the center of the board!
    )
    .is_none());
}

#[test]
fn test_solve_move_count_is_stable_across_runs() {
    let board = example_board();
    let robot_positions = example_positions();
    let first = solve(
        &board,
        robot_positions.clone(),
        MoveSequenceLinkedList::<RobotPositionsVec>::empty(),
        (0, Position::new(2, 2)),
    )
    .unwrap();
    let second = solve(
        &board,
        robot_positions.clone(),
        MoveSequenceLinkedList::<RobotPositionsVec>::empty(),
        (0, Position::new(2, 2)),
    )
    .unwrap();
    assert_eq!(first.moves().len(), 6);
    assert_eq!(second.moves().len(), first.moves().len());
}

#[test]
fn test_solve_agrees_across_history_backends() {
    let board = example_board();
    let robot_positions = example_positions();
    let linked = solve(
        &board,
        robot_positions.clone(),
        MoveSequenceLinkedList::<RobotPositionsVec>::empty(),
        (0, Position::new(3, 3)),
    )
    .unwrap();
    let flat = solve(
        &board,
        robot_positions.clone(),
        MoveSequenceVec::<RobotPositionsVec>::empty(),
        (0, Position::new(3, 3)),
    )
    .unwrap();
    assert_eq!(linked.moves().len(), 7);
    assert_eq!(flat.moves().len(), 7);
}

#[test]
fn test_returned_moves_replay_to_the_target() {
    let board = example_board();
    let robot_positions = example_positions();
    let target_robot: usize = 0;
    let target_position = Position::new(2, 2);
    let solution = solve(
        &board,
        robot_positions.clone(),
        MoveSequenceLinkedList::<RobotPositionsVec>::empty(),
        (target_robot, target_position),
    )
    .unwrap();

    let steps = solution.moves();
    let mut current = robot_positions;
    for (index, (move_, recorded)) in steps.iter().enumerate() {
        // no strict prefix of the sequence already satisfies the goal
        assert_ne!(current.get_robot_position(target_robot), &target_position);

        // the recorded step is exactly what the movement rules compute
        let valid_moves = board.get_valid_moves_for_robot(move_.robot, &current);
        let destination = valid_moves
            .into_iter()
            .find(|(direction, _)| *direction == move_.direction)
            .map(|(_, destination)| destination)
            .unwrap();
        current = current.update(move_.robot, destination);
        assert_eq!(&current, recorded, "step {}", index);
    }

    // the final step puts the target robot exactly on the target cell
    assert_eq!(current.get_robot_position(target_robot), &target_position);
}
