use slide_solver::robot_positions::RobotPositions;
use slide_solver::robot_positions::RobotPositionsVec;
use slide_solver::Position;

#[test]
fn test_robot_positions() {
    let robot_positions = RobotPositionsVec::new(vec![
        Position::new(0, 0),
        Position::new(0, 3),
        Position::new(0, 2),
        Position::new(3, 0),
    ]);

    type Case = (
        Position,
        Option<usize>,
        Option<usize>,
        Option<usize>,
        Option<usize>,
    );
    let cases: Vec<Case> = vec![
        (Position::new(0, 0), None, Some(2), Some(1), None),
        (Position::new(0, 5), None, None, None, Some(4)),
        (Position::new(4, 0), Some(4), None, None, None),
        (Position::new(3, 0), Some(1), None, None, None),
    ];

    for (position, up, down, right, left) in cases {
        assert_eq!(robot_positions.next_robot_up(&position), up);
        assert_eq!(robot_positions.next_robot_down(&position), down);
        assert_eq!(robot_positions.next_robot_right(&position), right);
        assert_eq!(robot_positions.next_robot_left(&position), left);
    }
}

#[test]
fn test_update_leaves_original_untouched() {
    let robot_positions = RobotPositionsVec::new(vec![Position::new(0, 0), Position::new(2, 2)]);
    let updated = robot_positions.update(1, Position::new(2, 4));
    assert_eq!(robot_positions.get_robot_position(1), &Position::new(2, 2));
    assert_eq!(updated.get_robot_position(1), &Position::new(2, 4));
    assert_eq!(updated.get_robot_position(0), &Position::new(0, 0));
    assert_eq!(updated.num_robots(), 2);
}
