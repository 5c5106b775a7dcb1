use slide_solver::board::Board;
use slide_solver::robot_positions::RobotPositionsVec;
use slide_solver::wall_configuration::WallConfigurationVecVec;
use slide_solver::Direction;
use slide_solver::Position;

#[test]
fn test_board() {
    let board = Board::new(WallConfigurationVecVec {
        height: 6,
        width: 5,
        right_walls: vec![vec![], vec![2], vec![], vec![], vec![], vec![]],
        bottom_walls: vec![vec![], vec![], vec![1], vec![], vec![]],
    });
    let robot_positions = RobotPositionsVec::new(vec![
        Position::new(0, 0),
        Position::new(1, 0),
        Position::new(1, 2),
        Position::new(1, 4),
    ]);
    type Case = (usize, Vec<(Direction, Position)>);
    let cases: Vec<Case> = vec![
        (0, vec![(Direction::Right, Position::new(0, 4))]),
        (
            1,
            vec![
                (Direction::Down, Position::new(5, 0)),
                (Direction::Right, Position::new(1, 1)),
            ],
        ),
        (
            2,
            vec![
                (Direction::Up, Position::new(0, 2)),
                (Direction::Left, Position::new(1, 1)),
            ],
        ),
        (
            3,
            vec![
                (Direction::Up, Position::new(0, 4)),
                (Direction::Down, Position::new(5, 4)),
                (Direction::Left, Position::new(1, 3)),
            ],
        ),
    ];
    for (robot, expected) in cases {
        let result = board.get_valid_moves_for_robot(robot, &robot_positions);
        assert_eq!(result, expected)
    }
}

#[test]
fn test_lone_robot_stops_at_board_edges() {
    let board = Board::new(WallConfigurationVecVec {
        height: 3,
        width: 3,
        right_walls: vec![vec![], vec![], vec![]],
        bottom_walls: vec![vec![], vec![], vec![]],
    });
    let robot_positions = RobotPositionsVec::new(vec![Position::new(1, 1)]);
    let result = board.get_valid_moves_for_robot(0, &robot_positions);
    assert_eq!(
        result,
        vec![
            (Direction::Up, Position::new(0, 1)),
            (Direction::Down, Position::new(2, 1)),
            (Direction::Right, Position::new(1, 2)),
            (Direction::Left, Position::new(1, 0)),
        ]
    );
}

#[test]
fn test_blocked_robot_stops_adjacent_to_blocker() {
    let board = Board::new(WallConfigurationVecVec {
        height: 1,
        width: 5,
        right_walls: vec![vec![]],
        bottom_walls: vec![vec![], vec![], vec![], vec![], vec![]],
    });
    let robot_positions =
        RobotPositionsVec::new(vec![Position::new(0, 0), Position::new(0, 4)]);
    let result = board.get_valid_moves_for_robot(0, &robot_positions);
    assert_eq!(result, vec![(Direction::Right, Position::new(0, 3))]);
    let result = board.get_valid_moves_for_robot(1, &robot_positions);
    assert_eq!(result, vec![(Direction::Left, Position::new(0, 1))]);
}
