use slide_solver::wall_configuration::WallConfiguration;
use slide_solver::wall_configuration::WallConfigurationVecVec;
use slide_solver::Position;

#[test]
fn test_wall_configuration() {
    let wall_configuration = WallConfigurationVecVec {
        height: 6,
        width: 5,
        right_walls: vec![vec![1, 2], vec![], vec![], vec![], vec![], vec![]],
        bottom_walls: vec![vec![1, 2], vec![], vec![], vec![], vec![]],
    };
    assert!(wall_configuration.is_valid());
    type Case = (
        Position,
        Option<usize>,
        Option<usize>,
        Option<usize>,
        Option<usize>,
    );
    let cases: Vec<Case> = vec![
        (Position::new(2, 2), None, None, None, None), // clear row and column
        (Position::new(0, 0), None, Some(1), Some(1), None),
        (Position::new(0, 3), None, None, None, Some(3)),
        (Position::new(3, 0), Some(3), None, None, None),
        (Position::new(0, 2), None, None, Some(2), Some(2)), // horizontally stuck between two walls
        (Position::new(2, 0), Some(2), Some(2), None, None), // vertically stuck between two walls
    ];

    for (position, up, down, right, left) in cases {
        assert_eq!(wall_configuration.next_wall_up(&position), up);
        assert_eq!(wall_configuration.next_wall_down(&position), down);
        assert_eq!(wall_configuration.next_wall_right(&position), right);
        assert_eq!(wall_configuration.next_wall_left(&position), left);
    }
}

#[test]
fn test_wall_configuration_rejects_wrong_row_count() {
    let wall_configuration = WallConfigurationVecVec {
        height: 6,
        width: 5,
        right_walls: vec![vec![], vec![]],
        bottom_walls: vec![vec![], vec![], vec![], vec![], vec![]],
    };
    assert!(!wall_configuration.is_valid());
}

#[test]
fn test_wall_configuration_rejects_out_of_range_index() {
    let wall_configuration = WallConfigurationVecVec {
        height: 2,
        width: 2,
        right_walls: vec![vec![2], vec![]],
        bottom_walls: vec![vec![], vec![]],
    };
    assert!(!wall_configuration.is_valid());

    let wall_configuration = WallConfigurationVecVec {
        height: 2,
        width: 2,
        right_walls: vec![vec![], vec![]],
        bottom_walls: vec![vec![], vec![5]],
    };
    assert!(!wall_configuration.is_valid());
}
