use exolorev2::geometry::Position;
use exolorev2::simulation::simulation_tick;
use exolorev2::steering::{find_obstacle_position, get_nearest_obstacle, robot_movement, ROBOT_SPEED};
use exolorev2::world::{Extent, Obstacle, Robot};

fn robot_at(x: i64, y: i64, target: Option<u64>) -> Robot {
    Robot {
        id: 1,
        direction: Position::new(1, 1),
        position: Position::new(x, y),
        energie: 100,
        minerais: 0,
        points_interet_scientifiques: Vec::new(),
        modules: Vec::new(),
        target_obstacle: target,
    }
}

fn obstacle(id: u64, x: i64, y: i64) -> Obstacle {
    Obstacle {
        id,
        position: Position::new(x, y),
        direction: Position::new(0, 0),
        taille: Extent { width: 0, height: 0 },
    }
}

#[test]
fn find_obstacle_position_by_identity() {
    let obs = vec![obstacle(3, 1, 2), obstacle(9, 5, 6), obstacle(9, 7, 8)];
    assert_eq!(find_obstacle_position(&obs, 3), Some(Position::new(1, 2)));
    assert_eq!(find_obstacle_position(&obs, 9), Some(Position::new(5, 6)));
    assert_eq!(find_obstacle_position(&obs, 4), None);
}

#[test]
fn movement_single_obstacle_scenario() {
    assert_eq!(ROBOT_SPEED, 100_000);
    let obs = vec![obstacle(0, 500_000, 300_000)];
    let mut robots = vec![robot_at(0, 0, Some(0))];
    robot_movement(&mut robots, &obs, 1000);
    assert_eq!(robots[0].position, Position::new(85_749, 51_449));
    assert_eq!(robots[0].target_obstacle, Some(0));
}

#[test]
fn movement_zero_time_keeps_positions() {
    let obs = vec![obstacle(0, 500_000, 300_000), obstacle(1, -7, 9)];
    let mut robots = vec![robot_at(10, 10, Some(0)), robot_at(-4, 4, Some(1)), robot_at(3, 3, None)];
    robot_movement(&mut robots, &obs, 0);
    assert_eq!(robots[0].position, Position::new(10, 10));
    assert_eq!(robots[1].position, Position::new(-4, 4));
    assert_eq!(robots[2].position, Position::new(3, 3));
}

#[test]
fn movement_skips_missing_and_absent_targets() {
    let obs = vec![obstacle(0, 1000, 0)];
    let mut robots = vec![robot_at(5, 5, Some(77)), robot_at(6, 6, None)];
    robot_movement(&mut robots, &obs, 1000);
    assert_eq!(robots[0].position, Position::new(5, 5));
    assert_eq!(robots[1].position, Position::new(6, 6));
}

#[test]
fn movement_approaches_target() {
    let obs = vec![obstacle(0, 2_000_000, -1_000_000)];
    let mut robots = vec![robot_at(0, 0, Some(0))];
    let mut last = i128::MAX;
    for _ in 0..10 {
        robot_movement(&mut robots, &obs, 16);
        let p = robots[0].position;
        let d = ((2_000_000 - p.x) as i128).pow(2) + ((-1_000_000 - p.y) as i128).pow(2);
        assert!(d < last);
        last = d;
    }
}

#[test]
fn nearest_obstacle_first_among_ties() {
    let obs = vec![obstacle(0, 10, 0), obstacle(1, 0, 3), obstacle(2, -3, 0), obstacle(3, 100, 100)];
    assert_eq!(get_nearest_obstacle(Position::new(0, 0), &obs), Position::new(0, 3));
    assert_eq!(get_nearest_obstacle(Position::new(90, 90), &obs), Position::new(100, 100));
    assert_eq!(get_nearest_obstacle(Position::new(0, 0), &vec![obstacle(5, 1, 1)]), Position::new(1, 1));
}

#[test]
fn tick_assigns_then_moves() {
    let obs = vec![obstacle(11, 500_000, 300_000)];
    let mut robots = vec![robot_at(0, 0, None)];
    simulation_tick(&mut robots, &obs, 1000);
    assert_eq!(robots[0].target_obstacle, Some(11));
    assert_eq!(robots[0].position, Position::new(85_749, 51_449));
    simulation_tick(&mut robots, &obs, 1000);
    assert_eq!(robots[0].target_obstacle, Some(11));
    assert_eq!(robots[0].position, Position::new(171_498, 102_898));
}

#[test]
fn tick_two_robots_one_obstacle_only_one_moves() {
    let obs = vec![obstacle(11, 1000, 0)];
    let mut robots = vec![robot_at(0, 0, None), robot_at(0, 50, None)];
    simulation_tick(&mut robots, &obs, 100);
    let holders = robots.iter().filter(|r| r.target_obstacle.is_some()).count();
    assert_eq!(holders, 1);
    assert_eq!(robots[1].position, Position::new(0, 50));
}
