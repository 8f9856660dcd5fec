use exolorev2::geometry::Position;
use exolorev2::world::{Extent, Module, Obstacle, Robot};
use exolorev2::targeting::robot_targeting;

fn robot(id: u32, target: Option<u64>) -> Robot {
    Robot {
        id,
        direction: Position::new(1, 1),
        position: Position::new(id as i64 * 10, 0),
        energie: 100,
        minerais: 0,
        points_interet_scientifiques: vec![Position::new(4, 4)],
        modules: vec![Module::Forage],
        target_obstacle: target,
    }
}

fn obstacle(id: u64, x: i64, y: i64) -> Obstacle {
    Obstacle {
        id,
        position: Position::new(x, y),
        direction: Position::new(0, 0),
        taille: Extent { width: 10, height: 10 },
    }
}

fn field(n: u64) -> Vec<Obstacle> {
    (0..n).map(|k| obstacle(100 + k, k as i64 * 50, 20)).collect()
}

fn assert_no_duplicates(robots: &[Robot]) {
    for i in 0..robots.len() {
        for j in 0..robots.len() {
            if i != j && robots[i].target_obstacle.is_some() {
                assert_ne!(robots[i].target_obstacle, robots[j].target_obstacle);
            }
        }
    }
}

fn held(robots: &[Robot]) -> usize {
    robots.iter().filter(|r| r.target_obstacle.is_some()).count()
}

#[test]
fn single_robot_single_obstacle_is_assigned_and_kept() {
    let obs = vec![obstacle(42, 500, 300)];
    let mut robots = vec![robot(0, None)];
    robot_targeting(&mut robots, &obs);
    assert_eq!(robots[0].target_obstacle, Some(42));
    robot_targeting(&mut robots, &obs);
    assert_eq!(robots[0].target_obstacle, Some(42));
}

#[test]
fn two_robots_one_obstacle_exactly_one_holds() {
    let obs = vec![obstacle(7, 0, 0)];
    let mut robots = vec![robot(0, None), robot(1, None)];
    for _ in 0..5 {
        robot_targeting(&mut robots, &obs);
        assert_eq!(held(&robots), 1);
        assert_no_duplicates(&robots);
    }
    // the first robot in order claims it when nobody held it before
    assert_eq!(robots[0].target_obstacle, Some(7));
    assert_eq!(robots[1].target_obstacle, None);
}

#[test]
fn collision_goes_to_first_in_order() {
    let obs = vec![obstacle(7, 0, 0)];
    let mut robots = vec![robot(0, Some(7)), robot(1, Some(7))];
    robot_targeting(&mut robots, &obs);
    assert_eq!(robots[0].target_obstacle, Some(7));
    assert_eq!(robots[1].target_obstacle, None);
}

#[test]
fn collision_reassigns_to_free_obstacle() {
    let obs = vec![obstacle(1, 0, 0), obstacle(2, 5, 5)];
    let mut robots = vec![robot(0, Some(1)), robot(1, Some(1))];
    robot_targeting(&mut robots, &obs);
    assert_eq!(robots[0].target_obstacle, Some(1));
    assert_eq!(robots[1].target_obstacle, Some(2));
}

#[test]
fn stale_target_is_released() {
    let obs = vec![obstacle(5, 0, 0)];
    let mut robots = vec![robot(0, Some(99))];
    robot_targeting(&mut robots, &obs);
    assert_eq!(robots[0].target_obstacle, Some(5));
    let mut alone = vec![robot(0, Some(99))];
    robot_targeting(&mut alone, &Vec::new());
    assert_eq!(alone[0].target_obstacle, None);
}

#[test]
fn empty_registry_leaves_everyone_targetless() {
    let mut robots = vec![robot(0, None), robot(1, None), robot(2, None)];
    robot_targeting(&mut robots, &Vec::new());
    assert_eq!(held(&robots), 0);
}

#[test]
fn more_robots_than_obstacles() {
    let obs = field(3);
    let mut robots: Vec<Robot> = (0..7).map(|i| robot(i, None)).collect();
    for _ in 0..4 {
        robot_targeting(&mut robots, &obs);
        assert_eq!(held(&robots), 3);
        assert_no_duplicates(&robots);
        // a robot without a target finds every obstacle held by another robot
        for (i, r) in robots.iter().enumerate() {
            if r.target_obstacle.is_none() {
                for o in &obs {
                    assert!(robots
                        .iter()
                        .enumerate()
                        .any(|(j, other)| j != i && other.target_obstacle == Some(o.id)));
                }
            }
        }
    }
}

#[test]
fn fewer_robots_than_obstacles_all_hold_distinct_targets() {
    let obs = field(6);
    let mut robots: Vec<Robot> = (0..4).map(|i| robot(i, None)).collect();
    robot_targeting(&mut robots, &obs);
    assert_eq!(held(&robots), 4);
    assert_no_duplicates(&robots);
    for r in &robots {
        let t = r.target_obstacle.unwrap();
        assert!(obs.iter().any(|o| o.id == t));
    }
    let before: Vec<Option<u64>> = robots.iter().map(|r| r.target_obstacle).collect();
    robot_targeting(&mut robots, &obs);
    let after: Vec<Option<u64>> = robots.iter().map(|r| r.target_obstacle).collect();
    assert_eq!(before, after);
}

#[test]
fn targeting_changes_only_targets() {
    let obs = field(2);
    let mut robots = vec![robot(3, None)];
    robot_targeting(&mut robots, &obs);
    assert_eq!(robots[0].id, 3);
    assert_eq!(robots[0].position, Position::new(30, 0));
    assert_eq!(robots[0].modules, vec![Module::Forage]);
    assert_eq!(robots[0].points_interet_scientifiques, vec![Position::new(4, 4)]);
}
