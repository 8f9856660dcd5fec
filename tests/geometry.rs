use exolorev2::geometry::{distance_sq, isqrt, step_toward, Position};

fn dist2(a: Position, b: Position) -> i128 {
    let dx = (b.x - a.x) as i128;
    let dy = (b.y - a.y) as i128;
    dx * dx + dy * dy
}

#[test]
fn isqrt_exact_values() {
    assert_eq!(isqrt(0), 0);
    assert_eq!(isqrt(1), 1);
    assert_eq!(isqrt(3), 1);
    assert_eq!(isqrt(4), 2);
    assert_eq!(isqrt(24), 4);
    assert_eq!(isqrt(25), 5);
    assert_eq!(isqrt(340_000_000_000), 583_095);
    assert_eq!(isqrt(8_000_000_000_000_000_000_000_000), 2_828_427_124_746);
}

#[test]
fn distance_sq_of_offsets() {
    let a = Position::new(-3, 7);
    let b = Position::new(1, 4);
    assert_eq!(distance_sq(a, b), 25);
    assert_eq!(distance_sq(b, a), 25);
    assert_eq!(distance_sq(a, a), 0);
}

#[test]
fn step_toward_single_obstacle_scenario() {
    // 1 obstacle at (500, 300) pixels, robot at the origin, 100 pixels per
    // second for one second, with 1000 world units per pixel.
    let target = Position::new(500_000, 300_000);
    let p1 = step_toward(Position::new(0, 0), target, 100_000, 1000);
    assert_eq!(p1, Position::new(85_749, 51_449));
    // never longer than 100 pixels
    assert!(dist2(Position::new(0, 0), p1) <= 100_000 * 100_000);
    let p2 = step_toward(p1, target, 100_000, 1000);
    assert_eq!(p2, Position::new(171_498, 102_898));
    assert!(dist2(p2, target) < dist2(p1, target));
}

#[test]
fn step_toward_small_units() {
    assert_eq!(step_toward(Position::new(0, 0), Position::new(500, 300), 100, 1000), Position::new(85, 51));
}

#[test]
fn step_toward_zero_time_stays() {
    let from = Position::new(12, -40);
    assert_eq!(step_toward(from, Position::new(900, 900), 100_000, 0), from);
    assert_eq!(step_toward(from, Position::new(-5, 3), 7, 0), from);
}

#[test]
fn step_toward_on_target_stays() {
    let p = Position::new(250, 250);
    assert_eq!(step_toward(p, p, 100_000, 1000), p);
}

#[test]
fn step_toward_gets_closer() {
    let target = Position::new(-30_000, 40_000);
    let from = Position::new(0, 0);
    for elapsed in [1u32, 16, 100, 500] {
        let next = step_toward(from, target, 100_000, elapsed);
        assert!(dist2(next, target) < dist2(from, target));
    }
    // a step of two units moves along each axis of a diagonal
    let next = step_toward(Position::new(0, 0), Position::new(3, 3), 1, 2000);
    assert_eq!(next, Position::new(1, 1));
    // a step shorter than twice the distance gets closer
    let next = step_toward(Position::new(0, 0), Position::new(50, 1), 100_000, 1);
    assert_eq!(next, Position::new(98, 1));
    assert!(dist2(next, Position::new(50, 1)) < 2501);
}

#[test]
fn step_toward_never_exceeds_travel() {
    let next = step_toward(Position::new(0, 0), Position::new(36, 36), 100_000, 1);
    assert_eq!(next, Position::new(70, 70));
    assert!(dist2(Position::new(0, 0), next) <= 100 * 100);
    // a step below one unit rounds to no movement
    assert_eq!(step_toward(Position::new(0, 0), Position::new(3, 3), 1, 1), Position::new(0, 0));
}

#[test]
fn step_toward_overshoots_without_clamping() {
    assert_eq!(step_toward(Position::new(0, 0), Position::new(3, 4), 1000, 1000), Position::new(600, 800));
    assert_eq!(step_toward(Position::new(0, 0), Position::new(-3, -4), 1000, 2500), Position::new(-1500, -2000));
}
