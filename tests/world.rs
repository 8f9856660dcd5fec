use exolorev2::geometry::Position;
use exolorev2::world::{
    place_obstacle, spawn_camera, spawn_obstacle, spawn_robot, spawn_station, Extent, Module,
    WindowSize, NUMBER_OF_OBSTACLES,
};

#[test]
fn spawn_station_at_centre() {
    let w = WindowSize { width: 1_920_000, height: 1_080_000 };
    assert_eq!(spawn_station(w), Position::new(960_000, 540_000));
    assert_eq!(spawn_camera(w), Position::new(960_000, 540_000));
    assert_eq!(spawn_station(WindowSize { width: 5, height: 3 }), Position::new(2, 1));
}

#[test]
fn spawn_robot_initial_state() {
    let r = spawn_robot(WindowSize { width: 1_920_000, height: 1_080_000 });
    assert_eq!(r.id, 0);
    assert_eq!(r.position, Position::new(640_000, 540_000));
    assert_eq!(r.direction, Position::new(1, 1));
    assert_eq!(r.energie, 100);
    assert_eq!(r.minerais, 0);
    assert!(r.points_interet_scientifiques.is_empty());
    assert!(r.modules.is_empty());
    assert_eq!(r.target_obstacle, None);
}

#[test]
fn place_obstacle_scales_fractions() {
    let w = WindowSize { width: 1000, height: 600 };
    let o = place_obstacle(7, w, 0x8000_0000, 0x4000_0000);
    assert_eq!(o.id, 7);
    assert_eq!(o.position, Position::new(500, 150));
    assert_eq!(o.taille, Extent { width: 0, height: 0 });
    let edge = place_obstacle(1, w, u32::MAX, u32::MAX);
    assert_eq!(edge.position, Position::new(999, 599));
    assert_eq!(place_obstacle(2, w, 0, 0).position, Position::new(0, 0));
}

#[test]
fn spawn_obstacle_fills_window() {
    let w = WindowSize { width: 1_920_000, height: 1_080_000 };
    let obs = spawn_obstacle(w);
    assert_eq!(obs.len(), NUMBER_OF_OBSTACLES);
    for (k, o) in obs.iter().enumerate() {
        assert_eq!(o.id, k as u64);
        assert!(o.position.x >= 0 && o.position.x < 1_920_000);
        assert!(o.position.y >= 0 && o.position.y < 1_080_000);
    }
}

#[test]
fn module_variants_differ() {
    assert_ne!(Module::AnalyseChimique, Module::Forage);
    assert_ne!(Module::Forage, Module::ImagerieHauteResolution);
}
