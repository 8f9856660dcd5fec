//! The agents and objects of the simulated field.

use crate::geometry::{in_range, Position};
use vstd::prelude::*;

verus! {

/// Identity of an obstacle in the registry of a tick.
pub type ObstacleId = u64;

/// A capability module a robot may carry. Modules carry no behaviour here.
#[derive(Clone, Copy, Debug, PartialEq, Eq, Structural)]
pub enum Module {
    AnalyseChimique,
    Forage,
    ImagerieHauteResolution,
}

/// An exploring robot. Only `position` and `target_obstacle` take part in the
/// simulation; the other fields are carried state.
#[derive(Debug)]
pub struct Robot {
    pub id: u32,
    pub direction: Position,
    pub position: Position,
    pub energie: u64,
    pub minerais: u64,
    pub points_interet_scientifiques: Vec<Position>,
    pub modules: Vec<Module>,
    /// Identity of the obstacle this robot heads for: a lookup key into the
    /// registry, never an owning reference.
    pub target_obstacle: Option<ObstacleId>,
}

/// The extent of an obstacle, in world units.
#[derive(Clone, Copy, Debug, PartialEq, Eq, Structural)]
pub struct Extent {
    pub width: u64,
    pub height: u64,
}

/// An obstacle of the field: fixed for the whole run.
#[derive(Clone, Copy, Debug, PartialEq, Eq, Structural)]
pub struct Obstacle {
    pub id: ObstacleId,
    pub position: Position,
    pub direction: Position,
    pub taille: Extent,
}

/// A record of scientific data gathered by a robot.
#[derive(Debug)]
pub struct Donnee {
    pub id: u32,
    pub valeur: String,
    pub id_robot: u32,
}

/// The base station of the robots.
#[derive(Debug)]
pub struct Station {
    pub position: Position,
    pub energie: u64,
    pub minerais: u64,
    pub donnees_scientifiques: Vec<Donnee>,
    pub robots: Vec<Robot>,
}

/// `a` and `b` agree on every field but the target.
pub open spec fn same_but_target(a: Robot, b: Robot) -> bool {
    &&& a.id == b.id
    &&& a.direction == b.direction
    &&& a.position == b.position
    &&& a.energie == b.energie
    &&& a.minerais == b.minerais
    &&& a.points_interet_scientifiques@ == b.points_interet_scientifiques@
    &&& a.modules@ == b.modules@
}

/// `a` and `b` agree on every field but the position.
pub open spec fn same_but_position(a: Robot, b: Robot) -> bool {
    &&& a.id == b.id
    &&& a.direction == b.direction
    &&& a.energie == b.energie
    &&& a.minerais == b.minerais
    &&& a.points_interet_scientifiques@ == b.points_interet_scientifiques@
    &&& a.modules@ == b.modules@
    &&& a.target_obstacle == b.target_obstacle
}

/// Some obstacle of the registry has identity `id`.
pub open spec fn registry_has(obs: Seq<Obstacle>, id: ObstacleId) -> bool {
    exists|k: int| 0 <= k < obs.len() && obs[k].id == id
}

/// Number of obstacles placed on the field at start-up.
pub const NUMBER_OF_OBSTACLES: usize = 5;

/// Size of the window, in world units.
#[derive(Clone, Copy, Debug, PartialEq, Eq, Structural)]
pub struct WindowSize {
    pub width: u32,
    pub height: u32,
}

/// The centre of the window.
pub open spec fn window_centre(window: WindowSize) -> Position {
    Position { x: (window.width / 2) as i64, y: (window.height / 2) as i64 }
}

/// Where the station is drawn: the centre of the window.
pub fn spawn_station(window: WindowSize) -> (r: Position)
    ensures
        r == window_centre(window),
        in_range(r),
{
    Position { x: (window.width / 2) as i64, y: (window.height / 2) as i64 }
}

/// Where the camera looks: the centre of the window.
pub fn spawn_camera(window: WindowSize) -> (r: Position)
    ensures
        r == window_centre(window),
        in_range(r),
{
    Position { x: (window.width / 2) as i64, y: (window.height / 2) as i64 }
}

/// The robot of the field at start-up: identity 0, a third of the width from
/// the left edge and half the height up, full energy, no minerals, no data,
/// no module and no target.
pub fn spawn_robot(window: WindowSize) -> (r: Robot)
    ensures
        r.id == 0,
        r.position == (Position { x: (window.width / 3) as i64, y: (window.height / 2) as i64 }),
        r.direction == (Position { x: 1, y: 1 }),
        r.energie == 100,
        r.minerais == 0,
        r.points_interet_scientifiques@.len() == 0,
        r.modules@.len() == 0,
        r.target_obstacle is None,
        in_range(r.position),
{
    Robot {
        id: 0,
        direction: Position { x: 1, y: 1 },
        position: Position { x: (window.width / 3) as i64, y: (window.height / 2) as i64 },
        energie: 100,
        minerais: 0,
        points_interet_scientifiques: Vec::new(),
        modules: Vec::new(),
        target_obstacle: None,
    }
}

/// `fraction / 2^32` of `extent`, rounded down.
pub open spec fn scaled(fraction: u32, extent: u32) -> int {
    (fraction * extent) / 0x1_0000_0000
}

/// The obstacle with identity `id` placed at the fractions `fx / 2^32` of the
/// window's width and `fy / 2^32` of its height.
pub fn place_obstacle(id: ObstacleId, window: WindowSize, fx: u32, fy: u32) -> (r: Obstacle)
    ensures
        r.id == id,
        r.position.x == scaled(fx, window.width),
        r.position.y == scaled(fy, window.height),
        r.direction == (Position { x: 0, y: 0 }),
        r.taille == (Extent { width: 0, height: 0 }),
        0 <= r.position.x <= window.width,
        window.width > 0 ==> r.position.x < window.width,
        0 <= r.position.y <= window.height,
        window.height > 0 ==> r.position.y < window.height,
        in_range(r.position),
{
    proof {
        lemma_scaled_within(fx, window.width);
        lemma_scaled_within(fy, window.height);
    }
    let x: u64 = (fx as u64 * window.width as u64) / 0x1_0000_0000;
    let y: u64 = (fy as u64 * window.height as u64) / 0x1_0000_0000;
    Obstacle {
        id,
        position: Position { x: x as i64, y: y as i64 },
        direction: Position { x: 0, y: 0 },
        taille: Extent { width: 0, height: 0 },
    }
}

proof fn lemma_scaled_within(fraction: u32, extent: u32)
    ensures
        0 <= scaled(fraction, extent) <= extent,
        extent > 0 ==> scaled(fraction, extent) < extent,
        fraction * extent < 0x1_0000_0000_0000_0000,
{
    let f = fraction as int;
    let e = extent as int;
    assert(0 <= f * e <= 0xffff_ffff * e) by (nonlinear_arith)
        requires
            0 <= f <= 0xffff_ffff,
            0 <= e,
    ;
    assert(0xffff_ffff * e < 0x1_0000_0000 * e || e == 0) by (nonlinear_arith)
        requires
            0 <= e,
    ;
    vstd::arithmetic::div_mod::lemma_div_is_ordered(f * e, 0x1_0000_0000 * e, 0x1_0000_0000);
    vstd::arithmetic::div_mod::lemma_div_multiples_vanish(e, 0x1_0000_0000);
    vstd::arithmetic::div_mod::lemma_div_pos_is_pos(f * e, 0x1_0000_0000);
    if e > 0 {
        assert(f * e < 0x1_0000_0000 * e);
        vstd::arithmetic::div_mod::lemma_div_is_ordered(f * e, 0x1_0000_0000 * e - 1, 0x1_0000_0000);
        assert((0x1_0000_0000 * e - 1) / 0x1_0000_0000 < e) by {
            vstd::arithmetic::div_mod::lemma_fundamental_div_mod(0x1_0000_0000 * e - 1, 0x1_0000_0000);
            assert(((0x1_0000_0000 * e - 1) / 0x1_0000_0000) * 0x1_0000_0000 <= 0x1_0000_0000 * e - 1);
            assert((0x1_0000_0000 * e - 1) / 0x1_0000_0000 < e) by (nonlinear_arith)
                requires
                    ((0x1_0000_0000 * e - 1) / 0x1_0000_0000) * 0x1_0000_0000 <= 0x1_0000_0000 * e - 1,
            ;
        }
    }
    assert(0xffff_ffff * e <= 0xffff_ffff * 0xffff_ffff) by (nonlinear_arith)
        requires
            0 <= e <= 0xffff_ffff,
    ;
}

/// Relies on `rand::random::<u32>` over the thread-local generator: any `u32`.
#[verifier::external_body]
fn random_fraction() -> (r: u32) {
    rand::random::<u32>()
}

/// The obstacles of the field at start-up: `NUMBER_OF_OBSTACLES` of them, with
/// identities `0, 1, ...`, each at a uniformly drawn point of the window.
pub fn spawn_obstacle(window: WindowSize) -> (r: Vec<Obstacle>)
    ensures
        r@.len() == NUMBER_OF_OBSTACLES,
        forall|k: int|
            0 <= k < r@.len() ==> (#[trigger] r@[k]).id == k && 0 <= r@[k].position.x <= window.width
                && 0 <= r@[k].position.y <= window.height && in_range(r@[k].position)
                && (window.width > 0 ==> r@[k].position.x < window.width)
                && (window.height > 0 ==> r@[k].position.y < window.height)
                && exists|fx: u32, fy: u32|
                r@[k].position.x == scaled(fx, window.width) && r@[k].position.y == scaled(fy, window.height),
{
    let mut r: Vec<Obstacle> = Vec::new();
    let mut k: usize = 0;
    while k < NUMBER_OF_OBSTACLES
        invariant
            k <= NUMBER_OF_OBSTACLES,
            r@.len() == k,
            forall|j: int|
                0 <= j < k ==> (#[trigger] r@[j]).id == j && 0 <= r@[j].position.x <= window.width
                    && 0 <= r@[j].position.y <= window.height && in_range(r@[j].position)
                    && (window.width > 0 ==> r@[j].position.x < window.width)
                    && (window.height > 0 ==> r@[j].position.y < window.height)
                    && exists|fx: u32, fy: u32|
                    r@[j].position.x == scaled(fx, window.width) && r@[j].position.y == scaled(fy, window.height),
        decreases NUMBER_OF_OBSTACLES - k,
    {
        let fx = random_fraction();
        let fy = random_fraction();
        let o = place_obstacle(k as u64, window, fx, fy);
        r.push(o);
        k += 1;
    }
    r
}

} // verus!

