//! The steering engine: every robot with a target moves one straight-line
//! step toward it.

use crate::geometry::{
    dist_sq, distance_sq, in_range, lemma_step_approaches, lemma_zero_time_no_move, step_toward, travel_of, stepped, Position,
};
use crate::world::{same_but_position, Obstacle, ObstacleId, Robot};
use vstd::prelude::*;

verus! {

/// Speed of every robot, in world units per second.
pub const ROBOT_SPEED: u32 = 100_000;

/// Position of the first obstacle of `obs` with identity `id`, if any.
pub open spec fn position_of(obs: Seq<Obstacle>, id: ObstacleId) -> Option<Position>
    decreases obs.len(),
{
    if obs.len() == 0 {
        None
    } else if obs[0].id == id {
        Some(obs[0].position)
    } else {
        position_of(obs.drop_first(), id)
    }
}

/// Where robot `r` stands after one tick of `elapsed_ms` milliseconds: one step
/// toward its target, or where it was when it has no target or its target is
/// not in the registry.
pub open spec fn moved(r: Robot, obs: Seq<Obstacle>, elapsed_ms: u32) -> Position {
    match r.target_obstacle {
        Some(id) => match position_of(obs, id) {
            Some(p) => stepped(r.position, p, ROBOT_SPEED, elapsed_ms),
            None => r.position,
        },
        None => r.position,
    }
}

/// Every robot and every obstacle stands within the steering range.
pub open spec fn all_in_range(robots: Seq<Robot>, obs: Seq<Obstacle>) -> bool {
    &&& forall|i: int| 0 <= i < robots.len() ==> in_range(#[trigger] robots[i].position)
    &&& forall|k: int| 0 <= k < obs.len() ==> in_range(#[trigger] obs[k].position)
}

proof fn lemma_position_of_in_range(obs: Seq<Obstacle>, id: ObstacleId)
    requires
        forall|k: int| 0 <= k < obs.len() ==> in_range(#[trigger] obs[k].position),
    ensures
        position_of(obs, id) matches Some(p) ==> in_range(p),
    decreases obs.len(),
{
    if obs.len() > 0 && obs[0].id != id {
        let rest = obs.drop_first();
        assert forall|k: int| 0 <= k < rest.len() implies in_range(#[trigger] rest[k].position) by {
            assert(rest[k] == obs[k + 1]);
        }
        lemma_position_of_in_range(rest, id);
    }
}

/// Looks up the position of the obstacle with identity `id`.
pub fn find_obstacle_position(obstacles: &Vec<Obstacle>, id: ObstacleId) -> (r: Option<Position>)
    ensures
        r == position_of(obstacles@, id),
{
    let mut i: usize = 0;
    assert(obstacles@.skip(0) =~= obstacles@);
    while i < obstacles.len()
        invariant
            i <= obstacles.len(),
            position_of(obstacles@, id) == position_of(obstacles@.skip(i as int), id),
        decreases obstacles.len() - i,
    {
        let ghost rest = obstacles@.skip(i as int);
        assert(rest[0] == obstacles@[i as int]);
        if obstacles[i].id == id {
            return Some(obstacles[i].position);
        }
        assert(rest.drop_first() =~= obstacles@.skip(i + 1));
        i += 1;
    }
    assert(obstacles@.skip(i as int).len() == 0);
    None
}

/// One steering pass: each robot with a target in the registry moves toward
/// it by `ROBOT_SPEED` for `elapsed_ms` milliseconds; nothing else changes.
pub fn robot_movement(robots: &mut Vec<Robot>, obstacles: &Vec<Obstacle>, elapsed_ms: u32)
    requires
        all_in_range(old(robots)@, obstacles@),
    ensures
        final(robots)@.len() == old(robots)@.len(),
        forall|i: int|
            0 <= i < old(robots)@.len() ==> same_but_position(old(robots)@[i], #[trigger] final(robots)@[i])
                && final(robots)@[i].position == moved(old(robots)@[i], obstacles@, elapsed_ms),
        elapsed_ms == 0 ==> forall|i: int|
            0 <= i < old(robots)@.len() ==> #[trigger] final(robots)@[i].position == old(robots)@[i].position,
{
    let n: usize = robots.len();
    let mut i: usize = 0;
    while i < n
        invariant
            n == robots@.len() == old(robots)@.len(),
            i <= n,
            all_in_range(old(robots)@, obstacles@),
            forall|j: int| i <= j < n ==> robots@[j] == old(robots)@[j],
            forall|j: int|
                0 <= j < i ==> same_but_position(old(robots)@[j], #[trigger] robots@[j])
                    && robots@[j].position == moved(old(robots)@[j], obstacles@, elapsed_ms),
        decreases n - i,
    {
        assert(in_range(old(robots)@[i as int].position));
        if let Some(id) = robots[i].target_obstacle {
            if let Some(target) = find_obstacle_position(obstacles, id) {
                proof {
                    lemma_position_of_in_range(obstacles@, id);
                }
                let next = step_toward(robots[i].position, target, ROBOT_SPEED, elapsed_ms);
                robots[i].position = next;
            }
        }
        i += 1;
    }
    proof {
        if elapsed_ms == 0 {
            assert forall|i: int| 0 <= i < n implies #[trigger] robots@[i].position
                == old(robots)@[i].position by {
                let r = old(robots)@[i];
                if let Some(id) = r.target_obstacle {
                    if let Some(p) = position_of(obstacles@, id) {
                        lemma_zero_time_no_move(r.position, p, ROBOT_SPEED);
                    }
                }
            }
        }
    }
}

/// With no elapsed time a steering pass moves no robot.
pub proof fn lemma_zero_time_keeps_positions(robots: Seq<Robot>, obs: Seq<Obstacle>)
    ensures
        forall|i: int| 0 <= i < robots.len() ==> moved(#[trigger] robots[i], obs, 0) == robots[i].position,
{
    assert forall|i: int| 0 <= i < robots.len() implies moved(#[trigger] robots[i], obs, 0)
        == robots[i].position by {
        let r = robots[i];
        if let Some(id) = r.target_obstacle {
            if let Some(p) = position_of(obs, id) {
                lemma_zero_time_no_move(r.position, p, ROBOT_SPEED);
            }
        }
    }
}

/// A robot whose target is in the registry, that is not yet on it, and that
/// travels at least two units but less than twice its distance in the tick,
/// ends the steering pass strictly closer to its target.
pub proof fn lemma_movement_approaches(r: Robot, obs: Seq<Obstacle>, elapsed_ms: u32, target: Position)
    requires
        all_in_range(seq![r], obs),
        r.target_obstacle is Some,
        position_of(obs, r.target_obstacle->0) == Some(target),
        dist_sq(r.position, target) > 0,
        2000 <= travel_of(ROBOT_SPEED, elapsed_ms),
        travel_of(ROBOT_SPEED, elapsed_ms) * travel_of(ROBOT_SPEED, elapsed_ms) < 4_000_000 * dist_sq(
            r.position,
            target,
        ),
    ensures
        dist_sq(moved(r, obs, elapsed_ms), target) < dist_sq(r.position, target),
{
    assert(seq![r][0] == r);
    lemma_position_of_in_range(obs, r.target_obstacle->0);
    lemma_step_approaches(r.position, target, ROBOT_SPEED, elapsed_ms);
}

/// Obstacle `k` is the first of `obs`, in registry order, among those nearest
/// to `p`.
pub open spec fn is_nearest(p: Position, obs: Seq<Obstacle>, k: int) -> bool {
    &&& 0 <= k < obs.len()
    &&& forall|j: int| 0 <= j < obs.len() ==> dist_sq(p, obs[k].position) <= dist_sq(p, #[trigger] obs[j].position)
    &&& forall|j: int| 0 <= j < k ==> dist_sq(p, obs[k].position) < dist_sq(p, #[trigger] obs[j].position)
}

/// Position of the obstacle nearest to `robot_position`; among equally near
/// ones, the first in registry order.
pub fn get_nearest_obstacle(robot_position: Position, obstacles: &Vec<Obstacle>) -> (r: Position)
    requires
        obstacles@.len() > 0,
        in_range(robot_position),
        forall|k: int| 0 <= k < obstacles@.len() ==> in_range(#[trigger] obstacles@[k].position),
    ensures
        exists|k: int| is_nearest(robot_position, obstacles@, k) && r == obstacles@[k].position,
{
    let mut best: usize = 0;
    let mut best_d: u128 = distance_sq(robot_position, obstacles[0].position);
    let mut i: usize = 1;
    while i < obstacles.len()
        invariant
            obstacles@.len() > 0,
            in_range(robot_position),
            forall|k: int| 0 <= k < obstacles@.len() ==> in_range(#[trigger] obstacles@[k].position),
            best < i <= obstacles@.len(),
            best_d == dist_sq(robot_position, obstacles@[best as int].position),
            forall|j: int| 0 <= j < i ==> best_d <= dist_sq(robot_position, #[trigger] obstacles@[j].position),
            forall|j: int| 0 <= j < best ==> best_d < dist_sq(robot_position, #[trigger] obstacles@[j].position),
        decreases obstacles.len() - i,
    {
        let d = distance_sq(robot_position, obstacles[i].position);
        if d < best_d {
            best = i;
            best_d = d;
        }
        i += 1;
    }
    assert(is_nearest(robot_position, obstacles@, best as int));
    obstacles[best].position
}

} // verus!

