//! One simulation tick: resolution of targets, then steering.

use crate::steering::{all_in_range, moved, robot_movement};
use crate::targeting::{resolution, robot_targeting};
use crate::world::{same_but_position, Obstacle, Robot};
use vstd::prelude::*;

verus! {

/// One tick of `elapsed_ms` milliseconds: every robot's target is resolved
/// first, and only then does every robot move toward the target fixed for the
/// tick.
pub fn simulation_tick(robots: &mut Vec<Robot>, obstacles: &Vec<Obstacle>, elapsed_ms: u32)
    requires
        all_in_range(old(robots)@, obstacles@),
    ensures
        final(robots)@.len() == old(robots)@.len(),
        exists|resolved: Seq<Robot>|
            {
                &&& resolution(old(robots)@, resolved, obstacles@)
                &&& forall|i: int|
                    0 <= i < resolved.len() ==> same_but_position(resolved[i], #[trigger] final(robots)@[i])
                        && final(robots)@[i].position == moved(resolved[i], obstacles@, elapsed_ms)
            },
{
    robot_targeting(robots, obstacles);
    let ghost resolved = robots@;
    assert(forall|i: int| 0 <= i < resolved.len() ==> resolved[i].position == old(robots)@[i].position);
    robot_movement(robots, obstacles, elapsed_ms);
    assert(resolution(old(robots)@, resolved, obstacles@));
}

} // verus!
