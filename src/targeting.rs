//! The assignment resolver: each tick, every robot keeps, loses or gains a
//! target so that no obstacle is claimed twice.

use crate::world::{registry_has, same_but_target, Obstacle, ObstacleId, Robot};
use vstd::prelude::*;
use vstd::seq_lib::seq_to_set_is_finite;
use vstd::set_lib::lemma_len_subset;

verus! {

/// One of the robots before index `i` holds `id` as its target.
pub open spec fn held_before(rs: Seq<Robot>, i: int, id: ObstacleId) -> bool {
    exists|j: int| 0 <= j < i && rs[j].target_obstacle == Some(id)
}

/// The previous target `old_t` of robot `i` may be kept: it is still in the
/// registry and no robot processed earlier holds it.
pub open spec fn keeps(old_t: Option<ObstacleId>, rs: Seq<Robot>, i: int, obs: Seq<Obstacle>) -> bool {
    match old_t {
        Some(t) => registry_has(obs, t) && !held_before(rs, i, t),
        None => false,
    }
}

/// Robot `i` of `rs` was resolved from its previous target `old_t`: it keeps a
/// target that is still free, and otherwise it holds some obstacle that no
/// earlier robot holds, or none when every obstacle is held by an earlier robot.
pub open spec fn resolved_at(old_t: Option<ObstacleId>, rs: Seq<Robot>, i: int, obs: Seq<Obstacle>) -> bool {
    if keeps(old_t, rs, i, obs) {
        rs[i].target_obstacle == old_t
    } else {
        match rs[i].target_obstacle {
            Some(u) => registry_has(obs, u) && !held_before(rs, i, u),
            None => forall|k: int| 0 <= k < obs.len() ==> held_before(rs, i, obs[k].id),
        }
    }
}

/// `after` is one resolution pass over `before` against the registry `obs`.
pub open spec fn resolution(before: Seq<Robot>, after: Seq<Robot>, obs: Seq<Obstacle>) -> bool {
    &&& after.len() == before.len()
    &&& forall|i: int|
        0 <= i < before.len() ==> same_but_target(before[i], after[i])
            && resolved_at(before[i].target_obstacle, after, i, obs)
}

proof fn lemma_held_before_prefix(a: Seq<Robot>, b: Seq<Robot>, i: int)
    requires
        0 <= i <= a.len(),
        i <= b.len(),
        forall|k: int| 0 <= k < i ==> a[k] == b[k],
    ensures
        forall|id: ObstacleId| held_before(a, i, id) == held_before(b, i, id),
{
    assert forall|id: ObstacleId| held_before(a, i, id) implies held_before(b, i, id) by {
        let j = choose|j: int| 0 <= j < i && a[j].target_obstacle == Some(id);
        assert(b[j] == a[j]);
    }
    assert forall|id: ObstacleId| held_before(b, i, id) implies held_before(a, i, id) by {
        let j = choose|j: int| 0 <= j < i && b[j].target_obstacle == Some(id);
        assert(b[j] == a[j]);
    }
}

fn holds_id(v: &Vec<ObstacleId>, id: ObstacleId) -> (r: bool)
    ensures
        r == v@.contains(id),
{
    let mut i: usize = 0;
    while i < v.len()
        invariant
            i <= v.len(),
            forall|k: int| 0 <= k < i ==> v@[k] != id,
        decreases v.len() - i,
    {
        if v[i] == id {
            return true;
        }
        i += 1;
    }
    false
}

fn in_registry(obstacles: &Vec<Obstacle>, id: ObstacleId) -> (r: bool)
    ensures
        r == registry_has(obstacles@, id),
{
    let mut i: usize = 0;
    while i < obstacles.len()
        invariant
            i <= obstacles.len(),
            forall|k: int| 0 <= k < i ==> obstacles@[k].id != id,
        decreases obstacles.len() - i,
    {
        if obstacles[i].id == id {
            return true;
        }
        i += 1;
    }
    false
}

/// The identities of the registry that are not in `claimed`.
fn unclaimed_obstacles(obstacles: &Vec<Obstacle>, claimed: &Vec<ObstacleId>) -> (r: Vec<ObstacleId>)
    ensures
        forall|id: ObstacleId| r@.contains(id) <==> (registry_has(obstacles@, id) && !claimed@.contains(id)),
{
    let mut r: Vec<ObstacleId> = Vec::new();
    let mut i: usize = 0;
    while i < obstacles.len()
        invariant
            i <= obstacles.len(),
            forall|id: ObstacleId|
                r@.contains(id) <==> (exists|k: int| 0 <= k < i && obstacles@[k].id == id)
                    && !claimed@.contains(id),
        decreases obstacles.len() - i,
    {
        let id = obstacles[i].id;
        let ghost old_r = r@;
        if !holds_id(claimed, id) {
            r.push(id);
        }
        proof {
            assert forall|x: ObstacleId|
                r@.contains(x) <==> (exists|k: int| 0 <= k < i + 1 && obstacles@[k].id == x)
                    && !claimed@.contains(x) by {
                if r@.contains(x) {
                    let m = choose|m: int| 0 <= m < r@.len() && r@[m] == x;
                    if m < old_r.len() {
                        assert(old_r[m] == x);
                        assert(old_r.contains(x));
                    } else {
                        assert(obstacles@[i as int].id == x);
                    }
                }
                if (exists|k: int| 0 <= k < i + 1 && obstacles@[k].id == x) && !claimed@.contains(x) {
                    let k = choose|k: int| 0 <= k < i + 1 && obstacles@[k].id == x;
                    if k < i {
                        assert(old_r.contains(x));
                        let m = choose|m: int| 0 <= m < old_r.len() && old_r[m] == x;
                        assert(r@[m] == x);
                    } else {
                        assert(r@[r@.len() - 1] == x);
                    }
                }
            }
        }
        i += 1;
    }
    r
}

/// Relies on rand's `SliceRandom::choose` over the thread-local generator:
/// `None` for an empty slice, otherwise one of the slice's elements.
#[verifier::external_body]
fn choose_obstacle(ids: &Vec<ObstacleId>) -> (r: Option<ObstacleId>)
    ensures
        ids@.len() == 0 <==> r is None,
        r matches Some(id) ==> ids@.contains(id),
{
    rand::seq::SliceRandom::choose(ids.as_slice(), &mut rand::thread_rng()).copied()
}

/// One resolution pass. Robots are taken in order; each keeps its target when
/// the target is still in the registry and no earlier robot holds it, and a
/// robot left without a target draws one uniformly among the obstacles that no
/// earlier robot holds, if there is any.
pub fn robot_targeting(robots: &mut Vec<Robot>, obstacles: &Vec<Obstacle>)
    ensures
        resolution(old(robots)@, final(robots)@, obstacles@),
{
    let n: usize = robots.len();
    let mut claimed: Vec<ObstacleId> = Vec::new();
    let mut i: usize = 0;
    while i < n
        invariant
            n == robots@.len() == old(robots)@.len(),
            i <= n,
            forall|j: int| i <= j < n ==> robots@[j] == old(robots)@[j],
            forall|j: int|
                0 <= j < i ==> same_but_target(old(robots)@[j], robots@[j])
                    && resolved_at(old(robots)@[j].target_obstacle, robots@, j, obstacles@),
            forall|id: ObstacleId| claimed@.contains(id) <==> held_before(robots@, i as int, id),
        decreases n - i,
    {
        let previous: Option<ObstacleId> = robots[i].target_obstacle;
        let kept: Option<ObstacleId> = match previous {
            Some(id) => {
                if holds_id(&claimed, id) || !in_registry(obstacles, id) {
                    None
                } else {
                    Some(id)
                }
            },
            None => None,
        };
        let ghost old_claimed = claimed@;
        let chosen: Option<ObstacleId> = match kept {
            Some(id) => Some(id),
            None => {
                let available = unclaimed_obstacles(obstacles, &claimed);
                let c = choose_obstacle(&available);
                proof {
                    if c is None {
                        assert forall|k: int| 0 <= k < obstacles@.len() implies old_claimed.contains(
                            obstacles@[k].id,
                        ) by {
                            assert(registry_has(obstacles@, obstacles@[k].id));
                            if !old_claimed.contains(obstacles@[k].id) {
                                assert(available@.contains(obstacles@[k].id));
                            }
                        }
                    }
                }
                c
            },
        };
        if let Some(id) = chosen {
            claimed.push(id);
        }
        let ghost before = robots@;
        robots[i].target_obstacle = chosen;
        proof {
            let after = robots@;
            assert forall|j: int, id: ObstacleId| 0 <= j <= i implies #[trigger] held_before(after, j, id)
                == held_before(before, j, id) by {
                lemma_held_before_prefix(before, after, j);
            }
            assert forall|id: ObstacleId| claimed@.contains(id) <==> held_before(after, i + 1, id) by {
                if held_before(after, i + 1, id) {
                    let j = choose|j: int| 0 <= j < i + 1 && after[j].target_obstacle == Some(id);
                    if j < i {
                        assert(held_before(after, i as int, id));
                    }
                }
                if chosen == Some(id) {
                    assert(after[i as int].target_obstacle == Some(id));
                }
                if old_claimed.contains(id) {
                    assert(held_before(after, i as int, id));
                    let j = choose|j: int| 0 <= j < i && after[j].target_obstacle == Some(id);
                    assert(0 <= j < i + 1 && after[j].target_obstacle == Some(id));
                    let m = choose|m: int| 0 <= m < old_claimed.len() && old_claimed[m] == id;
                    assert(claimed@[m] == id);
                }
                if claimed@.contains(id) {
                    let m = choose|m: int| 0 <= m < claimed@.len() && claimed@[m] == id;
                    if m < old_claimed.len() {
                        assert(old_claimed[m] == id);
                        assert(old_claimed.contains(id));
                    } else {
                        assert(chosen == Some(id));
                    }
                }
                if chosen == Some(id) {
                    assert(claimed@[claimed@.len() - 1] == id);
                }
            }
            assert(resolved_at(old(robots)@[i as int].target_obstacle, after, i as int, obstacles@));
        }
        i += 1;
    }
}

/// The targets held by the robots of `rs`, in robot order.
pub open spec fn targets_of(rs: Seq<Robot>) -> Seq<ObstacleId>
    decreases rs.len(),
{
    if rs.len() == 0 {
        Seq::empty()
    } else {
        let rest = targets_of(rs.drop_last());
        match rs.last().target_obstacle {
            Some(id) => rest.push(id),
            None => rest,
        }
    }
}

/// After a resolution pass no two robots hold the same obstacle.
pub proof fn lemma_no_duplicate_claims(before: Seq<Robot>, after: Seq<Robot>, obs: Seq<Obstacle>)
    requires
        resolution(before, after, obs),
    ensures
        forall|i: int, j: int|
            0 <= i < after.len() && 0 <= j < after.len() && i != j
                && after[i].target_obstacle is Some ==> #[trigger] after[i].target_obstacle
                != #[trigger] after[j].target_obstacle,
{
    assert forall|i: int, j: int|
        0 <= i < after.len() && 0 <= j < after.len() && i != j
            && after[i].target_obstacle is Some implies #[trigger] after[i].target_obstacle
            != #[trigger] after[j].target_obstacle by {
        let id = after[i].target_obstacle->0;
        let (lo, hi) = if i < j { (i, j) } else { (j, i) };
        if after[j].target_obstacle == Some(id) {
            assert(after[lo].target_obstacle == Some(id));
            assert(held_before(after, hi, id));
            assert(resolved_at(before[hi].target_obstacle, after, hi, obs));
        }
    }
}

/// After a resolution pass every target a robot holds is in the registry.
pub proof fn lemma_targets_in_registry(before: Seq<Robot>, after: Seq<Robot>, obs: Seq<Obstacle>)
    requires
        resolution(before, after, obs),
    ensures
        forall|i: int|
            0 <= i < after.len() && after[i].target_obstacle is Some ==> registry_has(
                obs,
                #[trigger] after[i].target_obstacle->0,
            ),
{
    assert forall|i: int| 0 <= i < after.len() && after[i].target_obstacle is Some implies registry_has(
        obs,
        #[trigger] after[i].target_obstacle->0,
    ) by {
        assert(resolved_at(before[i].target_obstacle, after, i, obs));
    }
}

/// Some robot of `rs` other than robot `i` holds `id`.
pub open spec fn held_by_other(rs: Seq<Robot>, i: int, id: ObstacleId) -> bool {
    exists|j: int| 0 <= j < rs.len() && j != i && rs[j].target_obstacle == Some(id)
}

/// A robot left without a target by a resolution pass finds every obstacle
/// of the registry held by another robot.
pub proof fn lemma_targetless_means_exhausted(before: Seq<Robot>, after: Seq<Robot>, obs: Seq<Obstacle>)
    requires
        resolution(before, after, obs),
    ensures
        forall|i: int, k: int|
            0 <= i < after.len() && #[trigger] after[i].target_obstacle is None && 0 <= k < obs.len()
                ==> held_by_other(after, i, #[trigger] obs[k].id),
{
    assert forall|i: int, k: int|
        0 <= i < after.len() && #[trigger] after[i].target_obstacle is None && 0 <= k < obs.len()
            implies held_by_other(after, i, #[trigger] obs[k].id) by {
        assert(resolved_at(before[i].target_obstacle, after, i, obs));
        assert(held_before(after, i, obs[k].id));
    }
}

proof fn lemma_targets_of_contains(rs: Seq<Robot>, x: ObstacleId)
    ensures
        targets_of(rs).contains(x) <==> exists|i: int| 0 <= i < rs.len() && rs[i].target_obstacle == Some(x),
    decreases rs.len(),
{
    if rs.len() > 0 {
        let rest = rs.drop_last();
        lemma_targets_of_contains(rest, x);
        if exists|i: int| 0 <= i < rs.len() && rs[i].target_obstacle == Some(x) {
            let i = choose|i: int| 0 <= i < rs.len() && rs[i].target_obstacle == Some(x);
            if i < rs.len() - 1 {
                assert(rest[i] == rs[i]);
                let m = choose|m: int| 0 <= m < targets_of(rest).len() && targets_of(rest)[m] == x;
                assert(targets_of(rs)[m] == x);
            } else {
                assert(targets_of(rs).last() == x);
            }
        }
        if targets_of(rs).contains(x) {
            let m = choose|m: int| 0 <= m < targets_of(rs).len() && targets_of(rs)[m] == x;
            if m < targets_of(rest).len() {
                assert(targets_of(rest)[m] == x);
                assert(targets_of(rest).contains(x));
                let i = choose|i: int| 0 <= i < rest.len() && rest[i].target_obstacle == Some(x);
                assert(rs[i] == rest[i]);
            } else {
                assert(rs[rs.len() - 1].target_obstacle == Some(x));
            }
        }
    }
}

proof fn lemma_targets_of_unique(rs: Seq<Robot>)
    requires
        forall|i: int, j: int|
            0 <= i < rs.len() && 0 <= j < rs.len() && i != j && rs[i].target_obstacle is Some
                ==> #[trigger] rs[i].target_obstacle != #[trigger] rs[j].target_obstacle,
    ensures
        targets_of(rs).no_duplicates(),
    decreases rs.len(),
{
    if rs.len() > 0 {
        let rest = rs.drop_last();
        assert forall|i: int, j: int|
            0 <= i < rest.len() && 0 <= j < rest.len() && i != j && rest[i].target_obstacle is Some
                implies #[trigger] rest[i].target_obstacle != #[trigger] rest[j].target_obstacle by {
            assert(rest[i] == rs[i] && rest[j] == rs[j]);
        }
        lemma_targets_of_unique(rest);
        if let Some(x) = rs.last().target_obstacle {
            lemma_targets_of_contains(rest, x);
            if targets_of(rest).contains(x) {
                let i = choose|i: int| 0 <= i < rest.len() && rest[i].target_obstacle == Some(x);
                assert(rs[i].target_obstacle == rs[rs.len() - 1].target_obstacle);
            }
            let t = targets_of(rs);
            assert forall|a: int, b: int| 0 <= a < t.len() && 0 <= b < t.len() && a != b implies t[a]
                != t[b] by {
                if a == t.len() - 1 && b < t.len() - 1 {
                    assert(targets_of(rest)[b] == t[b]);
                } else if b == t.len() - 1 && a < t.len() - 1 {
                    assert(targets_of(rest)[a] == t[a]);
                } else {
                    assert(targets_of(rest)[a] == t[a] && targets_of(rest)[b] == t[b]);
                }
            }
        }
    }
}

/// A resolution pass terminates with at most as many robots holding a target
/// as there are obstacles: with more robots than obstacles, the rest are
/// left without one.
pub proof fn lemma_claims_bounded_by_obstacles(before: Seq<Robot>, after: Seq<Robot>, obs: Seq<Obstacle>)
    requires
        resolution(before, after, obs),
    ensures
        targets_of(after).len() <= obs.len(),
{
    lemma_no_duplicate_claims(before, after, obs);
    lemma_targets_in_registry(before, after, obs);
    lemma_targets_of_unique(after);
    let t = targets_of(after);
    let ids = obs.map_values(|o: Obstacle| o.id);
    assert forall|x: ObstacleId| t.to_set().contains(x) implies ids.to_set().contains(x) by {
        lemma_targets_of_contains(after, x);
        let i = choose|i: int| 0 <= i < after.len() && after[i].target_obstacle == Some(x);
        assert(registry_has(obs, after[i].target_obstacle->0));
        let k = choose|k: int| 0 <= k < obs.len() && obs[k].id == x;
        assert(ids[k] == x);
    }
    t.unique_seq_to_set();
    seq_to_set_is_finite(ids);
    lemma_len_subset(t.to_set(), ids.to_set());
    ids.lemma_cardinality_of_set();
}

} // verus!

