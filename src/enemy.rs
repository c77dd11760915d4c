//! Enemies: their starting parts and their chase of the player.
use vstd::prelude::*;
use crate::collision::{Collider, CollisionDamage};
use crate::geometry::{UNITS_PER_PIXEL, Vec2, Vec3};
use crate::health::Health;
use crate::movement::{Velocity, velocity_along};
use crate::world::{EntityRecord, Role, find_single, records_wf, single_of};

verus! {

pub const ENEMY_SPEED: i64 = 30 * UNITS_PER_PIXEL;
pub const ENEMY_SIZE: i64 = 15 * UNITS_PER_PIXEL;
pub const ENEMY_HEALTH: u32 = 10;
pub const ENEMY_DAMAGE: u32 = 5;

/// Time between two enemy spawns, in microseconds.
pub const SPAWN_INTERVAL_US: u64 = 1_000_000;

/// The vector from `from` to `to` in the plane.
pub open spec fn toward(from: Vec3, to: Vec3) -> Vec3 {
    Vec3 { x: (to.x - from.x) as i64, y: (to.y - from.y) as i64, z: 0 }
}

/// A fresh enemy at `spawn_point`, heading for the world's origin.
pub fn enemy_bundle(spawn_point: Vec3) -> (r: EntityRecord)
    requires
        spawn_point.in_world(),
    ensures
        r.wf(),
        r.role == Role::Enemy,
        r.transform == spawn_point,
        r.health == Some(Health { amount: ENEMY_HEALTH, cooldown: None }),
        r.damage == Some(CollisionDamage { amount: ENEMY_DAMAGE }),
        r.velocity == Some(Velocity { value: velocity_along(toward(spawn_point, Vec3 { x: 0, y: 0, z: 0 }), ENEMY_SPEED) }),
        r.collider matches Some(c) && c.size == (Vec2 { x: ENEMY_SIZE, y: ENEMY_SIZE }) && c.offset == Vec2::zero_spec()
            && c.collisions@.len() == 0,
        r.damage_cooldown is None,
        r.knockback is None,
        r.weapon is None,
{
    let mut r = EntityRecord::new(0, Role::Enemy, spawn_point);
    r.health = Some(Health::new(ENEMY_HEALTH));
    r.damage = Some(CollisionDamage::new(ENEMY_DAMAGE));
    let direction = Vec3 { x: 0 - spawn_point.x, y: 0 - spawn_point.y, z: 0 };
    r.velocity = Some(Velocity::from_direction_speed(direction, ENEMY_SPEED));
    r.collider = Some(Collider::new(Vec2 { x: ENEMY_SIZE, y: ENEMY_SIZE }));
    r
}

/// An enemy record turned toward `target`.
pub open spec fn chasing(e: EntityRecord, target: Vec3) -> EntityRecord {
    if e.role == Role::Enemy && e.velocity is Some {
        EntityRecord { velocity: Some(Velocity { value: velocity_along(toward(e.transform, target), ENEMY_SPEED) }), ..e }
    } else {
        e
    }
}

/// Turns every enemy toward the one player, at enemy speed.
pub fn chase_player(ents: &mut Vec<EntityRecord>)
    requires
        records_wf(old(ents)@),
    ensures
        records_wf(final(ents)@),
        final(ents)@.len() == old(ents)@.len(),
        ({
            let p = single_of(old(ents)@, Role::Player);
            forall|i: int|
                0 <= i < old(ents)@.len() ==> #[trigger] final(ents)@[i] == if p >= 0 {
                    chasing(old(ents)@[i], old(ents)@[p].transform)
                } else {
                    old(ents)@[i]
                }
        }),
{
    let ghost start = ents@;
    let p = match find_single(ents, Role::Player) {
        Some(p) => p,
        None => return,
    };
    let target = ents[p].transform;
    assert(start[p as int].wf());
    let n = ents.len();
    let mut i: usize = 0;
    while i < n
        invariant
            n == ents@.len(),
            start.len() == n,
            records_wf(start),
            i <= n,
            target.in_world(),
            forall|k: int| 0 <= k < i ==> #[trigger] ents@[k] == chasing(start[k], target),
            forall|k: int| i <= k < n ==> #[trigger] ents@[k] == start[k],
        decreases n - i,
    {
        assert(ents@[i as int] == start[i as int]);
        assert(start[i as int].wf());
        if ents[i].role == Role::Enemy && ents[i].velocity.is_some() {
            let t = ents[i].transform;
            let direction = Vec3 { x: target.x - t.x, y: target.y - t.y, z: 0 };
            ents[i].velocity = Some(Velocity::from_direction_speed(direction, ENEMY_SPEED));
        }
        i += 1;
    }
    proof {
        assert forall|k: int| 0 <= k < n implies (#[trigger] ents@[k]).wf() by {
            assert(start[k].wf());
            let d = toward(start[k].transform, target);
            crate::geometry::lemma_scaled_to_bounded(d.x as int, d.y as int, ENEMY_SPEED as int);
        }
        assert forall|a: int, b: int| 0 <= a < n && 0 <= b < n && a != b implies #[trigger] ents@[a].id != #[trigger] ents@[b].id by {
            assert(start[a].id != start[b].id);
        }
    }
}

} // verus!
