//! The player: its starting parts, input-driven movement, and daggers
//! thrown on a repeating timer.
use vstd::prelude::*;
use crate::collision::{Collider, CollisionDamage};
use crate::geometry::{UNITS_PER_PIXEL, Vec2, Vec3, clamp_to_world, clamp_world};
use crate::health::Health;
use crate::movement::{Velocity, velocity_along};
use crate::schedule::World;
use crate::timer::{Timer, TimerMode};
use crate::world::{EntityRecord, Role, find_single, single_of};

verus! {

pub const PLAYER_SPEED: i64 = 50 * UNITS_PER_PIXEL;
pub const PLAYER_SIZE: i64 = 15 * UNITS_PER_PIXEL;
pub const PLAYER_START_HEALTH: u32 = 30;
pub const PLAYER_ATTACK_COOLDOWN_US: u64 = 1_500_000;
pub const PLAYER_DAMAGE_COOLDOWN_US: u64 = 250_000;
pub const DAGGER_SPEED: i64 = 100 * UNITS_PER_PIXEL;
pub const DAGGER_SPAWN_DISTANCE: i64 = 16 * UNITS_PER_PIXEL;
pub const DAGGER_DAMAGE: u32 = 5;
pub const DAGGER_HEALTH: u32 = 1;
pub const DAGGER_WIDTH: i64 = 8 * UNITS_PER_PIXEL;
pub const DAGGER_LENGTH: i64 = 13 * UNITS_PER_PIXEL;

/// Depth at which the player and its daggers are drawn.
pub const SPRITE_DEPTH: i64 = 100 * UNITS_PER_PIXEL;

/// A fresh player at `transform`: standing still, with full health and a
/// short damage cooldown, a square collider, and a loaded weapon timer.
pub fn player_bundle(transform: Vec3) -> (r: EntityRecord)
    requires
        transform.in_world(),
    ensures
        r.wf(),
        r.role == Role::Player,
        r.transform == transform,
        r.velocity == Some(Velocity { value: Vec3 { x: 0, y: 0, z: 0 } }),
        r.weapon == Some(Timer { duration_us: PLAYER_ATTACK_COOLDOWN_US, elapsed_us: 0, mode: TimerMode::Repeating }),
        r.collider matches Some(c) && c.size == (Vec2 { x: PLAYER_SIZE, y: PLAYER_SIZE }) && c.offset == Vec2::zero_spec()
            && c.collisions@.len() == 0,
        r.health == Some(Health { amount: PLAYER_START_HEALTH, cooldown: Some(PLAYER_DAMAGE_COOLDOWN_US) }),
        r.damage is None,
        r.damage_cooldown is None,
        r.knockback is None,
{
    let mut r = EntityRecord::new(0, Role::Player, transform);
    r.velocity = Some(Velocity::new(0, 0));
    r.weapon = Some(Timer::new(PLAYER_ATTACK_COOLDOWN_US, TimerMode::Repeating));
    r.collider = Some(Collider::new(Vec2 { x: PLAYER_SIZE, y: PLAYER_SIZE }));
    r.health = Some(Health::with_damage_cooldown(PLAYER_START_HEALTH, PLAYER_DAMAGE_COOLDOWN_US));
    r
}

/// The direction held on the keyboard: up, left, down and right add their
/// unit vectors.
pub open spec fn input_direction_spec(up: bool, left: bool, down: bool, right: bool) -> Vec3 {
    Vec3 {
        x: ((if right { 1int } else { 0 }) - (if left { 1int } else { 0 })) as i64,
        y: ((if up { 1int } else { 0 }) - (if down { 1int } else { 0 })) as i64,
        z: 0,
    }
}

pub fn input_direction(up: bool, left: bool, down: bool, right: bool) -> (r: Vec3)
    ensures
        r == input_direction_spec(up, left, down, right),
{
    let mut d = Vec3 { x: 0, y: 0, z: 0 };
    if up {
        d.y = d.y + 1;
    }
    if left {
        d.x = d.x - 1;
    }
    if down {
        d.y = d.y - 1;
    }
    if right {
        d.x = d.x + 1;
    }
    d
}

/// Steers the one player at its speed along the held direction (standing
/// still when none is held) and lifts it to the sprite depth.
pub fn player_movement(ents: &mut Vec<EntityRecord>, up: bool, left: bool, down: bool, right: bool)
    requires
        crate::world::records_wf(old(ents)@),
    ensures
        crate::world::records_wf(final(ents)@),
        ({
            let i = single_of(old(ents)@, Role::Player);
            if 0 <= i && old(ents)@[i].velocity is Some {
                final(ents)@ == old(ents)@.update(
                    i,
                    EntityRecord {
                        velocity: Some(Velocity { value: velocity_along(input_direction_spec(up, left, down, right), PLAYER_SPEED) }),
                        transform: Vec3 { z: SPRITE_DEPTH, ..old(ents)@[i].transform },
                        ..old(ents)@[i]
                    },
                )
            } else {
                final(ents)@ == old(ents)@
            }
        }),
{
    let ghost start = ents@;
    if let Some(i) = find_single(ents, Role::Player) {
        if ents[i].velocity.is_some() {
            let dir = input_direction(up, left, down, right);
            let v = Velocity::from_direction_speed(dir, PLAYER_SPEED);
            ents[i].velocity = Some(v);
            ents[i].transform.z = SPRITE_DEPTH;
            proof {
                assert(ents@ =~= start.update(
                    i as int,
                    EntityRecord {
                        velocity: Some(Velocity { value: velocity_along(input_direction_spec(up, left, down, right), PLAYER_SPEED) }),
                        transform: Vec3 { z: SPRITE_DEPTH, ..start[i as int].transform },
                        ..start[i as int]
                    },
                ));
                assert forall|k: int| 0 <= k < ents@.len() implies (#[trigger] ents@[k]).wf() by {
                    assert(start[k].wf());
                }
                assert forall|a: int, b: int|
                    0 <= a < ents@.len() && 0 <= b < ents@.len() && a != b implies #[trigger] ents@[a].id
                        != #[trigger] ents@[b].id by {
                    assert(start[a].id != start[b].id);
                }
            }
        }
    }
}

/// The four throwing directions, in throwing order: up, left, down, right.
pub open spec fn throw_direction(k: int) -> Vec3 {
    if k == 0 {
        Vec3 { x: 0, y: 1, z: 0 }
    } else if k == 1 {
        Vec3 { x: -1i64, y: 0, z: 0 }
    } else if k == 2 {
        Vec3 { x: 0, y: -1i64, z: 0 }
    } else {
        Vec3 { x: 1, y: 0, z: 0 }
    }
}

/// A dagger thrown from `from` along direction `d` (a unit axis vector).
pub open spec fn dagger_spec(from: Vec3, d: Vec3) -> EntityRecord {
    EntityRecord {
        id: 0,
        role: Role::Dagger,
        transform: Vec3 {
            x: clamp_world(from.x + d.x * DAGGER_SPAWN_DISTANCE) as i64,
            y: clamp_world(from.y + d.y * DAGGER_SPAWN_DISTANCE) as i64,
            z: SPRITE_DEPTH,
        },
        collider: None,
        damage: Some(CollisionDamage { amount: DAGGER_DAMAGE }),
        health: Some(Health { amount: DAGGER_HEALTH, cooldown: None }),
        damage_cooldown: None,
        knockback: None,
        velocity: Some(Velocity { value: Vec3 { x: (d.x * DAGGER_SPEED) as i64, y: (d.y * DAGGER_SPEED) as i64, z: 0 } }),
        weapon: None,
        parent: None,
    }
}

/// A dagger thrown from `from` along the axis direction `d`: it flies at
/// dagger speed, deals contact damage and dies on its first hit.
pub fn dagger_bundle(from: Vec3, d: Vec3) -> (r: EntityRecord)
    requires
        from.in_world(),
        -1 <= d.x <= 1,
        -1 <= d.y <= 1,
        d.z == 0,
    ensures
        r.wf(),
        r.collider matches Some(c) && c.size == (Vec2 { x: DAGGER_WIDTH, y: DAGGER_LENGTH }) && c.offset == Vec2::zero_spec()
            && c.collisions@.len() == 0,
        (EntityRecord { collider: None, ..r }) == dagger_spec(from, d),
{
    let step_x: i64 = if d.x > 0 { DAGGER_SPAWN_DISTANCE } else if d.x < 0 { -DAGGER_SPAWN_DISTANCE } else { 0 };
    let step_y: i64 = if d.y > 0 { DAGGER_SPAWN_DISTANCE } else if d.y < 0 { -DAGGER_SPAWN_DISTANCE } else { 0 };
    let speed_x: i64 = if d.x > 0 { DAGGER_SPEED } else if d.x < 0 { -DAGGER_SPEED } else { 0 };
    let speed_y: i64 = if d.y > 0 { DAGGER_SPEED } else if d.y < 0 { -DAGGER_SPEED } else { 0 };
    let t = Vec3 {
        x: clamp_to_world(from.x as i128 + step_x as i128),
        y: clamp_to_world(from.y as i128 + step_y as i128),
        z: SPRITE_DEPTH,
    };
    let mut r = EntityRecord::new(0, Role::Dagger, t);
    r.collider = Some(Collider::new(Vec2 { x: DAGGER_WIDTH, y: DAGGER_LENGTH }));
    r.damage = Some(CollisionDamage::new(DAGGER_DAMAGE));
    r.health = Some(Health::new(DAGGER_HEALTH));
    r.velocity = Some(Velocity::new(speed_x, speed_y));
    r
}

/// Advances the one player's weapon timer by `delta_us`; each time it comes
/// round, four daggers are thrown from the player, up, left, down and right.
/// Returns whether daggers were thrown.
pub fn throw_weapon(world: &mut World, delta_us: u64) -> (thrown: bool)
    requires
        old(world).wf(),
        delta_us <= u32::MAX,
        old(world).next_id + 4 <= u64::MAX,
    ensures
        final(world).wf(),
        ({
            let old_ents = old(world).entities@;
            let n = old_ents.len() as int;
            let i = single_of(old_ents, Role::Player);
            if i < 0 || old_ents[i].weapon is None {
                !thrown && final(world).entities@ == old_ents && final(world).next_id == old(world).next_id
            } else {
                let w = old_ents[i].weapon.unwrap();
                let from = old_ents[i].transform;
                &&& thrown == ((w.elapsed_us + delta_us) / (w.duration_us as int) > 0)
                &&& final(world).entities@.subrange(0, n) == old_ents.update(
                    i,
                    EntityRecord {
                        weapon: Some(Timer { elapsed_us: ((w.elapsed_us + delta_us) % (w.duration_us as int)) as u64, ..w }),
                        ..old_ents[i]
                    },
                )
                &&& !thrown ==> final(world).entities@.len() == n && final(world).next_id == old(world).next_id
                &&& thrown ==> final(world).entities@.len() == n + 4 && final(world).next_id == old(world).next_id + 4
                &&& thrown ==> forall|k: int|
                    0 <= k < 4 ==> {
                        let e = #[trigger] final(world).entities@[n + k];
                        &&& e.id == old(world).next_id + k
                        &&& (EntityRecord { id: 0, collider: None, ..e }) == dagger_spec(from, throw_direction(k))
                        &&& e.collider matches Some(c) && c.size == (Vec2 { x: DAGGER_WIDTH, y: DAGGER_LENGTH })
                            && c.offset == Vec2::zero_spec() && c.collisions@.len() == 0
                    }
            }
        }),
{
    let ghost old_ents = world.entities@;
    let ghost n = old_ents.len() as int;
    let i = match find_single(&world.entities, Role::Player) {
        Some(i) => i,
        None => return false,
    };
    let mut w = match world.entities[i].weapon {
        Some(w) => w,
        None => return false,
    };
    assert(old_ents[i as int].wf());
    let times = w.tick(delta_us);
    world.entities[i].weapon = Some(w);
    let from = world.entities[i].transform;
    proof {
        let s = world.entities@;
        assert(s =~= old_ents.update(i as int, EntityRecord { weapon: Some(w), ..old_ents[i as int] }));
        assert forall|k: int| 0 <= k < s.len() implies (#[trigger] s[k]).wf() && s[k].id < world.next_id by {
            assert(old_ents[k].wf());
            assert(old_ents[k].id < world.next_id);
        }
        assert forall|a: int, b: int| 0 <= a < s.len() && 0 <= b < s.len() && a != b implies #[trigger] s[a].id != #[trigger] s[b].id by {
            assert(old_ents[a].id != old_ents[b].id);
        }
    }
    let ghost updated = world.entities@;
    if times == 0 {
        return false;
    }
    let dirs: [Vec3; 4] = [
        Vec3 { x: 0, y: 1, z: 0 },
        Vec3 { x: -1, y: 0, z: 0 },
        Vec3 { x: 0, y: -1, z: 0 },
        Vec3 { x: 1, y: 0, z: 0 },
    ];
    let ghost first_id = world.next_id;
    let mut k: usize = 0;
    while k < 4
        invariant
            world.wf(),
            k <= 4,
            0 <= n,
            world.next_id == first_id + k,
            first_id + 4 <= u64::MAX,
            world.entities@.len() == n + k,
            world.entities@.subrange(0, n) == updated,
            from.in_world(),
            dirs@ == seq![throw_direction(0), throw_direction(1), throw_direction(2), throw_direction(3)],
            forall|m: int|
                0 <= m < k ==> {
                    let e = #[trigger] world.entities@[n + m];
                    &&& e.id == first_id + m
                    &&& (EntityRecord { id: 0, collider: None, ..e }) == dagger_spec(from, throw_direction(m))
                    &&& e.collider matches Some(c) && c.size == (Vec2 { x: DAGGER_WIDTH, y: DAGGER_LENGTH })
                        && c.offset == Vec2::zero_spec() && c.collisions@.len() == 0
                },
        decreases 4 - k,
    {
        let ghost before = world.entities@;
        let d = dagger_bundle(from, dirs[k]);
        let ghost dd = d;
        let id = world.spawn(d);
        proof {
            assert(world.entities@ == before.push(EntityRecord { id, ..dd }));
            assert(world.entities@.subrange(0, n) =~= before.subrange(0, n));
            assert forall|m: int| 0 <= m < k + 1 implies {
                let e = #[trigger] world.entities@[n + m];
                &&& e.id == first_id + m
                &&& (EntityRecord { id: 0, collider: None, ..e }) == dagger_spec(from, throw_direction(m))
                &&& e.collider matches Some(c) && c.size == (Vec2 { x: DAGGER_WIDTH, y: DAGGER_LENGTH })
                    && c.offset == Vec2::zero_spec() && c.collisions@.len() == 0
            } by {
                if m < k {
                    assert(world.entities@[n + m] == before[n + m]);
                }
            }
        }
        k += 1;
    }
    true
}

} // verus!
