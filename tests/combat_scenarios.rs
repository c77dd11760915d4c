use bevy_survivors::collision::{Collider, CollisionDamage};
use bevy_survivors::geometry::{Vec2, Vec3, UNITS_PER_PIXEL};
use bevy_survivors::health::Health;
use bevy_survivors::schedule::World;
use bevy_survivors::world::{EntityRecord, Role};

const PX: i64 = UNITS_PER_PIXEL;

fn body(role: Role, x: i64, y: i64, size_px: i64) -> EntityRecord {
    let mut r = EntityRecord::new(0, role, Vec3::new(x * PX, y * PX, 0));
    r.collider = Some(Collider::new(Vec2::new(size_px * PX, size_px * PX)));
    r
}

#[test]
fn enemy_contact_damages_player_once_per_cooldown_window() {
    let mut world = World::new();
    let mut player = body(Role::Player, 0, 0, 1000);
    player.health = Some(Health::with_damage_cooldown(30, 250_000));
    let player_id = world.spawn(player);
    let mut enemy = body(Role::Enemy, 5, 0, 1000);
    enemy.damage = Some(CollisionDamage::new(5));
    enemy.health = Some(Health::new(10));
    world.spawn(enemy);

    // One second of continuous overlap in 10 ms ticks.
    for _ in 0..100 {
        world.tick(10_000);
    }
    let p = world.get(player_id).unwrap();
    assert_eq!(p.health.unwrap().amount, 10);
}

#[test]
fn player_hit_count_follows_cooldown_boundaries() {
    let mut world = World::new();
    let mut player = body(Role::Player, 0, 0, 1000);
    player.health = Some(Health::with_damage_cooldown(30, 250_000));
    let player_id = world.spawn(player);
    let mut enemy = body(Role::Enemy, 5, 0, 1000);
    enemy.damage = Some(CollisionDamage::new(5));
    world.spawn(enemy);

    let mut seen = Vec::new();
    for _ in 0..100 {
        world.tick(10_000);
        seen.push(world.get(player_id).unwrap().health.unwrap().amount);
    }
    // Hits land at 0, 0.25, 0.50 and 0.75 seconds.
    assert_eq!(seen[0], 25);
    assert_eq!(seen[24], 25);
    assert_eq!(seen[25], 20);
    assert_eq!(seen[49], 20);
    assert_eq!(seen[50], 15);
    assert_eq!(seen[75], 10);
    assert_eq!(seen[99], 10);
}

#[test]
fn projectile_despawns_on_first_lethal_tick() {
    let mut world = World::new();
    let mut dagger = body(Role::Dagger, 0, 0, 8);
    dagger.damage = Some(CollisionDamage::new(5));
    dagger.health = Some(Health::new(1));
    let dagger_id = world.spawn(dagger);
    let mut enemy = body(Role::Enemy, 4, 0, 15);
    enemy.damage = Some(CollisionDamage::new(5));
    enemy.health = Some(Health::new(10));
    let enemy_id = world.spawn(enemy);

    world.tick(16_000);
    assert!(world.get(dagger_id).is_none());
    assert_eq!(world.get(enemy_id).unwrap().health.unwrap().amount, 5);
    assert_eq!(world.len(), 1);
}

#[test]
fn health_of_one_never_despawns_without_damage() {
    let mut world = World::new();
    let mut a = body(Role::Prop, 0, 0, 10);
    a.health = Some(Health::new(1));
    let id = world.spawn(a);
    for _ in 0..10 {
        world.tick(16_000);
    }
    assert_eq!(world.get(id).unwrap().health.unwrap().amount, 1);
}

#[test]
fn zero_health_is_gone_after_one_tick() {
    let mut world = World::new();
    let mut a = body(Role::Prop, 0, 0, 10);
    a.health = Some(Health::new(0));
    world.spawn(a);
    let mut b = body(Role::Prop, 100, 0, 10);
    b.health = Some(Health::new(1));
    let keep = world.spawn(b);
    world.tick(16_000);
    assert_eq!(world.len(), 1);
    assert!(world.get(keep).is_some());
}

#[test]
fn player_is_knocked_away_from_enemy() {
    let mut world = World::new();
    let mut player = body(Role::Player, 0, 0, 15);
    player.health = Some(Health::with_damage_cooldown(30, 250_000));
    let player_id = world.spawn(player);
    let mut enemy = body(Role::Enemy, 10, 0, 15);
    enemy.damage = Some(CollisionDamage::new(5));
    world.spawn(enemy);

    world.tick(10_000);
    let kb = world.get(player_id).unwrap().knockback.unwrap();
    assert_eq!(kb.displacement, Vec3::new(-16 * PX, 0, 0));
    assert_eq!(kb.duration.duration_us, 100_000);
    // Ten more ticks run the knockback out.
    for _ in 0..10 {
        world.tick(10_000);
    }
    let p = world.get(player_id).unwrap();
    assert_eq!(p.transform.x, -16 * PX);
    assert!(p.knockback.is_none());
}

#[test]
fn walls_are_not_damaged_or_moved() {
    let mut world = World::new();
    let wall = body(Role::WallTile, 0, 0, 32);
    let wall_id = world.spawn(wall);
    let mut enemy = body(Role::Enemy, 20, 0, 15);
    enemy.damage = Some(CollisionDamage::new(5));
    let enemy_id = world.spawn(enemy);
    world.tick(16_000);
    assert_eq!(world.get(wall_id).unwrap().transform, Vec3::new(0, 0, 0));
    // The enemy overlapped the wall by 3.5 px on x and is pushed right by that much.
    assert_eq!(world.get(enemy_id).unwrap().transform.x, 20 * PX + 3500);
}

#[test]
fn knockback_sums_unit_vectors_from_each_threat() {
    let mut world = World::new();
    let mut player = body(Role::Player, 0, 0, 15);
    player.health = Some(Health::with_damage_cooldown(30, 250_000));
    let player_id = world.spawn(player);
    for (x, y) in [(10, 0), (0, 5)] {
        let mut enemy = body(Role::Enemy, x, y, 15);
        enemy.damage = Some(CollisionDamage::new(5));
        world.spawn(enemy);
    }
    world.tick(10_000);
    let kb = world.get(player_id).unwrap().knockback.unwrap();
    // Unit vectors (-1, 0) and (0, -1) sum to a diagonal, whatever the distances.
    assert_eq!(kb.displacement, Vec3::new(-11313, -11313, 0));
    // Only one hit lands: the first starts the cooldown.
    assert_eq!(world.get(player_id).unwrap().health.unwrap().amount, 25);
}
