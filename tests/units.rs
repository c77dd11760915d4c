use bevy_survivors::camera::camera_position;
use bevy_survivors::collision::CollisionEvent;
use bevy_survivors::combat::{apply_knockback, KnockBack};
use bevy_survivors::enemy::{chase_player, enemy_bundle, ENEMY_SPEED};
use bevy_survivors::geometry::{integer_sqrt, scale_to_length, Rect, Vec2, Vec3, UNITS_PER_PIXEL};
use bevy_survivors::health::{despawn_dead_entities, take_damage, tick_damage_cooldown, DamageCooldown, Health};
use bevy_survivors::map::{grid_to_world, outer_walls, GameMap};
use bevy_survivors::movement::{keep_inside_walls, push_out, update_position, Velocity};
use bevy_survivors::player::{input_direction, player_bundle, player_movement, throw_weapon, PLAYER_SPEED};
use bevy_survivors::schedule::World;
use bevy_survivors::timer::{Timer, TimerMode};
use bevy_survivors::world::{EntityRecord, Role};

const PX: i64 = UNITS_PER_PIXEL;

#[test]
fn once_timer_stops_at_its_duration() {
    let mut t = Timer::new(100, TimerMode::Once);
    assert_eq!(t.tick(40), 0);
    assert_eq!(t.elapsed_us, 40);
    assert!(!t.finished());
    assert_eq!(t.tick(70), 1);
    assert_eq!(t.elapsed_us, 100);
    assert!(t.finished());
    // A finished once timer reports no further finishes.
    assert_eq!(t.tick(500), 0);
    assert_eq!(t.elapsed_us, 100);
}

#[test]
fn repeating_timer_wraps_and_counts() {
    let mut t = Timer::new(100, TimerMode::Repeating);
    assert_eq!(t.tick(250), 2);
    assert_eq!(t.elapsed_us, 50);
    assert_eq!(t.tick(30), 0);
    assert_eq!(t.elapsed_us, 80);
    assert!(!t.finished());
}

#[test]
fn health_saturates_at_zero() {
    let h = Health::new(7);
    assert_eq!(h.apply(3).amount, 4);
    assert_eq!(h.apply(7).amount, 0);
    assert_eq!(h.apply(100).amount, 0);
    assert_eq!(h.apply(100).apply(5).amount, 0);
    assert_eq!(Health::with_damage_cooldown(5, 10).apply(1).cooldown, Some(10));
}

fn rec(id: u64, role: Role) -> EntityRecord {
    EntityRecord::new(id, role, Vec3::new(0, 0, 0))
}

#[test]
fn damage_respects_roles_and_cooldown() {
    let mut player = rec(1, Role::Player);
    player.health = Some(Health::with_damage_cooldown(30, 1000));
    let mut enemy = rec(2, Role::Enemy);
    enemy.damage = Some(bevy_survivors::collision::CollisionDamage::new(5));
    let mut ents = vec![player, enemy];
    let events = vec![CollisionEvent::new(1, 2), CollisionEvent::new(1, 2), CollisionEvent::new(2, 1)];
    take_damage(&mut ents, &events, Role::Player, Role::Enemy);
    assert_eq!(ents[0].health.unwrap().amount, 25);
    assert_eq!(ents[0].damage_cooldown, Some(DamageCooldown::new(1000)));
    // Wrong receiver role: nothing.
    take_damage(&mut ents, &events, Role::Enemy, Role::Player);
    assert_eq!(ents[0].health.unwrap().amount, 25);
    // Cooldown runs out, then damage lands again.
    tick_damage_cooldown(&mut ents, 999);
    assert!(ents[0].damage_cooldown.is_some());
    tick_damage_cooldown(&mut ents, 1);
    assert!(ents[0].damage_cooldown.is_none());
    take_damage(&mut ents, &events, Role::Player, Role::Enemy);
    assert_eq!(ents[0].health.unwrap().amount, 20);
}

#[test]
fn damage_without_cooldown_lands_for_every_event() {
    let mut dagger = rec(1, Role::Dagger);
    dagger.health = Some(Health::new(12));
    let mut enemy = rec(2, Role::Enemy);
    enemy.damage = Some(bevy_survivors::collision::CollisionDamage::new(5));
    let mut ents = vec![dagger, enemy];
    let events = vec![CollisionEvent::new(1, 2), CollisionEvent::new(1, 2), CollisionEvent::new(1, 9)];
    take_damage(&mut ents, &events, Role::Dagger, Role::Enemy);
    assert_eq!(ents[0].health.unwrap().amount, 2);
    assert!(ents[0].damage_cooldown.is_none());
}

#[test]
fn only_entities_at_zero_health_are_removed() {
    let mut ents = Vec::new();
    for (id, amount) in [(1u64, Some(0u32)), (2, Some(1)), (3, None), (4, Some(0)), (5, Some(9))] {
        let mut r = rec(id, Role::Prop);
        r.health = amount.map(Health::new);
        ents.push(r);
    }
    despawn_dead_entities(&mut ents);
    let ids: Vec<u64> = ents.iter().map(|e| e.id).collect();
    assert_eq!(ids, vec![2, 3, 5]);
}

#[test]
fn attached_entities_go_with_the_dead() {
    let mut ents = Vec::new();
    for (id, amount, parent) in [
        (1u64, Some(0u32), None),
        (2, None, Some(1u64)),
        (3, Some(4), Some(2)),
        (4, Some(2), Some(99)),
        (5, Some(3), None),
        (6, None, Some(5)),
    ] {
        let mut r = rec(id, Role::Prop);
        r.health = amount.map(Health::new);
        r.parent = parent;
        ents.push(r);
    }
    despawn_dead_entities(&mut ents);
    let ids: Vec<u64> = ents.iter().map(|e| e.id).collect();
    assert_eq!(ids, vec![4, 5, 6]);
}

#[test]
fn knockback_covers_its_displacement_exactly() {
    let mut e = rec(1, Role::Player);
    e.knockback = Some(KnockBack { displacement: Vec3::new(-16000, 7, 0), duration: Timer::new(100_000, TimerMode::Once) });
    let mut ents = vec![e];
    for _ in 0..6 {
        apply_knockback(&mut ents, 16_667);
    }
    assert_eq!(ents[0].transform, Vec3::new(-16000, 7, 0));
    assert!(ents[0].knockback.is_none());
    apply_knockback(&mut ents, 16_667);
    assert_eq!(ents[0].transform, Vec3::new(-16000, 7, 0));
}

#[test]
fn knockback_part_way_moves_by_its_share() {
    let mut e = rec(1, Role::Player);
    e.knockback = Some(KnockBack { displacement: Vec3::new(-16000, 3, 0), duration: Timer::new(100_000, TimerMode::Once) });
    let mut ents = vec![e];
    apply_knockback(&mut ents, 25_000);
    assert_eq!(ents[0].transform, Vec3::new(-4000, 0, 0));
    assert_eq!(ents[0].knockback.unwrap().duration.elapsed_us, 25_000);
}

#[test]
fn integer_square_roots() {
    assert_eq!(integer_sqrt(0), 0);
    assert_eq!(integer_sqrt(1), 1);
    assert_eq!(integer_sqrt(24), 4);
    assert_eq!(integer_sqrt(25), 5);
    assert_eq!(integer_sqrt(1u128 << 100), 1u128 << 50);
}

#[test]
fn scaling_keeps_direction_and_sets_length() {
    assert_eq!(scale_to_length(3, 4, 10), (6, 8));
    assert_eq!(scale_to_length(-3, 4, 10), (-6, 8));
    assert_eq!(scale_to_length(0, 0, 10), (0, 0));
    assert_eq!(scale_to_length(1, 1, 16000), (11313, 11313));
    assert_eq!(scale_to_length(-5, 0, 7), (-7, 0));
}

#[test]
fn velocities_from_direction_and_speed() {
    let v = Velocity::from_direction_speed(Vec3::new(0, -9, 0), 50);
    assert_eq!(v.value, Vec3::new(0, -50, 0));
    let mut v = Velocity::new(1, 2);
    assert_eq!(v.value, Vec3::new(1, 2, 0));
    v.change_direction_speed(Vec3::new(6, 8, 0), 5);
    assert_eq!(v.value, Vec3::new(3, 4, 0));
}

#[test]
fn knockback_overrides_velocity() {
    let mut e = rec(1, Role::Player);
    e.velocity = Some(Velocity::new(1000 * PX, 0));
    e.knockback = Some(KnockBack { displacement: Vec3::new(0, -16 * PX, 0), duration: Timer::new(100_000, TimerMode::Once) });
    let mut world = World::new();
    let id = world.spawn(e);
    // Over the knockback's 0.1 s only the knockback moves the entity.
    for _ in 0..10 {
        world.update_entities(10_000);
    }
    let r = world.get(id).unwrap();
    assert_eq!(r.transform, Vec3::new(0, -16 * PX, 0));
    assert!(r.knockback.is_none());
    // Then velocity takes over again.
    world.update_entities(10_000);
    assert_eq!(world.get(id).unwrap().transform, Vec3::new(10 * PX, -16 * PX, 0));
}

#[test]
fn cooldown_lasts_over_several_ticks() {
    let mut e = rec(1, Role::Player);
    e.damage_cooldown = Some(DamageCooldown::new(250_000));
    let mut ents = vec![e];
    for step in [100_000u64, 100_000, 49_999] {
        tick_damage_cooldown(&mut ents, step);
        assert!(ents[0].damage_cooldown.is_some());
    }
    tick_damage_cooldown(&mut ents, 1);
    assert!(ents[0].damage_cooldown.is_none());
}

#[test]
fn positions_integrate_velocity() {
    let mut e = rec(1, Role::Enemy);
    e.velocity = Some(Velocity::new(30 * PX, -50 * PX));
    let mut ents = vec![e];
    update_position(&mut ents, 500_000);
    assert_eq!(ents[0].transform, Vec3::new(15 * PX, -25 * PX, 0));
}

#[test]
fn push_out_follows_least_penetration() {
    let mover = Rect::from_center_size(Vec2::new(10, 0), Vec2::new(10, 10));
    let wall = Rect::from_center_size(Vec2::new(0, 0), Vec2::new(12, 40));
    // Overlap: 1 unit wide, 10 tall: pushed right by 1.
    assert_eq!(push_out(&mover, &wall), (1, 0));
    // An overlap of 1.5 units is cleared by a push of 2.
    let odd = Rect::from_center_size(Vec2::new(10, 0), Vec2::new(11, 10));
    assert_eq!(push_out(&odd, &wall), (2, 0));
    let mover = Rect::from_center_size(Vec2::new(0, -20), Vec2::new(30, 10));
    let wall = Rect::from_center_size(Vec2::new(0, 0), Vec2::new(40, 32));
    assert_eq!(push_out(&mover, &wall), (0, -1));
    let apart = Rect::from_center_size(Vec2::new(100, 0), Vec2::new(2, 2));
    assert_eq!(push_out(&apart, &wall), (0, 0));
    // Centers level on the shallow axis: the full overlap, in the positive direction.
    let level = Rect::from_center_size(Vec2::new(0, 5), Vec2::new(10, 40));
    let post = Rect::from_center_size(Vec2::new(0, 0), Vec2::new(4, 100));
    assert_eq!(push_out(&level, &post), (4, 0));
}

#[test]
fn mover_centered_on_a_wall_is_pushed_out() {
    let mut player = rec(1, Role::Player);
    player.collider = Some(bevy_survivors::collision::Collider::new(Vec2::new(15 * PX, 15 * PX)));
    let mut wall = rec(2, Role::WallTile);
    wall.collider = Some(bevy_survivors::collision::Collider::new(Vec2::new(16 * PX, 32 * PX)));
    let mut ents = vec![player, wall];
    keep_inside_walls(&mut ents, &vec![CollisionEvent::new(1, 2)], Role::Player);
    // Overlap 15 px by 15 px: pushed up by the whole of it.
    assert_eq!(ents[0].transform, Vec3::new(0, 15 * PX, 0));
    // The overlap along the push shrinks from 15 px to 8.5 px.
    let pr = ents[0].collider.as_ref().unwrap().to_rect_at(&ents[0].transform);
    let wr = ents[1].collider.as_ref().unwrap().to_rect_at(&ents[1].transform);
    assert_eq!(pr.intersect(&wr).height(), 17 * PX);
}

#[test]
fn input_maps_to_player_velocity() {
    assert_eq!(input_direction(true, false, false, false), Vec3::new(0, 1, 0));
    assert_eq!(input_direction(true, true, false, false), Vec3::new(-1, 1, 0));
    assert_eq!(input_direction(true, false, true, false), Vec3::new(0, 0, 0));
    let mut ents = vec![player_bundle(Vec3::new(0, 0, 0))];
    player_movement(&mut ents, false, false, false, true);
    assert_eq!(ents[0].velocity.unwrap().value, Vec3::new(PLAYER_SPEED, 0, 0));
    assert_eq!(ents[0].transform.z, 100 * PX);
    player_movement(&mut ents, false, false, false, false);
    assert_eq!(ents[0].velocity.unwrap().value, Vec3::new(0, 0, 0));
}

#[test]
fn weapon_throws_four_daggers_each_period() {
    let mut world = World::new();
    world.spawn(player_bundle(Vec3::new(10 * PX, 0, 0)));
    assert!(!throw_weapon(&mut world, 1_000_000));
    assert_eq!(world.len(), 1);
    assert!(throw_weapon(&mut world, 600_000));
    assert_eq!(world.len(), 5);
    let daggers: Vec<&EntityRecord> = world.entities[1..].iter().collect();
    assert_eq!(daggers[0].transform, Vec3::new(10 * PX, 16 * PX, 100 * PX));
    assert_eq!(daggers[1].transform, Vec3::new(-6 * PX, 0, 100 * PX));
    assert_eq!(daggers[2].velocity.unwrap().value, Vec3::new(0, -100 * PX, 0));
    assert_eq!(daggers[3].velocity.unwrap().value, Vec3::new(100 * PX, 0, 0));
    for d in &daggers {
        assert_eq!(d.role, Role::Dagger);
        assert_eq!(d.health.unwrap().amount, 1);
        assert_eq!(d.damage.unwrap().amount, 5);
    }
    assert_eq!(world.entities[0].weapon.unwrap().elapsed_us, 100_000);
}

#[test]
fn enemies_head_for_the_player() {
    let e = enemy_bundle(Vec3::new(300 * PX, 400 * PX, 100 * PX));
    assert_eq!(e.velocity.unwrap().value, Vec3::new(-18 * PX, -24 * PX, 0));
    let mut ents = vec![player_bundle(Vec3::new(0, 0, 0)), e];
    ents[0].id = 1;
    ents[0].transform = Vec3::new(300 * PX, 0, 0);
    chase_player(&mut ents);
    assert_eq!(ents[1].velocity.unwrap().value, Vec3::new(0, -ENEMY_SPEED, 0));
}

#[test]
fn map_frame_walls() {
    let map = GameMap { dimensions: Vec2::new(50, 50), tile_size: 16 };
    assert_eq!(map.half_extent(), Vec2::new(25, 25));
    assert_eq!(GameMap { dimensions: Vec2::new(-7, 3), tile_size: 16 }.half_extent(), Vec2::new(-3, 1));
    assert_eq!(grid_to_world(Vec2::new(2, -1)), Vec3::new(32 * PX, -16 * PX, -PX));
    let walls = outer_walls(&map);
    assert_eq!(walls.len(), 4);
    assert_eq!(walls[0].0, Vec3::new(0, 400 * PX, -PX));
    assert_eq!(walls[0].1.size, Vec2::new(800 * PX, 8 * PX));
    assert_eq!(walls[1].1.offset, Vec2::new(0, -PX));
    assert_eq!(walls[2].0, Vec3::new(-400 * PX, 0, -PX));
    assert_eq!(walls[3].1.size, Vec2::new(16 * PX, 800 * PX));
}

#[test]
fn camera_stays_inside_the_level() {
    let origin = Vec3::new(0, 0, 0);
    let level = Vec2::new(800, 600);
    let (lo, hi) = (Vec2::new(-200, -150), Vec2::new(200, 150));
    assert_eq!(camera_position(Vec3::new(400, 300, 100), origin, level, lo, hi), Vec3::new(400, 300, 0));
    assert_eq!(camera_position(Vec3::new(10, 590, 100), origin, level, lo, hi), Vec3::new(200, 450, 0));
}
