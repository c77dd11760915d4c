use bevy_survivors::collision::{detect_collisions, handle_collisions, Collider, CollisionEvent};
use bevy_survivors::geometry::{Rect, Vec2, Vec3};
use bevy_survivors::world::{EntityRecord, Role};

fn boxed(id: u64, role: Role, x: i64, y: i64, w: i64, h: i64) -> EntityRecord {
    let mut r = EntityRecord::new(id, role, Vec3::new(x, y, 0));
    r.collider = Some(Collider::new(Vec2::new(w, h)));
    r
}

fn list(e: &EntityRecord) -> Vec<u64> {
    e.collider.as_ref().unwrap().collisions.clone()
}

#[test]
fn rect_from_center_and_size_uses_half_units() {
    let r = Rect::from_center_size(Vec2::new(10, -4), Vec2::new(6, 3));
    assert_eq!(r, Rect { min_x: 14, min_y: -11, max_x: 26, max_y: -5 });
    assert_eq!(r.width(), 12);
    assert_eq!(r.height(), 6);
    assert_eq!(r.center_sum(), Vec2::new(40, -16));
}

#[test]
fn collider_offset_moves_its_rectangle() {
    let c = Collider::with_size_and_offset(Vec2::new(4, 2), Vec2::new(1, -1));
    let r = c.to_rect_at(&Vec3::new(10, 10, 7));
    assert_eq!(r, Rect { min_x: 18, min_y: 16, max_x: 26, max_y: 20 });
}

#[test]
fn overlaps_are_symmetric_and_exclude_self() {
    let mut ents = vec![
        boxed(1, Role::Player, 0, 0, 10, 10),
        boxed(2, Role::Enemy, 5, 5, 10, 10),
        boxed(3, Role::Enemy, 100, 0, 10, 10),
        boxed(4, Role::Dagger, -6, 0, 4, 4),
    ];
    detect_collisions(&mut ents);
    assert_eq!(list(&ents[0]), vec![2, 4]);
    assert_eq!(list(&ents[1]), vec![1]);
    assert!(list(&ents[2]).is_empty());
    assert_eq!(list(&ents[3]), vec![1]);
    for a in 0..4 {
        assert!(!list(&ents[a]).contains(&ents[a].id));
        for b in 0..4 {
            assert_eq!(list(&ents[a]).contains(&ents[b].id), list(&ents[b]).contains(&ents[a].id));
        }
    }
}

#[test]
fn touching_edges_do_not_collide() {
    let mut ents = vec![boxed(1, Role::Player, 0, 0, 10, 10), boxed(2, Role::Enemy, 10, 0, 10, 10)];
    detect_collisions(&mut ents);
    assert!(list(&ents[0]).is_empty());
    assert!(list(&ents[1]).is_empty());
    ents[1].transform.x = 9;
    detect_collisions(&mut ents);
    assert_eq!(list(&ents[0]), vec![2]);
}

#[test]
fn detection_replaces_stale_lists() {
    let mut ents = vec![boxed(1, Role::Player, 0, 0, 10, 10), boxed(2, Role::Enemy, 1, 0, 10, 10)];
    ents[0].collider.as_mut().unwrap().collisions = vec![7, 8, 9];
    detect_collisions(&mut ents);
    assert_eq!(list(&ents[0]), vec![2]);
    ents[1].transform.x = 500;
    detect_collisions(&mut ents);
    assert!(list(&ents[0]).is_empty());
}

#[test]
fn entities_without_colliders_are_ignored() {
    let mut ents = vec![boxed(1, Role::Player, 0, 0, 10, 10), EntityRecord::new(2, Role::Prop, Vec3::new(0, 0, 0))];
    detect_collisions(&mut ents);
    assert!(list(&ents[0]).is_empty());
    assert!(ents[1].collider.is_none());
}

#[test]
fn dispatch_emits_one_event_per_overlap_of_the_watched_role() {
    let mut ents = vec![
        boxed(1, Role::Player, 0, 0, 10, 10),
        boxed(2, Role::Enemy, 5, 0, 10, 10),
        boxed(3, Role::Enemy, -5, 0, 10, 10),
    ];
    detect_collisions(&mut ents);
    let mut events = Vec::new();
    handle_collisions(&ents, Role::Player, &mut events);
    assert_eq!(events, vec![CollisionEvent::new(1, 2), CollisionEvent::new(1, 3)]);
    handle_collisions(&ents, Role::Enemy, &mut events);
    assert_eq!(events.len(), 4);
    assert_eq!(events[2], CollisionEvent::new(2, 1));
    assert_eq!(events[3], CollisionEvent::new(3, 1));
    handle_collisions(&ents, Role::Dagger, &mut events);
    assert_eq!(events.len(), 4);
}
