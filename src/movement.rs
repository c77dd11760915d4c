//! Velocities, integration of position, and keeping movers out of walls.
//!
//! Movement is planar: velocities have no depth component.
use vstd::prelude::*;
use crate::collision::CollisionEvent;
use crate::geometry::{
    DIRECTION_LIMIT, POSITION_LIMIT, Rect, Vec3, clamp_to_world, clamp_world, div_round_toward_zero,
    div_toward_zero, scale_to_length, scaled_to, sign,
};
use crate::timer::MICROS_PER_SECOND;
use crate::world::{EntityRecord, Role, find_entity, index_of, records_wf};

verus! {

/// World units per second.
#[derive(Clone, Copy, Debug, PartialEq, Eq, Structural)]
pub struct Velocity {
    pub value: Vec3,
}

/// A direction that may be rescaled.
pub open spec fn direction_ok(d: Vec3) -> bool {
    -DIRECTION_LIMIT <= d.x <= DIRECTION_LIMIT && -DIRECTION_LIMIT <= d.y <= DIRECTION_LIMIT
}

/// The velocity of the given speed along `direction` (zero for no direction).
pub open spec fn velocity_along(direction: Vec3, speed: i64) -> Vec3 {
    let s = scaled_to(direction.x as int, direction.y as int, speed as int);
    Vec3 { x: s.0 as i64, y: s.1 as i64, z: 0 }
}

impl Velocity {
    pub open spec fn wf(&self) -> bool {
        self.value.in_world()
    }

    pub fn from_direction_speed(direction: Vec3, speed: i64) -> (r: Velocity)
        requires
            direction_ok(direction),
            0 <= speed <= POSITION_LIMIT,
        ensures
            r.wf(),
            r.value == velocity_along(direction, speed),
    {
        let (x, y) = scale_to_length(direction.x, direction.y, speed);
        Velocity { value: Vec3 { x, y, z: 0 } }
    }

    pub fn new(x: i64, y: i64) -> (r: Velocity)
        ensures
            r.value == (Vec3 { x, y, z: 0 }),
    {
        Velocity { value: Vec3 { x, y, z: 0 } }
    }

    pub fn change_direction_speed(&mut self, direction: Vec3, speed: i64)
        requires
            direction_ok(direction),
            0 <= speed <= POSITION_LIMIT,
        ensures
            final(self).wf(),
            final(self).value == velocity_along(direction, speed),
    {
        let (x, y) = scale_to_length(direction.x, direction.y, speed);
        self.value = Vec3 { x, y, z: 0 };
    }
}

/// Distance covered at `v` units per second in `delta` microseconds,
/// rounded toward zero.
pub open spec fn travel(v: int, delta: int) -> int {
    div_toward_zero(v * delta, MICROS_PER_SECOND as int)
}

/// A record after moving at its velocity for `delta` microseconds. A
/// running knockback overrides the velocity: such a record stays put here.
pub open spec fn moved(e: EntityRecord, delta: int) -> EntityRecord {
    match e.velocity {
        Some(v) if e.knockback is None => EntityRecord {
            transform: Vec3 {
                x: clamp_world(e.transform.x + travel(v.value.x as int, delta)) as i64,
                y: clamp_world(e.transform.y + travel(v.value.y as int, delta)) as i64,
                z: clamp_world(e.transform.z + travel(v.value.z as int, delta)) as i64,
            },
            ..e
        },
        _ => e,
    }
}

fn travel_of(v: i64, delta_us: u64) -> (r: i128)
    requires
        -POSITION_LIMIT <= v <= POSITION_LIMIT,
        delta_us <= u32::MAX,
    ensures
        r == travel(v as int, delta_us as int),
        -POSITION_LIMIT * u32::MAX <= r <= POSITION_LIMIT * u32::MAX,
{
    proof {
        assert(-POSITION_LIMIT * u32::MAX <= v * delta_us <= POSITION_LIMIT * u32::MAX) by (nonlinear_arith)
            requires
                -POSITION_LIMIT <= v <= POSITION_LIMIT,
                0 <= delta_us <= u32::MAX,
        ;
        let p = v * delta_us;
        if p >= 0 {
            assert(p / (MICROS_PER_SECOND as int) <= p) by (nonlinear_arith)
                requires
                    p >= 0,
            ;
        } else {
            assert((-p) / (MICROS_PER_SECOND as int) <= -p) by (nonlinear_arith)
                requires
                    p < 0,
            ;
        }
    }
    div_round_toward_zero((v as i128) * (delta_us as i128), MICROS_PER_SECOND as i128)
}

/// Moves every entity with a velocity and no running knockback by what it
/// covers in `delta_us` microseconds; positions are held within the world's
/// bounds.
pub fn update_position(ents: &mut Vec<EntityRecord>, delta_us: u64)
    requires
        records_wf(old(ents)@),
        delta_us <= u32::MAX,
    ensures
        final(ents)@.len() == old(ents)@.len(),
        forall|i: int| 0 <= i < old(ents)@.len() ==> #[trigger] final(ents)@[i] == moved(old(ents)@[i], delta_us as int),
        records_wf(final(ents)@),
{
    let ghost start = ents@;
    let n = ents.len();
    let mut i: usize = 0;
    while i < n
        invariant
            n == ents@.len(),
            start.len() == n,
            records_wf(start),
            i <= n,
            delta_us <= u32::MAX,
            forall|k: int| 0 <= k < i ==> #[trigger] ents@[k] == moved(start[k], delta_us as int),
            forall|k: int| i <= k < n ==> #[trigger] ents@[k] == start[k],
        decreases n - i,
    {
        assert(ents@[i as int] == start[i as int]);
        assert(start[i as int].wf());
        if let (Some(v), None) = (ents[i].velocity, ents[i].knockback) {
            let t = ents[i].transform;
            ents[i].transform = Vec3 {
                x: clamp_to_world(t.x as i128 + travel_of(v.value.x, delta_us)),
                y: clamp_to_world(t.y as i128 + travel_of(v.value.y, delta_us)),
                z: clamp_to_world(t.z as i128 + travel_of(v.value.z, delta_us)),
            };
        }
        i += 1;
    }
    proof {
        assert forall|k: int| 0 <= k < n implies (#[trigger] ents@[k]).wf() by {
            assert(start[k].wf());
        }
        assert forall|a: int, b: int| 0 <= a < n && 0 <= b < n && a != b implies #[trigger] ents@[a].id != #[trigger] ents@[b].id by {
            assert(start[a].id != start[b].id);
        }
    }
}

/// The push, in world units, that moves a mover with rectangle `er` out of a
/// wall with rectangle `wr`: along the axis of least penetration, by the
/// penetration depth (rounded up), away from the wall's center, or in the
/// positive direction when the centers are level on that axis. Nothing when
/// they no longer overlap.
pub open spec fn containment_push(er: Rect, wr: Rect) -> (int, int) {
    let o = er.intersect_spec(wr);
    if o.is_empty_spec() {
        (0, 0)
    } else {
        let w = o.max_x - o.min_x;
        let h = o.max_y - o.min_y;
        let cx = sign((er.min_x + er.max_x) - (wr.min_x + wr.max_x));
        let cy = sign((er.min_y + er.max_y) - (wr.min_y + wr.max_y));
        if w < h {
            (toward_sign((w + 1) / 2, cx), 0)
        } else {
            (0, toward_sign((h + 1) / 2, cy))
        }
    }
}

/// `v` turned negative when the sign `s` (one of -1, 0, 1) is negative; a
/// zero sign counts as positive.
pub open spec fn toward_sign(v: int, s: int) -> int {
    if s < 0 {
        -v
    } else {
        v
    }
}

/// The event holds a mover of `role` with a collider against a level wall
/// with a collider.
pub open spec fn contains_event(ents: Seq<EntityRecord>, ev: CollisionEvent, role: Role) -> bool {
    let i = index_of(ents, ev.entity);
    let j = index_of(ents, ev.collided_with);
    &&& 0 <= i < ents.len()
    &&& 0 <= j < ents.len()
    &&& ents[i].role == role
    &&& role != Role::WallTile
    &&& ents[i].collider is Some
    &&& ents[j].role == Role::WallTile
    &&& ents[j].collider is Some
}

/// The store after one event's correction.
pub open spec fn contain_step(ents: Seq<EntityRecord>, ev: CollisionEvent, role: Role) -> Seq<EntityRecord> {
    if contains_event(ents, ev, role) {
        let i = index_of(ents, ev.entity);
        let j = index_of(ents, ev.collided_with);
        let er = ents[i].collider.unwrap().rect_at(ents[i].transform);
        let wr = ents[j].collider.unwrap().rect_at(ents[j].transform);
        let p = containment_push(er, wr);
        ents.update(
            i,
            EntityRecord {
                transform: Vec3 {
                    x: clamp_world(ents[i].transform.x + p.0) as i64,
                    y: clamp_world(ents[i].transform.y + p.1) as i64,
                    z: ents[i].transform.z,
                },
                ..ents[i]
            },
        )
    } else {
        ents
    }
}

/// The store after the first `n` events' corrections, in order.
pub open spec fn contain_all(ents: Seq<EntityRecord>, evs: Seq<CollisionEvent>, role: Role, n: int) -> Seq<EntityRecord>
    decreases n,
{
    if n <= 0 {
        ents
    } else {
        contain_step(contain_all(ents, evs, role, n - 1), evs[n - 1], role)
    }
}

/// The push that moves a mover with rectangle `er` out of wall rectangle `wr`.
pub fn push_out(er: &Rect, wr: &Rect) -> (r: (i64, i64))
    requires
        er.bounded(),
        wr.bounded(),
    ensures
        (r.0 as int, r.1 as int) == containment_push(*er, *wr),
        -8 * POSITION_LIMIT <= r.0 <= 8 * POSITION_LIMIT,
        -8 * POSITION_LIMIT <= r.1 <= 8 * POSITION_LIMIT,
{
    let o = er.intersect(wr);
    if o.is_empty() {
        return (0, 0);
    }
    let w = o.width();
    let h = o.height();
    let ecs = er.center_sum();
    let wcs = wr.center_sum();
    if w < h {
        let half = (w + 1) / 2;
        (if ecs.x < wcs.x { -half } else { half }, 0)
    } else {
        let half = (h + 1) / 2;
        (0, if ecs.y < wcs.y { -half } else { half })
    }
}

/// Applies one event's correction.
fn contain_one(ents: &mut Vec<EntityRecord>, ev: CollisionEvent, role: Role)
    requires
        records_wf(old(ents)@),
    ensures
        final(ents)@ == contain_step(old(ents)@, ev, role),
        records_wf(final(ents)@),
{
    if role == Role::WallTile {
        return;
    }
    let ghost before = ents@;
    let i = match find_entity(ents, ev.entity) {
        Some(i) => i,
        None => return,
    };
    let j = match find_entity(ents, ev.collided_with) {
        Some(j) => j,
        None => return,
    };
    if ents[i].role != role || ents[j].role != Role::WallTile {
        return;
    }
    assert(before[i as int].wf() && before[j as int].wf());
    let (er, wr) = match (&ents[i].collider, &ents[j].collider) {
        (Some(ec), Some(wc)) => (ec.to_rect_at(&ents[i].transform), wc.to_rect_at(&ents[j].transform)),
        _ => return,
    };
    let (px, py) = push_out(&er, &wr);
    let t = ents[i].transform;
    ents[i].transform = Vec3 {
        x: clamp_to_world(t.x as i128 + px as i128),
        y: clamp_to_world(t.y as i128 + py as i128),
        z: t.z,
    };
    proof {
        assert(ents@ =~= contain_step(before, ev, role));
        assert forall|a: int| 0 <= a < ents@.len() implies (#[trigger] ents@[a]).wf() by {
            assert(before[a].wf());
        }
        assert forall|a: int, b: int|
            0 <= a < ents@.len() && 0 <= b < ents@.len() && a != b implies #[trigger] ents@[a].id
                != #[trigger] ents@[b].id by {
            assert(before[a].id != before[b].id);
        }
    }
}

/// Pushes each mover of `role` out of every level wall it collides with,
/// event by event, each time from its current position.
pub fn keep_inside_walls(ents: &mut Vec<EntityRecord>, events: &Vec<CollisionEvent>, role: Role)
    requires
        records_wf(old(ents)@),
    ensures
        final(ents)@ == contain_all(old(ents)@, events@, role, events@.len() as int),
        records_wf(final(ents)@),
{
    let ghost start = ents@;
    let mut k: usize = 0;
    while k < events.len()
        invariant
            k <= events@.len(),
            ents@ == contain_all(start, events@, role, k as int),
            records_wf(ents@),
        decreases events@.len() - k,
    {
        contain_one(ents, events[k], role);
        k += 1;
    }
}

/// Containment keeps every record's identifier and health in place.
pub proof fn lemma_contain_all_ids(ents: Seq<EntityRecord>, evs: Seq<CollisionEvent>, role: Role, n: int)
    ensures
        contain_all(ents, evs, role, n).len() == ents.len(),
        forall|k: int| 0 <= k < ents.len() ==> (#[trigger] contain_all(ents, evs, role, n)[k]).id == ents[k].id,
        forall|k: int| 0 <= k < ents.len() ==> (#[trigger] contain_all(ents, evs, role, n)[k]).health == ents[k].health,
    decreases n,
{
    if n > 0 {
        lemma_contain_all_ids(ents, evs, role, n - 1);
    }
}

} // verus!
