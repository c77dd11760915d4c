//! Knockback: a time-boxed displacement pushed onto an entity after contact.
use vstd::prelude::*;
use crate::collision::CollisionEvent;
use crate::geometry::{
    DIRECTION_LIMIT, POSITION_LIMIT, UNITS_PER_PIXEL, Vec3, clamp_to_world, clamp_world, div_round_toward_zero,
    div_toward_zero, scale_to_length, scaled_to,
};
use crate::timer::{Timer, TimerMode, total};
use crate::world::{EntityRecord, Role, find_entity, index_of, records_wf};

verus! {

/// How far a knockback carries its receiver, in world units.
pub const KNOCK_BACK_DISTANCE: i64 = 16 * UNITS_PER_PIXEL;

/// How long a knockback lasts, in microseconds.
pub const KNOCK_BACK_DURATION_US: u64 = 100_000;

/// A forced displacement, spread evenly over the timer's duration.
#[derive(Clone, Copy, Debug, PartialEq, Eq, Structural)]
pub struct KnockBack {
    pub displacement: Vec3,
    pub duration: Timer,
}

impl KnockBack {
    pub open spec fn wf(&self) -> bool {
        &&& self.duration.wf()
        &&& self.duration.mode == TimerMode::Once
        &&& self.displacement.in_world()
    }
}

/// The part of displacement `d` covered once `elapsed` of `dur` has passed.
pub open spec fn share(d: int, elapsed: int, dur: int) -> int {
    div_toward_zero(d * elapsed, dur)
}

/// Elapsed time of a knockback after a step of `delta`.
pub open spec fn kb_elapsed_after(kb: KnockBack, delta: int) -> int {
    if kb.duration.elapsed_us + delta >= kb.duration.duration_us {
        kb.duration.duration_us as int
    } else {
        kb.duration.elapsed_us + delta
    }
}

/// What a step of `delta` adds to the position, per axis.
pub open spec fn kb_step_x(kb: KnockBack, delta: int) -> int {
    share(kb.displacement.x as int, kb_elapsed_after(kb, delta), kb.duration.duration_us as int) - share(
        kb.displacement.x as int,
        kb.duration.elapsed_us as int,
        kb.duration.duration_us as int,
    )
}

pub open spec fn kb_step_y(kb: KnockBack, delta: int) -> int {
    share(kb.displacement.y as int, kb_elapsed_after(kb, delta), kb.duration.duration_us as int) - share(
        kb.displacement.y as int,
        kb.duration.elapsed_us as int,
        kb.duration.duration_us as int,
    )
}

/// The knockback after a step of `delta`: gone once its time is up.
pub open spec fn kb_next(kb: KnockBack, delta: int) -> Option<KnockBack> {
    if kb.duration.elapsed_us + delta >= kb.duration.duration_us {
        None
    } else {
        Some(KnockBack { duration: Timer { elapsed_us: (kb.duration.elapsed_us + delta) as u64, ..kb.duration }, ..kb })
    }
}

/// A record after its knockback, if any, runs for `delta` microseconds.
pub open spec fn knockback_ticked(e: EntityRecord, delta: int) -> EntityRecord {
    match e.knockback {
        Some(kb) => EntityRecord {
            transform: Vec3 {
                x: clamp_world(e.transform.x + kb_step_x(kb, delta)) as i64,
                y: clamp_world(e.transform.y + kb_step_y(kb, delta)) as i64,
                z: e.transform.z,
            },
            knockback: kb_next(kb, delta),
            ..e
        },
        None => e,
    }
}

proof fn lemma_share_bound(d: int, elapsed: int, dur: int)
    requires
        0 <= elapsed <= dur,
        dur > 0,
    ensures
        -(if d >= 0 { d } else { -d }) <= share(d, elapsed, dur) <= (if d >= 0 { d } else { -d }),
{
    if d >= 0 {
        assert(0 <= d * elapsed <= d * dur) by (nonlinear_arith)
            requires
                0 <= elapsed <= dur,
                d >= 0,
        ;
        assert((d * elapsed) / dur <= (d * dur) / dur) by (nonlinear_arith)
            requires
                d * elapsed <= d * dur,
                dur > 0,
        ;
        assert((d * dur) / dur == d) by (nonlinear_arith)
            requires
                dur > 0,
        ;
        assert((d * elapsed) / dur >= 0) by (nonlinear_arith)
            requires
                d * elapsed >= 0,
                dur > 0,
        ;
    } else {
        assert(0 <= (-d) * elapsed <= (-d) * dur) by (nonlinear_arith)
            requires
                0 <= elapsed <= dur,
                d < 0,
        ;
        assert(-(d * elapsed) == (-d) * elapsed) by (nonlinear_arith);
        assert(((-d) * elapsed) / dur <= ((-d) * dur) / dur) by (nonlinear_arith)
            requires
                (-d) * elapsed <= (-d) * dur,
                dur > 0,
        ;
        assert(((-d) * dur) / dur == -d) by (nonlinear_arith)
            requires
                dur > 0,
        ;
        assert(((-d) * elapsed) / dur >= 0) by (nonlinear_arith)
            requires
                (-d) * elapsed >= 0,
                dur > 0,
        ;
        if d * elapsed >= 0 {
            assert(d * elapsed == 0);
        }
    }
}

fn share_of(d: i64, elapsed: u64, dur: u64) -> (r: i128)
    requires
        -POSITION_LIMIT <= d <= POSITION_LIMIT,
        elapsed <= dur,
        0 < dur <= crate::timer::MAX_TIMER_US,
    ensures
        r == share(d as int, elapsed as int, dur as int),
        -POSITION_LIMIT <= r <= POSITION_LIMIT,
{
    proof {
        assert(-POSITION_LIMIT * crate::timer::MAX_TIMER_US <= d * elapsed <= POSITION_LIMIT * crate::timer::MAX_TIMER_US)
            by (nonlinear_arith)
            requires
                -POSITION_LIMIT <= d <= POSITION_LIMIT,
                0 <= elapsed <= crate::timer::MAX_TIMER_US,
        ;
        lemma_share_bound(d as int, elapsed as int, dur as int);
    }
    let p = (d as i128) * (elapsed as i128);
    div_round_toward_zero(p, dur as i128)
}

/// Moves every entity under knockback by its share for this step, and
/// removes each knockback whose time is up.
pub fn apply_knockback(ents: &mut Vec<EntityRecord>, delta_us: u64)
    requires
        records_wf(old(ents)@),
        delta_us <= u32::MAX,
    ensures
        final(ents)@.len() == old(ents)@.len(),
        forall|i: int| 0 <= i < old(ents)@.len() ==> #[trigger] final(ents)@[i] == knockback_ticked(old(ents)@[i], delta_us as int),
        records_wf(final(ents)@),
{
    let ghost start = ents@;
    let n = ents.len();
    let mut i: usize = 0;
    while i < n
        invariant
            n == ents@.len(),
            start.len() == n,
            records_wf(start),
            i <= n,
            delta_us <= u32::MAX,
            forall|k: int| 0 <= k < i ==> #[trigger] ents@[k] == knockback_ticked(start[k], delta_us as int),
            forall|k: int| i <= k < n ==> #[trigger] ents@[k] == start[k],
        decreases n - i,
    {
        assert(ents@[i as int] == start[i as int]);
        assert(start[i as int].wf());
        match ents[i].knockback {
            Some(kb) => {
                let mut t = kb.duration;
                let before = t.elapsed_us;
                t.tick(delta_us);
                let after = t.elapsed_us;
                let sx = share_of(kb.displacement.x, after, t.duration_us) - share_of(kb.displacement.x, before, t.duration_us);
                let sy = share_of(kb.displacement.y, after, t.duration_us) - share_of(kb.displacement.y, before, t.duration_us);
                let pos = ents[i].transform;
                ents[i].transform = Vec3 {
                    x: clamp_to_world(pos.x as i128 + sx),
                    y: clamp_to_world(pos.y as i128 + sy),
                    z: pos.z,
                };
                if t.finished() {
                    ents[i].knockback = None;
                } else {
                    ents[i].knockback = Some(KnockBack { displacement: kb.displacement, duration: t });
                }
            },
            None => {},
        }
        i += 1;
    }
    proof {
        assert forall|k: int| 0 <= k < n implies (#[trigger] ents@[k]).wf() by {
            assert(start[k].wf());
        }
        assert forall|a: int, b: int| 0 <= a < n && 0 <= b < n && a != b implies #[trigger] ents@[a].id != #[trigger] ents@[b].id by {
            assert(start[a].id != start[b].id);
        }
    }
}

/// The knockback after steps `ds[0..n]` in turn.
pub open spec fn kb_run(kb: Option<KnockBack>, ds: Seq<u64>, n: int) -> Option<KnockBack>
    decreases n,
{
    if n <= 0 {
        kb
    } else {
        match kb_run(kb, ds, n - 1) {
            Some(k) => kb_next(k, ds[n - 1] as int),
            None => None,
        }
    }
}

/// The displacement, per axis, that steps `ds[0..n]` add in turn.
pub open spec fn kb_moved(kb: Option<KnockBack>, ds: Seq<u64>, n: int) -> (int, int)
    decreases n,
{
    if n <= 0 {
        (0, 0)
    } else {
        let m = kb_moved(kb, ds, n - 1);
        match kb_run(kb, ds, n - 1) {
            Some(k) => (m.0 + kb_step_x(k, ds[n - 1] as int), m.1 + kb_step_y(k, ds[n - 1] as int)),
            None => m,
        }
    }
}

proof fn lemma_share_ends(d: int, dur: int)
    requires
        dur > 0,
    ensures
        share(d, dur, dur) == d,
        share(d, 0, dur) == 0,
{
    assert(d * dur / dur == d) by (nonlinear_arith)
        requires
            dur > 0,
    ;
    if d < 0 {
        assert((-(d * dur)) / dur == -d) by (nonlinear_arith)
            requires
                dur > 0,
                d < 0,
        ;
    }
}

proof fn lemma_kb_progress(kb: KnockBack, ds: Seq<u64>, n: int)
    requires
        kb.wf(),
        kb.duration.elapsed_us == 0,
        0 <= n <= ds.len(),
    ensures
        ({
            let dur = kb.duration.duration_us as int;
            let t = total(ds, n);
            &&& t < dur ==> (kb_run(Some(kb), ds, n) matches Some(k) && k.duration.elapsed_us == t
                && k.duration.duration_us == dur && k.displacement == kb.displacement)
            &&& t < dur ==> kb_moved(Some(kb), ds, n) == (share(kb.displacement.x as int, t, dur), share(
                kb.displacement.y as int,
                t,
                dur,
            ))
            &&& t >= dur ==> kb_run(Some(kb), ds, n) is None
            &&& t >= dur ==> kb_moved(Some(kb), ds, n) == (kb.displacement.x as int, kb.displacement.y as int)
        }),
    decreases n,
{
    let dur = kb.duration.duration_us as int;
    lemma_share_ends(kb.displacement.x as int, dur);
    lemma_share_ends(kb.displacement.y as int, dur);
    if n > 0 {
        lemma_kb_progress(kb, ds, n - 1);
    }
}

/// A knockback of duration `d`, run from its start for steps that add up
/// to at least `d`, has moved its owner by exactly its displacement and is
/// then gone; before that it has moved it by the elapsed share.
pub proof fn lemma_knockback_decay(kb: KnockBack, ds: Seq<u64>)
    requires
        kb.wf(),
        kb.duration.elapsed_us == 0,
    ensures
        total(ds, ds.len() as int) >= kb.duration.duration_us ==> kb_run(Some(kb), ds, ds.len() as int) is None
            && kb_moved(Some(kb), ds, ds.len() as int) == (kb.displacement.x as int, kb.displacement.y as int),
        total(ds, ds.len() as int) < kb.duration.duration_us ==> kb_run(Some(kb), ds, ds.len() as int) is Some
            && kb_moved(Some(kb), ds, ds.len() as int) == (
                share(kb.displacement.x as int, total(ds, ds.len() as int), kb.duration.duration_us as int),
                share(kb.displacement.y as int, total(ds, ds.len() as int), kb.duration.duration_us as int),
            ),
{
    lemma_kb_progress(kb, ds, ds.len() as int);
}

/// The event pushes record `i`: `i` is its subject, has the receiving role
/// and no knockback yet, and the other entity has the threatening role.
pub open spec fn pushes(ents: Seq<EntityRecord>, ev: CollisionEvent, receiver: Role, threat: Role, i: int) -> bool {
    let j = index_of(ents, ev.collided_with);
    &&& 0 <= i < ents.len()
    &&& index_of(ents, ev.entity) == i
    &&& ents[i].role == receiver
    &&& ents[i].knockback is None
    &&& 0 <= j < ents.len()
    &&& ents[j].role == threat
}

pub open spec fn clamp_direction(v: int) -> int {
    if v < -DIRECTION_LIMIT {
        -DIRECTION_LIMIT as int
    } else if v > DIRECTION_LIMIT {
        DIRECTION_LIMIT as int
    } else {
        v
    }
}

/// Whether any of the first `n` events pushes record `i`.
pub open spec fn pushed(ents: Seq<EntityRecord>, evs: Seq<CollisionEvent>, receiver: Role, threat: Role, i: int, n: int) -> bool
    decreases n,
{
    if n <= 0 {
        false
    } else {
        pushed(ents, evs, receiver, threat, i, n - 1) || pushes(ents, evs[n - 1], receiver, threat, i)
    }
}

/// Length of the unit vectors that a knockback direction sums.
pub const UNIT_LENGTH: i64 = 1_048_576;

/// The unit vector (of length `UNIT_LENGTH`) from `from` to `to`.
pub open spec fn unit_from(from: Vec3, to: Vec3) -> (int, int) {
    scaled_to(to.x - from.x, to.y - from.y, UNIT_LENGTH as int)
}

/// The sum, over the first `n` events that push record `i`, of the unit
/// vector from the threat to the receiver (each axis held within the
/// direction bound).
pub open spec fn push_sum(ents: Seq<EntityRecord>, evs: Seq<CollisionEvent>, receiver: Role, threat: Role, i: int, n: int) -> (int, int)
    decreases n,
{
    if n <= 0 {
        (0, 0)
    } else {
        let p = push_sum(ents, evs, receiver, threat, i, n - 1);
        let ev = evs[n - 1];
        if pushes(ents, ev, receiver, threat, i) {
            let j = index_of(ents, ev.collided_with);
            let u = unit_from(ents[j].transform, ents[i].transform);
            (clamp_direction(p.0 + u.0), clamp_direction(p.1 + u.1))
        } else {
            p
        }
    }
}

/// A fresh knockback along `dir`, of the fixed distance and duration.
pub open spec fn knockback_along(dir: (int, int)) -> KnockBack {
    let d = scaled_to(dir.0, dir.1, KNOCK_BACK_DISTANCE as int);
    KnockBack {
        displacement: Vec3 { x: d.0 as i64, y: d.1 as i64, z: 0 },
        duration: Timer { duration_us: KNOCK_BACK_DURATION_US, elapsed_us: 0, mode: TimerMode::Once },
    }
}

/// Record `i` after the knockback pass over `evs`.
pub open spec fn knocked(ents: Seq<EntityRecord>, evs: Seq<CollisionEvent>, receiver: Role, threat: Role, i: int) -> EntityRecord {
    if pushed(ents, evs, receiver, threat, i, evs.len() as int) {
        EntityRecord {
            knockback: Some(knockback_along(push_sum(ents, evs, receiver, threat, i, evs.len() as int))),
            ..ents[i]
        }
    } else {
        ents[i]
    }
}

/// The store after the knockback pass over `evs`.
pub open spec fn with_knockbacks(ents: Seq<EntityRecord>, evs: Seq<CollisionEvent>, receiver: Role, threat: Role) -> Seq<EntityRecord> {
    Seq::new(ents.len(), |i: int| knocked(ents, evs, receiver, threat, i))
}

/// Starts one knockback on each receiver that collides with threats and has
/// none yet, directed along the sum of the unit vectors from each such
/// threat to the receiver.
pub fn knockback_collisions(ents: &mut Vec<EntityRecord>, events: &Vec<CollisionEvent>, receiver: Role, threat: Role)
    requires
        records_wf(old(ents)@),
    ensures
        final(ents)@.len() == old(ents)@.len(),
        final(ents)@ == with_knockbacks(old(ents)@, events@, receiver, threat),
        records_wf(final(ents)@),
{
    let ghost start = ents@;
    let n = ents.len();
    let mut acc: Vec<(bool, i64, i64)> = Vec::new();
    let mut a: usize = 0;
    while a < n
        invariant
            a <= n,
            acc@.len() == a,
            forall|k: int| 0 <= k < a ==> #[trigger] acc@[k] == (false, 0i64, 0i64),
        decreases n - a,
    {
        acc.push((false, 0, 0));
        a += 1;
    }
    let mut e: usize = 0;
    while e < events.len()
        invariant
            ents@ == start,
            n == start.len(),
            records_wf(start),
            e <= events@.len(),
            acc@.len() == n,
            forall|k: int|
                0 <= k < n ==> (#[trigger] acc@[k]).0 == pushed(start, events@, receiver, threat, k, e as int)
                    && acc@[k].1 == push_sum(start, events@, receiver, threat, k, e as int).0
                    && acc@[k].2 == push_sum(start, events@, receiver, threat, k, e as int).1,
        decreases events@.len() - e,
    {
        let ev = events[e];
        if let Some(i) = find_entity(ents, ev.entity) {
            if let Some(j) = find_entity(ents, ev.collided_with) {
                if ents[i].role == receiver && ents[i].knockback.is_none() && ents[j].role == threat {
                    assert(start[i as int].wf() && start[j as int].wf());
                    let cur = acc[i];
                    let (ux, uy) = scale_to_length(
                        ents[i].transform.x - ents[j].transform.x,
                        ents[i].transform.y - ents[j].transform.y,
                        UNIT_LENGTH,
                    );
                    let dx = cur.1 as i128 + ux as i128;
                    let dy = cur.2 as i128 + uy as i128;
                    let nx = if dx < -DIRECTION_LIMIT { -DIRECTION_LIMIT } else if dx > DIRECTION_LIMIT { DIRECTION_LIMIT } else { dx };
                    let ny = if dy < -DIRECTION_LIMIT { -DIRECTION_LIMIT } else if dy > DIRECTION_LIMIT { DIRECTION_LIMIT } else { dy };
                    acc.set(i, (true, nx as i64, ny as i64));
                    proof {
                        assert forall|k: int| 0 <= k < n && k != i implies !pushes(start, ev, receiver, threat, k) by {}
                    }
                }
            }
        }
        e += 1;
    }
    let mut i: usize = 0;
    while i < n
        invariant
            n == ents@.len(),
            start.len() == n,
            records_wf(start),
            i <= n,
            acc@.len() == n,
            forall|k: int|
                0 <= k < n ==> (#[trigger] acc@[k]).0 == pushed(start, events@, receiver, threat, k, events@.len() as int)
                    && acc@[k].1 == push_sum(start, events@, receiver, threat, k, events@.len() as int).0
                    && acc@[k].2 == push_sum(start, events@, receiver, threat, k, events@.len() as int).1,
            forall|k: int|
                0 <= k < i ==> #[trigger] ents@[k] == if pushed(start, events@, receiver, threat, k, events@.len() as int) {
                    EntityRecord {
                        knockback: Some(knockback_along(push_sum(start, events@, receiver, threat, k, events@.len() as int))),
                        ..start[k]
                    }
                } else {
                    start[k]
                },
            forall|k: int| i <= k < n ==> #[trigger] ents@[k] == start[k],
        decreases n - i,
    {
        let (hit, dx, dy) = acc[i];
        if hit {
            proof {
                lemma_push_sum_bounded(start, events@, receiver, threat, i as int, events@.len() as int);
            }
            let (x, y) = scale_to_length(dx, dy, KNOCK_BACK_DISTANCE);
            let kb = KnockBack {
                displacement: Vec3 { x, y, z: 0 },
                duration: Timer::new(KNOCK_BACK_DURATION_US, TimerMode::Once),
            };
            ents[i].knockback = Some(kb);
        }
        i += 1;
    }
    proof {
        assert forall|k: int| 0 <= k < n implies (#[trigger] ents@[k]).wf() by {
            assert(start[k].wf());
            if pushed(start, events@, receiver, threat, k, events@.len() as int) {
                lemma_push_sum_bounded(start, events@, receiver, threat, k, events@.len() as int);
                let p = push_sum(start, events@, receiver, threat, k, events@.len() as int);
                lemma_scaled_to_bounded(p.0, p.1);
            }
        }
        assert forall|a: int, b: int| 0 <= a < n && 0 <= b < n && a != b implies #[trigger] ents@[a].id != #[trigger] ents@[b].id by {
            assert(start[a].id != start[b].id);
        }
        assert(ents@ =~= with_knockbacks(start, events@, receiver, threat));
    }
}

proof fn lemma_push_sum_bounded(ents: Seq<EntityRecord>, evs: Seq<CollisionEvent>, receiver: Role, threat: Role, i: int, n: int)
    ensures
        -DIRECTION_LIMIT <= push_sum(ents, evs, receiver, threat, i, n).0 <= DIRECTION_LIMIT,
        -DIRECTION_LIMIT <= push_sum(ents, evs, receiver, threat, i, n).1 <= DIRECTION_LIMIT,
    decreases n,
{
    if n > 0 {
        lemma_push_sum_bounded(ents, evs, receiver, threat, i, n - 1);
    }
}

proof fn lemma_scaled_to_bounded(x: int, y: int)
    requires
        -DIRECTION_LIMIT <= x <= DIRECTION_LIMIT,
        -DIRECTION_LIMIT <= y <= DIRECTION_LIMIT,
    ensures
        -KNOCK_BACK_DISTANCE <= scaled_to(x, y, KNOCK_BACK_DISTANCE as int).0 <= KNOCK_BACK_DISTANCE,
        -KNOCK_BACK_DISTANCE <= scaled_to(x, y, KNOCK_BACK_DISTANCE as int).1 <= KNOCK_BACK_DISTANCE,
{
    crate::geometry::lemma_scaled_to_bounded(x, y, KNOCK_BACK_DISTANCE as int);
}

/// Over successive runs of `apply_knockback` with steps `ds[0..k]`, each
/// store related to the one before as that function ensures, record `i`
/// holds the knockback `kb_run` gives, and has moved by `kb_moved` as long
/// as its path stays inside the world.
pub proof fn lemma_knockback_calls(stores: Seq<Seq<EntityRecord>>, ds: Seq<u64>, i: int, k: int)
    requires
        0 <= k < stores.len(),
        k <= ds.len(),
        0 <= i < stores[0].len(),
        forall|j: int|
            0 <= j < k ==> (#[trigger] stores[j + 1]).len() == stores[j].len() && stores[j + 1][i] == knockback_ticked(
                stores[j][i],
                ds[j] as int,
            ),
        forall|j: int|
            0 <= j <= k ==> clamp_world(stores[0][i].transform.x + (#[trigger] kb_moved(stores[0][i].knockback, ds, j)).0)
                == stores[0][i].transform.x + kb_moved(stores[0][i].knockback, ds, j).0 && clamp_world(
                stores[0][i].transform.y + kb_moved(stores[0][i].knockback, ds, j).1,
            ) == stores[0][i].transform.y + kb_moved(stores[0][i].knockback, ds, j).1,
    ensures
        stores[k].len() == stores[0].len(),
        stores[k][i].knockback == kb_run(stores[0][i].knockback, ds, k),
        stores[k][i].transform.x == stores[0][i].transform.x + kb_moved(stores[0][i].knockback, ds, k).0,
        stores[k][i].transform.y == stores[0][i].transform.y + kb_moved(stores[0][i].knockback, ds, k).1,
    decreases k,
{
    if k > 0 {
        lemma_knockback_calls(stores, ds, i, k - 1);
        assert(stores[(k - 1) + 1][i] == knockback_ticked(stores[k - 1][i], ds[k - 1] as int));
        let m = kb_moved(stores[0][i].knockback, ds, k);
        assert(clamp_world(stores[0][i].transform.x + m.0) == stores[0][i].transform.x + m.0);
        assert(clamp_world(stores[0][i].transform.y + m.1) == stores[0][i].transform.y + m.1);
    }
}

/// A knockback of duration `d` run through successive calls of
/// `apply_knockback` whose steps add up to at least `d` has moved its
/// owner by exactly its displacement and is then gone; before that it is
/// still there.
pub proof fn lemma_knockback_decay_over_calls(kb: KnockBack, stores: Seq<Seq<EntityRecord>>, ds: Seq<u64>, i: int)
    requires
        kb.wf(),
        kb.duration.elapsed_us == 0,
        stores.len() == ds.len() + 1,
        0 <= i < stores[0].len(),
        stores[0][i].knockback == Some(kb),
        forall|j: int|
            0 <= j < ds.len() ==> (#[trigger] stores[j + 1]).len() == stores[j].len() && stores[j + 1][i]
                == knockback_ticked(stores[j][i], ds[j] as int),
        forall|j: int|
            0 <= j <= ds.len() ==> clamp_world(stores[0][i].transform.x + (#[trigger] kb_moved(Some(kb), ds, j)).0)
                == stores[0][i].transform.x + kb_moved(Some(kb), ds, j).0 && clamp_world(
                stores[0][i].transform.y + kb_moved(Some(kb), ds, j).1,
            ) == stores[0][i].transform.y + kb_moved(Some(kb), ds, j).1,
    ensures
        ({
            let last = stores[ds.len() as int][i];
            &&& total(ds, ds.len() as int) >= kb.duration.duration_us ==> last.knockback is None
                && last.transform.x == stores[0][i].transform.x + kb.displacement.x
                && last.transform.y == stores[0][i].transform.y + kb.displacement.y
            &&& total(ds, ds.len() as int) < kb.duration.duration_us ==> last.knockback is Some
        }),
{
    lemma_knockback_calls(stores, ds, i, ds.len() as int);
    lemma_knockback_decay(kb, ds);
}

} // verus!
