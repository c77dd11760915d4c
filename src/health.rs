//! Health, contact damage with a cooldown window, and removal of the dead.
use vstd::prelude::*;
use crate::collision::CollisionEvent;
use crate::timer::{MAX_TIMER_US, Timer, TimerMode, total};
use crate::world::{EntityRecord, Role, find_entity, has_id, ids_unique, index_of, records_wf};

verus! {

/// Hit points, and how long the owner is immune after a hit (`None`: never).
#[derive(Clone, Copy, Debug, PartialEq, Eq, Structural)]
pub struct Health {
    pub amount: u32,
    pub cooldown: Option<u64>,
}

/// Present while its owner is immune to further contact damage.
#[derive(Clone, Copy, Debug, PartialEq, Eq, Structural)]
pub struct DamageCooldown {
    pub cooldown: Timer,
}

impl DamageCooldown {
    pub open spec fn wf(&self) -> bool {
        self.cooldown.wf() && self.cooldown.mode == TimerMode::Once
    }

    pub fn new(cooldown_us: u64) -> (r: DamageCooldown)
        requires
            0 < cooldown_us <= MAX_TIMER_US,
        ensures
            r.wf(),
            r.cooldown.duration_us == cooldown_us,
            r.cooldown.elapsed_us == 0,
    {
        DamageCooldown { cooldown: Timer::new(cooldown_us, TimerMode::Once) }
    }
}

/// What is left of `amount` after `damage`: never below zero.
pub open spec fn after_damage(amount: int, damage: int) -> int {
    if amount >= damage { amount - damage } else { 0 }
}

impl Health {
    pub open spec fn wf(&self) -> bool {
        self.cooldown matches Some(c) ==> 0 < c <= MAX_TIMER_US
    }

    pub fn new(amount: u32) -> (r: Health)
        ensures
            r.wf(),
            r.amount == amount,
            r.cooldown is None,
    {
        Health { amount, cooldown: None }
    }

    pub fn with_damage_cooldown(amount: u32, cooldown_us: u64) -> (r: Health)
        requires
            0 < cooldown_us <= MAX_TIMER_US,
        ensures
            r.wf(),
            r.amount == amount,
            r.cooldown == Some(cooldown_us),
    {
        Health { amount, cooldown: Some(cooldown_us) }
    }

    /// Health after taking `damage`, saturating at zero.
    pub fn apply(&self, damage: u32) -> (r: Health)
        ensures
            r.amount == after_damage(self.amount as int, damage as int),
            r.cooldown == self.cooldown,
    {
        Health { amount: self.amount.saturating_sub(damage), cooldown: self.cooldown }
    }
}

/// A receiver after a hit of `amount`: its health drops, saturating at zero,
/// and if its health names a cooldown, a fresh cooldown timer is attached.
pub open spec fn hit(e: EntityRecord, amount: u32) -> EntityRecord {
    let h = e.health.unwrap();
    EntityRecord {
        health: Some(Health { amount: after_damage(h.amount as int, amount as int) as u32, ..h }),
        damage_cooldown: match h.cooldown {
            Some(c) => Some(DamageCooldown { cooldown: Timer { duration_us: c, elapsed_us: 0, mode: TimerMode::Once } }),
            None => e.damage_cooldown,
        },
        ..e
    }
}

/// The event hurts its subject: the subject has the receiving role, health
/// and no active cooldown, and the other entity has the damaging role and
/// deals contact damage.
pub open spec fn event_hurts(ents: Seq<EntityRecord>, ev: CollisionEvent, receiver: Role, damager: Role) -> bool {
    let i = index_of(ents, ev.entity);
    let j = index_of(ents, ev.collided_with);
    &&& 0 <= i < ents.len()
    &&& 0 <= j < ents.len()
    &&& ents[i].role == receiver
    &&& ents[i].health is Some
    &&& ents[i].damage_cooldown is None
    &&& ents[j].role == damager
    &&& ents[j].damage is Some
}

/// The store after one event is resolved.
pub open spec fn damage_step(ents: Seq<EntityRecord>, ev: CollisionEvent, receiver: Role, damager: Role) -> Seq<EntityRecord> {
    if event_hurts(ents, ev, receiver, damager) {
        let i = index_of(ents, ev.entity);
        let j = index_of(ents, ev.collided_with);
        ents.update(i, hit(ents[i], ents[j].damage.unwrap().amount))
    } else {
        ents
    }
}

/// The store after the first `n` events are resolved in order.
pub open spec fn damage_all(
    ents: Seq<EntityRecord>,
    evs: Seq<CollisionEvent>,
    receiver: Role,
    damager: Role,
    n: int,
) -> Seq<EntityRecord>
    decreases n,
{
    if n <= 0 {
        ents
    } else {
        damage_step(damage_all(ents, evs, receiver, damager, n - 1), evs[n - 1], receiver, damager)
    }
}

/// Identifiers never change in a damage pass.
proof fn lemma_damage_step_ids(ents: Seq<EntityRecord>, ev: CollisionEvent, receiver: Role, damager: Role)
    requires
        records_wf(ents),
    ensures
        damage_step(ents, ev, receiver, damager).len() == ents.len(),
        forall|k: int| 0 <= k < ents.len() ==> (#[trigger] damage_step(ents, ev, receiver, damager)[k]).id == ents[k].id,
        records_wf(damage_step(ents, ev, receiver, damager)),
{
    let r = damage_step(ents, ev, receiver, damager);
    if event_hurts(ents, ev, receiver, damager) {
        let i = index_of(ents, ev.entity);
        let h = ents[i].health.unwrap();
        assert(ents[i].wf());
        assert(r[i].wf());
        assert forall|k: int| 0 <= k < r.len() implies (#[trigger] r[k]).wf() by {
            if k != i {
                assert(ents[k].wf());
            }
        }
        assert forall|a: int, b: int| 0 <= a < r.len() && 0 <= b < r.len() && a != b implies #[trigger] r[a].id != #[trigger] r[b].id by {
            assert(ents[a].id != ents[b].id);
        }
    }
}

/// Applies contact damage for each event whose subject has the receiving
/// role and whose other entity has the damaging role, in event order. A
/// receiver under cooldown takes nothing; a hit starts the receiver's
/// cooldown if its health names one.
pub fn take_damage(ents: &mut Vec<EntityRecord>, events: &Vec<CollisionEvent>, receiver: Role, damager: Role)
    requires
        records_wf(old(ents)@),
    ensures
        final(ents)@ == damage_all(old(ents)@, events@, receiver, damager, events@.len() as int),
        records_wf(final(ents)@),
{
    let ghost start = ents@;
    let mut k: usize = 0;
    while k < events.len()
        invariant
            k <= events@.len(),
            ents@ == damage_all(start, events@, receiver, damager, k as int),
            records_wf(ents@),
        decreases events@.len() - k,
    {
        let ev = events[k];
        let ghost before = ents@;
        proof {
            lemma_damage_step_ids(before, ev, receiver, damager);
        }
        match crate::world::find_entity(ents, ev.entity) {
            Some(i) => match crate::world::find_entity(ents, ev.collided_with) {
                Some(j) => {
                    if ents[i].role == receiver && ents[j].role == damager && ents[i].damage_cooldown.is_none() {
                        match (ents[i].health, ents[j].damage) {
                            (Some(h), Some(d)) => {
                                ents[i].health = Some(h.apply(d.amount));
                                match h.cooldown {
                                    Some(c) => {
                                        ents[i].damage_cooldown = Some(DamageCooldown::new(c));
                                    },
                                    None => {},
                                }
                                assert(ents@ =~= damage_step(before, ev, receiver, damager));
                            },
                            _ => {},
                        }
                    }
                },
                None => {},
            },
            None => {},
        }
        k += 1;
    }
}

/// A record is dead when it has health and none of it is left.
pub open spec fn is_dead(e: EntityRecord) -> bool {
    e.health matches Some(h) && h.amount == 0
}

/// Record `i` goes with the dead: it is dead, or within `k` steps up its
/// chain of parents one of its ancestors is.
pub open spec fn doomed(ents: Seq<EntityRecord>, i: int, k: nat) -> bool
    decreases k,
{
    is_dead(ents[i]) || (k > 0 && (ents[i].parent matches Some(p) && has_id(ents, p) && doomed(
        ents,
        index_of(ents, p),
        (k - 1) as nat,
    )))
}

/// Record `i` is removed: it or an ancestor is dead (a chain of parents
/// longer than the store repeats itself, so its length is enough).
pub open spec fn removed(ents: Seq<EntityRecord>, i: int) -> bool {
    doomed(ents, i, ents.len() as nat)
}

/// The records among the first `n` that are not removed, in order.
pub open spec fn survivors(ents: Seq<EntityRecord>, n: int) -> Seq<EntityRecord>
    decreases n,
{
    if n <= 0 {
        seq![]
    } else if removed(ents, n - 1) {
        survivors(ents, n - 1)
    } else {
        survivors(ents, n - 1).push(ents[n - 1])
    }
}

pub proof fn lemma_survivors_members(ents: Seq<EntityRecord>, n: int)
    requires
        0 <= n <= ents.len(),
    ensures
        forall|k: int| 0 <= k < survivors(ents, n).len() ==> !is_dead(#[trigger] survivors(ents, n)[k]),
        forall|k: int| 0 <= k < n && !removed(ents, k) ==> survivors(ents, n).contains(#[trigger] ents[k]),
        forall|k: int| 0 <= k < survivors(ents, n).len() ==> ents.subrange(0, n).contains(#[trigger] survivors(ents, n)[k]),
    decreases n,
{
    if n > 0 {
        lemma_survivors_members(ents, n - 1);
        let s = survivors(ents, n - 1);
        if !removed(ents, n - 1) {
            assert(s.push(ents[n - 1])[s.len() as int] == ents[n - 1]);
            assert forall|k: int| 0 <= k < n && !removed(ents, k) implies s.push(ents[n - 1]).contains(#[trigger] ents[k]) by {
                if k < n - 1 {
                    let m = choose|m: int| 0 <= m < s.len() && s[m] == ents[k];
                    assert(s.push(ents[n - 1])[m] == ents[k]);
                }
            }
        }
        assert forall|k: int| 0 <= k < survivors(ents, n).len() implies ents.subrange(0, n).contains(#[trigger] survivors(ents, n)[k]) by {
            if k < s.len() {
                let sub = ents.subrange(0, n - 1);
                let m = choose|m: int| 0 <= m < sub.len() && #[trigger] sub[m] == s[k];
                assert(ents.subrange(0, n)[m] == s[k]);
            } else {
                assert(ents.subrange(0, n)[n - 1] == ents[n - 1]);
            }
        }
    }
}

proof fn lemma_doomed_grows(ents: Seq<EntityRecord>, i: int, k: nat)
    requires
        doomed(ents, i, k),
    ensures
        doomed(ents, i, k + 1),
    decreases k,
{
    if !is_dead(ents[i]) {
        let p = ents[i].parent.unwrap();
        lemma_doomed_grows(ents, index_of(ents, p), (k - 1) as nat);
    }
}

/// Which records are doomed within `k` steps, as flags.
fn doomed_flags(ents: &Vec<EntityRecord>, parents: &Vec<Option<usize>>, k: usize) -> (marks: Vec<bool>)
    requires
        parents@.len() == ents@.len(),
        forall|i: int|
            0 <= i < ents@.len() ==> #[trigger] parents@[i] == if ents@[i].parent matches Some(p) && has_id(ents@, p) {
                Some(index_of(ents@, ents@[i].parent.unwrap()) as usize)
            } else {
                None
            },
        forall|i: int| 0 <= i < ents@.len() ==> (#[trigger] parents@[i] matches Some(j) ==> j < ents@.len()),
    ensures
        marks@.len() == ents@.len(),
        forall|i: int| 0 <= i < ents@.len() ==> #[trigger] marks@[i] == doomed(ents@, i, k as nat),
{
    let n = ents.len();
    let mut marks: Vec<bool> = Vec::new();
    let mut i: usize = 0;
    while i < n
        invariant
            n == ents@.len(),
            i <= n,
            marks@.len() == i,
            forall|m: int| 0 <= m < i ==> #[trigger] marks@[m] == doomed(ents@, m, 0),
        decreases n - i,
    {
        let dead = match &ents[i].health {
            Some(h) => h.amount == 0,
            None => false,
        };
        marks.push(dead);
        i += 1;
    }
    let mut round: usize = 0;
    while round < k
        invariant
            n == ents@.len(),
            parents@.len() == n,
            round <= k,
            marks@.len() == n,
            forall|m: int|
                0 <= m < n ==> #[trigger] parents@[m] == if ents@[m].parent matches Some(p) && has_id(ents@, p) {
                    Some(index_of(ents@, ents@[m].parent.unwrap()) as usize)
                } else {
                    None
                },
            forall|m: int| 0 <= m < n ==> (#[trigger] parents@[m] matches Some(j) ==> j < n),
            forall|m: int| 0 <= m < n ==> #[trigger] marks@[m] == doomed(ents@, m, round as nat),
        decreases k - round,
    {
        let mut next: Vec<bool> = Vec::new();
        let mut i: usize = 0;
        while i < n
            invariant
                n == ents@.len(),
                parents@.len() == n,
                marks@.len() == n,
                i <= n,
                next@.len() == i,
                forall|m: int|
                    0 <= m < n ==> #[trigger] parents@[m] == if ents@[m].parent matches Some(p) && has_id(ents@, p) {
                        Some(index_of(ents@, ents@[m].parent.unwrap()) as usize)
                    } else {
                        None
                    },
                forall|m: int| 0 <= m < n ==> (#[trigger] parents@[m] matches Some(j) ==> j < n),
                forall|m: int| 0 <= m < n ==> #[trigger] marks@[m] == doomed(ents@, m, round as nat),
                forall|m: int| 0 <= m < i ==> #[trigger] next@[m] == doomed(ents@, m, (round + 1) as nat),
            decreases n - i,
        {
            let up = match parents[i] {
                Some(j) => marks[j],
                None => false,
            };
            proof {
                if marks@[i as int] {
                    lemma_doomed_grows(ents@, i as int, round as nat);
                }
                if doomed(ents@, i as int, (round + 1) as nat) && !is_dead(ents@[i as int]) {
                    assert(up);
                }
            }
            next.push(marks[i] || up);
            i += 1;
        }
        marks = next;
        round += 1;
    }
    marks
}

/// Removes every entity whose health has reached zero, together with every
/// entity attached to one of them, directly or through other attachments.
pub fn despawn_dead_entities(ents: &mut Vec<EntityRecord>)
    requires
        ids_unique(old(ents)@),
    ensures
        final(ents)@ == survivors(old(ents)@, old(ents)@.len() as int),
{
    let ghost start = ents@;
    let n = ents.len();
    let mut parents: Vec<Option<usize>> = Vec::new();
    let mut i: usize = 0;
    while i < n
        invariant
            ents@ == start,
            ids_unique(start),
            n == start.len(),
            i <= n,
            parents@.len() == i,
            forall|m: int|
                0 <= m < i ==> #[trigger] parents@[m] == if start[m].parent matches Some(p) && has_id(start, p) {
                    Some(index_of(start, start[m].parent.unwrap()) as usize)
                } else {
                    None
                },
            forall|m: int| 0 <= m < i ==> (#[trigger] parents@[m] matches Some(j) ==> j < n),
        decreases n - i,
    {
        let up = match ents[i].parent {
            Some(p) => find_entity(ents, p),
            None => None,
        };
        parents.push(up);
        i += 1;
    }
    let marks = doomed_flags(ents, &parents, n);
    let mut k: usize = 0;
    let mut i: usize = 0;
    while i < ents.len()
        invariant
            k <= start.len(),
            start.len() == n,
            marks@.len() == n,
            forall|m: int| 0 <= m < n ==> #[trigger] marks@[m] == removed(start, m),
            i == survivors(start, k as int).len(),
            ents@ == survivors(start, k as int) + start.subrange(k as int, start.len() as int),
        decreases ents@.len() - i,
    {
        assert(ents@.len() == i + (start.len() - k));
        assert(ents@[i as int] == start[k as int]);
        if marks[k] {
            ents.remove(i);
            assert(ents@ =~= survivors(start, k + 1) + start.subrange(k + 1, start.len() as int));
        } else {
            assert(ents@ =~= survivors(start, k + 1) + start.subrange(k + 1, start.len() as int));
            i += 1;
        }
        k += 1;
    }
    assert(start.subrange(k as int, start.len() as int) =~= Seq::<EntityRecord>::empty());
    assert(ents@ =~= survivors(start, start.len() as int));
}

/// A record after its cooldown timer runs for `delta` microseconds: the
/// cooldown is removed on the step that reaches its duration.
pub open spec fn cooldown_ticked(e: EntityRecord, delta: int) -> EntityRecord {
    match e.damage_cooldown {
        Some(dc) => if dc.cooldown.elapsed_us + delta >= dc.cooldown.duration_us {
            EntityRecord { damage_cooldown: None, ..e }
        } else {
            EntityRecord {
                damage_cooldown: Some(
                    DamageCooldown { cooldown: Timer { elapsed_us: (dc.cooldown.elapsed_us + delta) as u64, ..dc.cooldown } },
                ),
                ..e
            }
        },
        None => e,
    }
}

/// Advances every active damage cooldown by `delta_us` and removes those
/// that complete.
pub fn tick_damage_cooldown(ents: &mut Vec<EntityRecord>, delta_us: u64)
    requires
        records_wf(old(ents)@),
        delta_us <= u32::MAX,
    ensures
        final(ents)@.len() == old(ents)@.len(),
        forall|i: int| 0 <= i < old(ents)@.len() ==> #[trigger] final(ents)@[i] == cooldown_ticked(old(ents)@[i], delta_us as int),
        records_wf(final(ents)@),
{
    let ghost start = ents@;
    let n = ents.len();
    let mut i: usize = 0;
    while i < n
        invariant
            n == ents@.len(),
            start.len() == n,
            records_wf(start),
            i <= n,
            delta_us <= u32::MAX,
            forall|k: int| 0 <= k < i ==> #[trigger] ents@[k] == cooldown_ticked(start[k], delta_us as int),
            forall|k: int| i <= k < n ==> #[trigger] ents@[k] == start[k],
        decreases n - i,
    {
        assert(ents@[i as int] == start[i as int]);
        assert(start[i as int].wf());
        match ents[i].damage_cooldown {
            Some(dc) => {
                let mut t = dc.cooldown;
                t.tick(delta_us);
                if t.finished() {
                    ents[i].damage_cooldown = None;
                } else {
                    ents[i].damage_cooldown = Some(DamageCooldown { cooldown: t });
                }
            },
            None => {},
        }
        i += 1;
    }
    proof {
        assert forall|k: int| 0 <= k < n implies (#[trigger] ents@[k]).wf() by {
            assert(start[k].wf());
        }
        assert forall|a: int, b: int| 0 <= a < n && 0 <= b < n && a != b implies #[trigger] ents@[a].id != #[trigger] ents@[b].id by {
            assert(start[a].id != start[b].id);
        }
    }
}

/// A record after its cooldown runs through the steps `ds[0..n]` in turn.
pub open spec fn cooldown_ticked_many(e: EntityRecord, ds: Seq<u64>, n: int) -> EntityRecord
    decreases n,
{
    if n <= 0 {
        e
    } else {
        cooldown_ticked(cooldown_ticked_many(e, ds, n - 1), ds[n - 1] as int)
    }
}

proof fn lemma_cooldown_runs(e: EntityRecord, ds: Seq<u64>, n: int)
    requires
        0 <= n <= ds.len(),
        e.damage_cooldown matches Some(dc) && dc.cooldown.elapsed_us == 0 && dc.cooldown.duration_us > 0,
    ensures
        ({
            let r = cooldown_ticked_many(e, ds, n);
            let c = e.damage_cooldown.unwrap().cooldown.duration_us;
            &&& r.health == e.health
            &&& total(ds, n) < c ==> (r.damage_cooldown matches Some(rc) && rc.cooldown.elapsed_us == total(ds, n)
                && rc.cooldown.duration_us == c)
            &&& total(ds, n) >= c ==> r.damage_cooldown is None
        }),
    decreases n,
{
    if n > 0 {
        lemma_cooldown_runs(e, ds, n - 1);
    }
}

/// Damage lands at most once per cooldown window: once a hit starts a
/// cooldown of `c` microseconds, the receiver stays immune (keeping its
/// health) until the time ticked since reaches `c`, and is exposed again
/// from then on.
pub proof fn lemma_cooldown_gating(e: EntityRecord, amount: u32, ds: Seq<u64>)
    requires
        e.health matches Some(h) && h.cooldown matches Some(c) && c > 0,
    ensures
        ({
            let struck = hit(e, amount);
            let later = cooldown_ticked_many(struck, ds, ds.len() as int);
            let c = e.health.unwrap().cooldown.unwrap();
            &&& struck.health.unwrap().amount == after_damage(e.health.unwrap().amount as int, amount as int)
            &&& total(ds, ds.len() as int) < c ==> later.damage_cooldown is Some && later.health == struck.health
            &&& total(ds, ds.len() as int) >= c ==> later.damage_cooldown is None
        }),
{
    lemma_cooldown_runs(hit(e, amount), ds, ds.len() as int);
}

/// An event whose subject is under cooldown changes nothing.
pub proof fn lemma_cooldown_blocks(ents: Seq<EntityRecord>, ev: CollisionEvent, receiver: Role, damager: Role)
    requires
        0 <= index_of(ents, ev.entity) < ents.len(),
        ents[index_of(ents, ev.entity)].damage_cooldown is Some,
    ensures
        damage_step(ents, ev, receiver, damager) == ents,
{
}

/// Health saturates: what is left is `amount - damage`, or zero when the
/// damage exceeds it, and more damage on zero health leaves zero.
pub proof fn lemma_damage_saturates(h: Health, damage: u32, more: u32)
    ensures
        after_damage(h.amount as int, damage as int) == if h.amount >= damage { h.amount - damage } else { 0 },
        after_damage(h.amount as int, damage as int) >= 0,
        after_damage(0, more as int) == 0,
{
}

/// After removal of the dead, no remaining record has zero health; a
/// record with health left that is attached to nothing stays; and a record
/// attached to a dead one goes with it.
pub proof fn lemma_despawn_threshold(ents: Seq<EntityRecord>)
    ensures
        forall|k: int|
            0 <= k < survivors(ents, ents.len() as int).len() ==> !is_dead(#[trigger] survivors(ents, ents.len() as int)[k]),
        forall|k: int|
            0 <= k < ents.len() && is_dead(#[trigger] ents[k]) ==> !survivors(ents, ents.len() as int).contains(ents[k]),
        forall|k: int|
            0 <= k < ents.len() && !is_dead(#[trigger] ents[k]) && ents[k].parent is None ==> survivors(
                ents,
                ents.len() as int,
            ).contains(ents[k]),
        forall|k: int|
            0 <= k < ents.len() && ((#[trigger] ents[k]).parent matches Some(p) && has_id(ents, p) && is_dead(
                ents[index_of(ents, p)],
            )) ==> removed(ents, k),
{
    lemma_survivors_members(ents, ents.len() as int);
    assert forall|k: int| 0 <= k < ents.len() && !is_dead(#[trigger] ents[k]) && ents[k].parent is None implies survivors(
        ents,
        ents.len() as int,
    ).contains(ents[k]) by {
        assert(!removed(ents, k));
    }
    assert forall|k: int|
        0 <= k < ents.len() && ((#[trigger] ents[k]).parent matches Some(p) && has_id(ents, p) && is_dead(
            ents[index_of(ents, p)],
        )) implies removed(ents, k) by {
        let p = ents[k].parent.unwrap();
        assert(doomed(ents, index_of(ents, p), (ents.len() - 1) as nat));
    }
}

/// Removing the dead keeps identifiers unique and records well formed, and
/// keeps only records that were there.
pub proof fn lemma_survivors_wf(ents: Seq<EntityRecord>, n: int)
    requires
        records_wf(ents),
        0 <= n <= ents.len(),
    ensures
        records_wf(survivors(ents, n)),
        forall|k: int| #![trigger survivors(ents, n)[k]] 0 <= k < survivors(ents, n).len() ==> exists|m: int| 0 <= m < n && #[trigger] ents[m] == survivors(ents, n)[k],
    decreases n,
{
    if n > 0 {
        lemma_survivors_wf(ents, n - 1);
        let s = survivors(ents, n - 1);
        if !removed(ents, n - 1) {
            let t = s.push(ents[n - 1]);
            assert forall|k: int| #![trigger t[k]] 0 <= k < t.len() implies exists|m: int| 0 <= m < n && #[trigger] ents[m] == t[k] by {
                if k < s.len() {
                    let m = choose|m: int| 0 <= m < n - 1 && #[trigger] ents[m] == s[k];
                    assert(ents[m] == t[k]);
                } else {
                    assert(ents[n - 1] == t[k]);
                }
            }
            assert forall|a: int, b: int| 0 <= a < t.len() && 0 <= b < t.len() && a != b implies #[trigger] t[a].id != #[trigger] t[b].id by {
                if a < s.len() && b < s.len() {
                    assert(s[a].id != s[b].id);
                } else if a < s.len() {
                    let m = choose|m: int| 0 <= m < n - 1 && #[trigger] ents[m] == s[a];
                    assert(ents[m].id != ents[n - 1].id);
                } else {
                    let m = choose|m: int| 0 <= m < n - 1 && #[trigger] ents[m] == s[b];
                    assert(ents[m].id != ents[n - 1].id);
                }
            }
            assert forall|k: int| 0 <= k < t.len() implies (#[trigger] t[k]).wf() by {
                if k < s.len() {
                    assert(s[k].wf());
                } else {
                    assert(ents[n - 1].wf());
                }
            }
        }
    }
}

/// A damage pass keeps every record's identifier in place.
pub proof fn lemma_damage_all_ids(ents: Seq<EntityRecord>, evs: Seq<CollisionEvent>, receiver: Role, damager: Role, n: int)
    requires
        records_wf(ents),
    ensures
        damage_all(ents, evs, receiver, damager, n).len() == ents.len(),
        forall|k: int| 0 <= k < ents.len() ==> (#[trigger] damage_all(ents, evs, receiver, damager, n)[k]).id == ents[k].id,
        records_wf(damage_all(ents, evs, receiver, damager, n)),
    decreases n,
{
    if n > 0 {
        lemma_damage_all_ids(ents, evs, receiver, damager, n - 1);
        lemma_damage_step_ids(damage_all(ents, evs, receiver, damager, n - 1), evs[n - 1], receiver, damager);
    }
}

/// Over successive runs of `tick_damage_cooldown` with steps `ds[0..k]`,
/// each store related to the one before as that function ensures, record
/// `i` ends where `cooldown_ticked_many` takes it.
pub proof fn lemma_cooldown_calls(stores: Seq<Seq<EntityRecord>>, ds: Seq<u64>, i: int, k: int)
    requires
        0 <= k < stores.len(),
        k <= ds.len(),
        0 <= i < stores[0].len(),
        forall|j: int|
            0 <= j < k ==> (#[trigger] stores[j + 1]).len() == stores[j].len() && stores[j + 1][i] == cooldown_ticked(
                stores[j][i],
                ds[j] as int,
            ),
    ensures
        stores[k].len() == stores[0].len(),
        stores[k][i] == cooldown_ticked_many(stores[0][i], ds, k),
    decreases k,
{
    if k > 0 {
        lemma_cooldown_calls(stores, ds, i, k - 1);
        assert(stores[(k - 1) + 1][i] == cooldown_ticked(stores[k - 1][i], ds[k - 1] as int));
    }
}

/// Damage lands at most once per cooldown window, over successive runs of
/// `tick_damage_cooldown`: after a hit that starts a cooldown of `c`, record
/// `i` keeps its cooldown (and its health) while the steps add up to less
/// than `c`, and has lost it once they reach `c`.
pub proof fn lemma_cooldown_gating_over_calls(e: EntityRecord, amount: u32, stores: Seq<Seq<EntityRecord>>, ds: Seq<u64>, i: int)
    requires
        e.health matches Some(h) && h.cooldown matches Some(c) && c > 0,
        stores.len() == ds.len() + 1,
        0 <= i < stores[0].len(),
        stores[0][i] == hit(e, amount),
        forall|j: int|
            0 <= j < ds.len() ==> (#[trigger] stores[j + 1]).len() == stores[j].len() && stores[j + 1][i]
                == cooldown_ticked(stores[j][i], ds[j] as int),
    ensures
        ({
            let last = stores[ds.len() as int][i];
            let c = e.health.unwrap().cooldown.unwrap();
            &&& total(ds, ds.len() as int) < c ==> last.damage_cooldown is Some && last.health == hit(e, amount).health
            &&& total(ds, ds.len() as int) >= c ==> last.damage_cooldown is None
        }),
{
    lemma_cooldown_calls(stores, ds, i, ds.len() as int);
    lemma_cooldown_gating(e, amount, ds);
}

} // verus!
