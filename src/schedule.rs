//! The world and its fixed per-tick phases: entity update, collision
//! detection, then combat.
use vstd::prelude::*;
use crate::collision::{
    CollisionEvent, collisions_current, detect_collisions, handle_collisions, role_events, same_but_collisions,
};
use crate::combat::{apply_knockback, knockback_collisions, knockback_ticked, with_knockbacks};
use crate::health::{
    cooldown_ticked, damage_all, despawn_dead_entities, is_dead, lemma_damage_all_ids, lemma_survivors_members,
    lemma_survivors_wf, survivors, take_damage,
    tick_damage_cooldown,
};
use crate::movement::{contain_all, keep_inside_walls, lemma_contain_all_ids, moved, update_position};
use crate::world::{Entity, EntityRecord, Role, find_entity, has_id, records_wf};

verus! {

/// All live entities, and the next identifier to hand out.
#[derive(Debug)]
pub struct World {
    pub entities: Vec<EntityRecord>,
    pub next_id: Entity,
}

/// A record after the entity-update phase: moved by its velocity, then by
/// its knockback, then its damage cooldown advanced.
pub open spec fn updated(e: EntityRecord, delta: int) -> EntityRecord {
    cooldown_ticked(knockback_ticked(moved(e, delta), delta), delta)
}

/// `d` is `u` after a detection pass.
pub open spec fn detected(u: Seq<EntityRecord>, d: Seq<EntityRecord>) -> bool {
    &&& d.len() == u.len()
    &&& forall|i: int| 0 <= i < u.len() ==> same_but_collisions(#[trigger] d[i], u[i])
    &&& collisions_current(d)
}

/// The events of one tick: those of players, then enemies, then daggers.
pub open spec fn tick_events(d: Seq<EntityRecord>) -> Seq<CollisionEvent> {
    role_events(d, Role::Player, d.len() as int) + role_events(d, Role::Enemy, d.len() as int) + role_events(
        d,
        Role::Dagger,
        d.len() as int,
    )
}

/// The store after the combat phase on detected store `d`.
pub open spec fn combat_result(d: Seq<EntityRecord>) -> Seq<EntityRecord> {
    let evs = tick_events(d);
    let n = evs.len() as int;
    let hurt = damage_all(
        damage_all(damage_all(d, evs, Role::Player, Role::Enemy, n), evs, Role::Enemy, Role::Dagger, n),
        evs,
        Role::Dagger,
        Role::Enemy,
        n,
    );
    let alive = survivors(hurt, hurt.len() as int);
    let knocked = with_knockbacks(alive, evs, Role::Player, Role::Enemy);
    contain_all(contain_all(knocked, evs, Role::Player, n), evs, Role::Enemy, n)
}

impl World {
    pub open spec fn wf(&self) -> bool {
        &&& records_wf(self.entities@)
        &&& forall|i: int| 0 <= i < self.entities@.len() ==> (#[trigger] self.entities@[i]).id < self.next_id
    }

    pub fn new() -> (r: World)
        ensures
            r.wf(),
            r.entities@.len() == 0,
            r.next_id == 0,
    {
        World { entities: Vec::new(), next_id: 0 }
    }

    pub fn len(&self) -> (r: usize)
        ensures
            r == self.entities@.len(),
    {
        self.entities.len()
    }

    /// Adds `rec` under a fresh identifier and returns that identifier.
    pub fn spawn(&mut self, rec: EntityRecord) -> (id: Entity)
        requires
            old(self).wf(),
            rec.wf(),
            old(self).next_id < u64::MAX,
        ensures
            final(self).wf(),
            id == old(self).next_id,
            final(self).next_id == old(self).next_id + 1,
            final(self).entities@ == old(self).entities@.push(EntityRecord { id, ..rec }),
    {
        let id = self.next_id;
        let mut rec = rec;
        rec.id = id;
        self.entities.push(rec);
        self.next_id = id + 1;
        proof {
            let s = self.entities@;
            assert forall|a: int, b: int| 0 <= a < s.len() && 0 <= b < s.len() && a != b implies #[trigger] s[a].id != #[trigger] s[b].id by {
                if a < s.len() - 1 && b < s.len() - 1 {
                    assert(old(self).entities@[a].id != old(self).entities@[b].id);
                } else if a < s.len() - 1 {
                    assert(old(self).entities@[a].id < id);
                } else {
                    assert(old(self).entities@[b].id < id);
                }
            }
            assert forall|k: int| 0 <= k < s.len() implies (#[trigger] s[k]).wf() by {
                if k < s.len() - 1 {
                    assert(old(self).entities@[k].wf());
                }
            }
            assert forall|k: int| 0 <= k < s.len() implies (#[trigger] s[k]).id < self.next_id by {
                if k < s.len() - 1 {
                    assert(old(self).entities@[k].id < id);
                }
            }
        }
        id
    }

    /// The record with identifier `id`, if it is alive.
    pub fn get(&self, id: Entity) -> (r: Option<&EntityRecord>)
        requires
            self.wf(),
        ensures
            r matches Some(e) ==> e.id == id && self.entities@.contains(*e),
            r is None ==> !has_id(self.entities@, id),
    {
        match find_entity(&self.entities, id) {
            Some(i) => {
                assert(self.entities@[i as int].id == id);
                Some(&self.entities[i])
            },
            None => None,
        }
    }

    /// The entity-update phase: velocities, knockbacks, then damage cooldowns.
    pub fn update_entities(&mut self, delta_us: u64)
        requires
            old(self).wf(),
            delta_us <= u32::MAX,
        ensures
            final(self).wf(),
            final(self).next_id == old(self).next_id,
            final(self).entities@.len() == old(self).entities@.len(),
            forall|i: int|
                0 <= i < old(self).entities@.len() ==> #[trigger] final(self).entities@[i] == updated(
                    old(self).entities@[i],
                    delta_us as int,
                ),
    {
        let ghost s0 = self.entities@;
        update_position(&mut self.entities, delta_us);
        let ghost s1 = self.entities@;
        apply_knockback(&mut self.entities, delta_us);
        let ghost s2 = self.entities@;
        tick_damage_cooldown(&mut self.entities, delta_us);
        proof {
            assert forall|i: int| 0 <= i < s0.len() implies #[trigger] self.entities@[i] == updated(s0[i], delta_us as int) by {
                assert(s1[i] == moved(s0[i], delta_us as int));
                assert(s2[i] == knockback_ticked(s1[i], delta_us as int));
            }
            assert forall|i: int| 0 <= i < self.entities@.len() implies (#[trigger] self.entities@[i]).id < self.next_id by {
                assert(s1[i] == moved(s0[i], delta_us as int));
                assert(s2[i] == knockback_ticked(s1[i], delta_us as int));
                assert(s0[i].id < self.next_id);
            }
        }
    }

    /// The collision-detection phase.
    pub fn detect(&mut self)
        requires
            old(self).wf(),
        ensures
            final(self).wf(),
            final(self).next_id == old(self).next_id,
            detected(old(self).entities@, final(self).entities@),
    {
        let ghost s0 = self.entities@;
        detect_collisions(&mut self.entities);
        proof {
            assert forall|i: int| 0 <= i < self.entities@.len() implies (#[trigger] self.entities@[i]).id < self.next_id by {
                assert(same_but_collisions(self.entities@[i], s0[i]));
                assert(s0[i].id < self.next_id);
            }
        }
    }

    /// The combat phase: events for players, enemies and daggers; damage to
    /// players from enemies, to enemies from daggers and to daggers from
    /// enemies; removal of the dead; knockback of players by enemies; and
    /// players and enemies pushed out of level walls.
    pub fn process_combat(&mut self)
        requires
            old(self).wf(),
        ensures
            final(self).wf(),
            final(self).next_id == old(self).next_id,
            final(self).entities@ == combat_result(old(self).entities@),
            forall|i: int| 0 <= i < final(self).entities@.len() ==> !is_dead(#[trigger] final(self).entities@[i]),
    {
        let ghost s0 = self.entities@;
        let mut events: Vec<CollisionEvent> = Vec::new();
        handle_collisions(&self.entities, Role::Player, &mut events);
        handle_collisions(&self.entities, Role::Enemy, &mut events);
        handle_collisions(&self.entities, Role::Dagger, &mut events);
        assert(events@ == tick_events(s0)) by {
            assert(Seq::<CollisionEvent>::empty() + role_events(s0, Role::Player, s0.len() as int) =~= role_events(
                s0,
                Role::Player,
                s0.len() as int,
            ));
        }
        take_damage(&mut self.entities, &events, Role::Player, Role::Enemy);
        take_damage(&mut self.entities, &events, Role::Enemy, Role::Dagger);
        take_damage(&mut self.entities, &events, Role::Dagger, Role::Enemy);
        let ghost hurt = self.entities@;
        proof {
            let n = events@.len() as int;
            let h1 = damage_all(s0, events@, Role::Player, Role::Enemy, n);
            let h2 = damage_all(h1, events@, Role::Enemy, Role::Dagger, n);
            lemma_damage_all_ids(s0, events@, Role::Player, Role::Enemy, n);
            lemma_damage_all_ids(h1, events@, Role::Enemy, Role::Dagger, n);
            lemma_damage_all_ids(h2, events@, Role::Dagger, Role::Enemy, n);
            assert forall|k: int| 0 <= k < hurt.len() implies #[trigger] hurt[k].id == s0[k].id by {
                assert(h1[k].id == s0[k].id);
                assert(h2[k].id == h1[k].id);
            }
        }
        despawn_dead_entities(&mut self.entities);
        proof {
            lemma_survivors_wf(hurt, hurt.len() as int);
        }
        let ghost alive = self.entities@;
        knockback_collisions(&mut self.entities, &events, Role::Player, Role::Enemy);
        let ghost knocked = self.entities@;
        keep_inside_walls(&mut self.entities, &events, Role::Player);
        keep_inside_walls(&mut self.entities, &events, Role::Enemy);
        proof {
            assert forall|i: int| 0 <= i < alive.len() implies (#[trigger] alive[i]).id < self.next_id by {
                let m = choose|m: int| 0 <= m < hurt.len() && #[trigger] hurt[m] == survivors(hurt, hurt.len() as int)[i];
                assert(hurt[m].id == s0[m].id);
                assert(s0[m].id < self.next_id);
            }
            let n = events@.len() as int;
            let c1 = contain_all(knocked, events@, Role::Player, n);
            lemma_contain_all_ids(knocked, events@, Role::Player, n);
            lemma_contain_all_ids(c1, events@, Role::Enemy, n);
            lemma_survivors_members(hurt, hurt.len() as int);
            assert forall|i: int| 0 <= i < self.entities@.len() implies (#[trigger] self.entities@[i]).id < self.next_id
                && !is_dead(self.entities@[i]) by {
                assert(c1[i].id == knocked[i].id);
                assert(knocked[i].id == alive[i].id);
                assert(c1[i].health == knocked[i].health);
                assert(knocked[i].health == alive[i].health);
                assert(!is_dead(alive[i]));
            }
        }
    }

    /// One full tick of the core: entity update, collision detection, combat.
    pub fn tick(&mut self, delta_us: u64)
        requires
            old(self).wf(),
            delta_us <= u32::MAX,
        ensures
            final(self).wf(),
            final(self).next_id == old(self).next_id,
            forall|i: int| 0 <= i < final(self).entities@.len() ==> !is_dead(#[trigger] final(self).entities@[i]),
            exists|u: Seq<EntityRecord>, d: Seq<EntityRecord>|
                u.len() == old(self).entities@.len() && (forall|i: int|
                    0 <= i < u.len() ==> #[trigger] u[i] == updated(old(self).entities@[i], delta_us as int))
                    && detected(u, d) && final(self).entities@ == combat_result(d),
    {
        self.update_entities(delta_us);
        let ghost u = self.entities@;
        self.detect();
        let ghost d = self.entities@;
        self.process_combat();
        assert(u.len() == old(self).entities@.len() && (forall|i: int|
            0 <= i < u.len() ==> #[trigger] u[i] == updated(old(self).entities@[i], delta_us as int)) && detected(u, d)
            && self.entities@ == combat_result(d));
    }
}

} // verus!
