//! The entity store: one record per live entity, with its optional parts.
use vstd::prelude::*;
use crate::collision::{Collider, CollisionDamage};
use crate::combat::KnockBack;
use crate::geometry::Vec3;
use crate::health::{DamageCooldown, Health};
use crate::movement::Velocity;
use crate::timer::{Timer, TimerMode};

verus! {

/// An opaque entity identifier.
pub type Entity = u64;

/// What an entity is, for the systems that filter by kind.
#[derive(Clone, Copy, Debug, PartialEq, Eq, Structural)]
pub enum Role {
    Player,
    Enemy,
    Dagger,
    /// A collider built from a level's wall tiles.
    WallTile,
    /// One of the map's outer walls.
    Wall,
    /// Anything else: scenery, effects.
    Prop,
}

/// One entity and the parts attached to it.
#[derive(Debug)]
pub struct EntityRecord {
    pub id: Entity,
    pub role: Role,
    pub transform: Vec3,
    pub collider: Option<Collider>,
    pub damage: Option<CollisionDamage>,
    pub health: Option<Health>,
    pub damage_cooldown: Option<DamageCooldown>,
    pub knockback: Option<KnockBack>,
    pub velocity: Option<Velocity>,
    /// The repeating timer of a weapon its owner throws.
    pub weapon: Option<Timer>,
    /// The entity this one is attached to; it is removed along with it.
    pub parent: Option<Entity>,
}

impl EntityRecord {
    pub open spec fn wf(&self) -> bool {
        &&& self.transform.in_world()
        &&& (self.collider matches Some(c) ==> c.wf())
        &&& (self.damage_cooldown matches Some(d) ==> d.wf())
        &&& (self.knockback matches Some(k) ==> k.wf())
        &&& (self.velocity matches Some(v) ==> v.wf())
        &&& (self.health matches Some(h) ==> h.wf())
        &&& (self.weapon matches Some(w) ==> w.wf() && w.mode == TimerMode::Repeating)
    }

    /// A bare entity of the given kind at the given place.
    pub fn new(id: Entity, role: Role, transform: Vec3) -> (r: EntityRecord)
        ensures
            r.id == id,
            r.role == role,
            r.transform == transform,
            r.collider is None,
            r.damage is None,
            r.health is None,
            r.damage_cooldown is None,
            r.knockback is None,
            r.velocity is None,
            r.weapon is None,
            r.parent is None,
    {
        EntityRecord {
            id,
            role,
            transform,
            collider: None,
            damage: None,
            health: None,
            damage_cooldown: None,
            knockback: None,
            velocity: None,
            weapon: None,
            parent: None,
        }
    }
}

/// No two records share an identifier.
pub open spec fn ids_unique(ents: Seq<EntityRecord>) -> bool {
    forall|i: int, j: int|
        0 <= i < ents.len() && 0 <= j < ents.len() && i != j ==> #[trigger] ents[i].id != #[trigger] ents[j].id
}

/// Every record is well formed and identifiers are unique.
pub open spec fn records_wf(ents: Seq<EntityRecord>) -> bool {
    &&& ids_unique(ents)
    &&& forall|i: int| 0 <= i < ents.len() ==> (#[trigger] ents[i]).wf()
}

/// Whether some record has identifier `id`.
pub open spec fn has_id(ents: Seq<EntityRecord>, id: Entity) -> bool {
    exists|i: int| 0 <= i < ents.len() && (#[trigger] ents[i]).id == id
}

/// The position of the record with identifier `id`, or -1.
pub open spec fn index_of(ents: Seq<EntityRecord>, id: Entity) -> int {
    if has_id(ents, id) {
        choose|i: int| 0 <= i < ents.len() && (#[trigger] ents[i]).id == id
    } else {
        -1
    }
}

pub proof fn lemma_index_of(ents: Seq<EntityRecord>, i: int)
    requires
        ids_unique(ents),
        0 <= i < ents.len(),
    ensures
        index_of(ents, ents[i].id) == i,
{
    assert(has_id(ents, ents[i].id));
}

/// Looks up the record with identifier `id`.
pub fn find_entity(ents: &Vec<EntityRecord>, id: Entity) -> (r: Option<usize>)
    requires
        ids_unique(ents@),
    ensures
        r matches Some(i) ==> i == index_of(ents@, id) && i < ents@.len(),
        r is None ==> !has_id(ents@, id) && index_of(ents@, id) == -1,
{
    let mut i: usize = 0;
    while i < ents.len()
        invariant
            i <= ents@.len(),
            ids_unique(ents@),
            forall|k: int| 0 <= k < i ==> (#[trigger] ents@[k]).id != id,
        decreases ents@.len() - i,
    {
        if ents[i].id == id {
            proof {
                lemma_index_of(ents@, i as int);
            }
            return Some(i);
        }
        i += 1;
    }
    None
}

/// How many of the first `n` records have the given role.
pub open spec fn count_role(ents: Seq<EntityRecord>, role: Role, n: int) -> int
    decreases n,
{
    if n <= 0 {
        0
    } else {
        count_role(ents, role, n - 1) + if ents[n - 1].role == role { 1int } else { 0int }
    }
}

/// The position of the one record of `role`, when there is exactly one.
pub open spec fn single_of(ents: Seq<EntityRecord>, role: Role) -> int {
    if count_role(ents, role, ents.len() as int) == 1 {
        choose|i: int| 0 <= i < ents.len() && (#[trigger] ents[i]).role == role
    } else {
        -1
    }
}

/// Finds the one record of `role`; `None` when there is none or more than one.
pub fn find_single(ents: &Vec<EntityRecord>, role: Role) -> (r: Option<usize>)
    ensures
        r matches Some(i) ==> i == single_of(ents@, role) && i < ents@.len() && ents@[i as int].role == role,
        r is None ==> single_of(ents@, role) == -1,
{
    let mut found: Option<usize> = None;
    let mut count: usize = 0;
    let mut i: usize = 0;
    while i < ents.len()
        invariant
            i <= ents@.len(),
            count <= i,
            count == count_role(ents@, role, i as int),
            count == 0 ==> found is None,
            count == 0 ==> forall|k: int| 0 <= k < i ==> (#[trigger] ents@[k]).role != role,
            found matches Some(f) ==> f < i && ents@[f as int].role == role,
            count >= 1 ==> found is Some,
            count == 1 ==> forall|k: int| 0 <= k < i && (#[trigger] ents@[k]).role == role ==> k == found.unwrap(),
        decreases ents@.len() - i,
    {
        if ents[i].role == role {
            if count == 0 {
                found = Some(i);
            }
            count = count + 1;
        }
        i += 1;
    }
    if count == 1 {
        let f = found.unwrap();
        proof {
            let c = choose|k: int| 0 <= k < ents@.len() && (#[trigger] ents@[k]).role == role;
            assert(ents@[f as int].role == role);
            assert(c == f);
        }
        found
    } else {
        None
    }
}

} // verus!
