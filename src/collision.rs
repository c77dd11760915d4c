//! Colliders, all-pairs overlap detection, and collision events.
use vstd::prelude::*;
use crate::geometry::{Rect, Vec2, Vec3};
use crate::world::{Entity, EntityRecord, Role, records_wf};

verus! {

/// One ordered overlapping pair: `entity` overlaps `collided_with`.
#[derive(Clone, Copy, Debug, PartialEq, Eq, Structural)]
pub struct CollisionEvent {
    pub entity: Entity,
    pub collided_with: Entity,
}

impl CollisionEvent {
    pub fn new(entity: Entity, collided_with: Entity) -> (r: CollisionEvent)
        ensures
            r.entity == entity && r.collided_with == collided_with,
    {
        CollisionEvent { entity, collided_with }
    }
}

/// Contact damage dealt by its owner.
#[derive(Clone, Copy, Debug, PartialEq, Eq, Structural)]
pub struct CollisionDamage {
    pub amount: u32,
}

impl CollisionDamage {
    pub fn new(amount: u32) -> (r: CollisionDamage)
        ensures
            r.amount == amount,
    {
        CollisionDamage { amount }
    }
}

/// A rectangle of `size` centered at the owner's position plus `offset`.
/// `collisions` caches the entities that overlapped it at the last detection
/// pass and is valid only until the next one.
#[derive(Debug)]
pub struct Collider {
    pub size: Vec2,
    pub offset: Vec2,
    pub collisions: Vec<Entity>,
}

impl Collider {
    pub open spec fn wf(&self) -> bool {
        &&& self.size.in_world()
        &&& self.offset.in_world()
        &&& self.size.x >= 0
        &&& self.size.y >= 0
    }

    /// The rectangle this collider covers when its owner stands at `t`.
    pub open spec fn rect_at(&self, t: Vec3) -> Rect {
        Rect::centered_spec(Vec2 { x: (t.x + self.offset.x) as i64, y: (t.y + self.offset.y) as i64 }, self.size)
    }

    pub fn new(size: Vec2) -> (r: Collider)
        ensures
            r.size == size,
            r.offset == Vec2::zero_spec(),
            r.collisions@.len() == 0,
    {
        Collider::with_size_and_offset(size, Vec2::zero())
    }

    pub fn with_size_and_offset(size: Vec2, offset: Vec2) -> (r: Collider)
        ensures
            r.size == size,
            r.offset == offset,
            r.collisions@.len() == 0,
    {
        Collider { size, offset, collisions: Vec::new() }
    }

    pub fn to_rect_at(&self, transform: &Vec3) -> (r: Rect)
        requires
            self.wf(),
            transform.in_world(),
        ensures
            r == self.rect_at(*transform),
            r.bounded(),
    {
        let center = Vec2 { x: transform.x + self.offset.x, y: transform.y + self.offset.y };
        Rect::from_center_size(center, self.size)
    }
}

impl Default for Collider {
    fn default() -> (r: Collider)
        ensures
            r.size == Vec2::zero_spec(),
            r.offset == Vec2::zero_spec(),
            r.collisions@.len() == 0,
    {
        Collider::new(Vec2::zero())
    }
}

/// `a` and `b` both carry a collider and their rectangles overlap.
pub open spec fn collides(a: EntityRecord, b: EntityRecord) -> bool {
    &&& a.collider is Some
    &&& b.collider is Some
    &&& a.collider.unwrap().rect_at(a.transform).overlaps(b.collider.unwrap().rect_at(b.transform))
}

/// The identifiers, in store order, of the records among the first `n` other
/// than `i` whose rectangle overlaps that of record `i`.
pub open spec fn overlaps_prefix(ents: Seq<EntityRecord>, i: int, n: int) -> Seq<Entity>
    decreases n,
{
    if n <= 0 {
        seq![]
    } else {
        let before = overlaps_prefix(ents, i, n - 1);
        if n - 1 != i && collides(ents[i], ents[n - 1]) {
            before.push(ents[n - 1].id)
        } else {
            before
        }
    }
}

/// What a detection pass stores in the collider of record `i`.
pub open spec fn overlap_list(ents: Seq<EntityRecord>, i: int) -> Seq<Entity> {
    overlaps_prefix(ents, i, ents.len() as int)
}

/// Every collider's cached list is exactly the current overlap list.
pub open spec fn collisions_current(ents: Seq<EntityRecord>) -> bool {
    forall|i: int|
        0 <= i < ents.len() && (#[trigger] ents[i]).collider is Some ==> ents[i].collider.unwrap().collisions@
            == overlap_list(ents, i)
}

/// `a` and `b` agree on everything but the colliders' cached lists.
pub open spec fn same_but_collisions(a: EntityRecord, b: EntityRecord) -> bool {
    &&& a.id == b.id
    &&& a.role == b.role
    &&& a.transform == b.transform
    &&& a.damage == b.damage
    &&& a.health == b.health
    &&& a.damage_cooldown == b.damage_cooldown
    &&& a.knockback == b.knockback
    &&& a.velocity == b.velocity
    &&& a.weapon == b.weapon
    &&& a.parent == b.parent
    &&& a.collider is Some <==> b.collider is Some
    &&& a.collider is Some ==> a.collider.unwrap().size == b.collider.unwrap().size
        && a.collider.unwrap().offset == b.collider.unwrap().offset
}

pub proof fn lemma_overlaps_prefix_frame(a: Seq<EntityRecord>, b: Seq<EntityRecord>, i: int, n: int)
    requires
        a.len() == b.len(),
        0 <= i < a.len(),
        n <= a.len(),
        forall|j: int| 0 <= j < a.len() ==> same_but_collisions(#[trigger] a[j], b[j]),
    ensures
        overlaps_prefix(a, i, n) == overlaps_prefix(b, i, n),
    decreases n,
{
    if n > 0 {
        lemma_overlaps_prefix_frame(a, b, i, n - 1);
        assert(same_but_collisions(a[i], b[i]));
        assert(same_but_collisions(a[n - 1], b[n - 1]));
    }
}

pub proof fn lemma_overlaps_prefix_contains(ents: Seq<EntityRecord>, i: int, n: int, id: Entity)
    requires
        0 <= i < ents.len(),
        n <= ents.len(),
    ensures
        overlaps_prefix(ents, i, n).contains(id) <==> exists|j: int|
            0 <= j < n && j != i && collides(ents[i], #[trigger] ents[j]) && ents[j].id == id,
    decreases n,
{
    if n > 0 {
        lemma_overlaps_prefix_contains(ents, i, n - 1, id);
        let before = overlaps_prefix(ents, i, n - 1);
        if n - 1 != i && collides(ents[i], ents[n - 1]) {
            assert(overlaps_prefix(ents, i, n) == before.push(ents[n - 1].id));
            if ents[n - 1].id == id {
                assert(before.push(ents[n - 1].id)[before.len() as int] == id);
            }
            let after = before.push(ents[n - 1].id);
            if after.contains(id) && ents[n - 1].id != id {
                let k = choose|k: int| 0 <= k < after.len() && #[trigger] after[k] == id;
                assert(before[k] == id);
            }
            if before.contains(id) {
                let k = choose|k: int| 0 <= k < before.len() && before[k] == id;
                assert(before.push(ents[n - 1].id)[k] == id);
            }
        }
    }
}

/// Replaces the cached overlap list of `e`'s collider, if it has one.
fn set_collisions(e: &mut EntityRecord, list: Vec<Entity>)
    ensures
        same_but_collisions(*final(e), *old(e)),
        final(e).collider matches Some(c) ==> c.collisions@ == list@,
{
    if let Some(c) = &mut e.collider {
        c.collisions = list;
    }
}

/// Recomputes every collider's list of overlapping entities from scratch,
/// testing all pairs.
pub fn detect_collisions(ents: &mut Vec<EntityRecord>)
    requires
        records_wf(old(ents)@),
    ensures
        final(ents)@.len() == old(ents)@.len(),
        forall|i: int| 0 <= i < final(ents)@.len() ==> same_but_collisions(#[trigger] final(ents)@[i], old(ents)@[i]),
        records_wf(final(ents)@),
        collisions_current(final(ents)@),
{
    let ghost start = ents@;
    let n = ents.len();
    let mut a: usize = 0;
    while a < n
        invariant
            n == ents@.len(),
            start.len() == n,
            records_wf(start),
            a <= n,
            forall|i: int| 0 <= i < n ==> same_but_collisions(#[trigger] ents@[i], start[i]),
            forall|i: int|
                0 <= i < a && (#[trigger] ents@[i]).collider is Some ==> ents@[i].collider.unwrap().collisions@
                    == overlap_list(start, i),
        decreases n - a,
    {
        let mut list: Vec<Entity> = Vec::new();
        assert(same_but_collisions(ents@[a as int], start[a as int]));
        assert(start[a as int].wf());
        if let Some(ca) = &ents[a].collider {
            let ra = ca.to_rect_at(&ents[a].transform);
            let mut b: usize = 0;
            while b < n
                invariant
                    n == ents@.len(),
                    start.len() == n,
                    records_wf(start),
                    a < n,
                    b <= n,
                    forall|i: int| 0 <= i < n ==> same_but_collisions(#[trigger] ents@[i], start[i]),
                    start[a as int].collider is Some,
                    ra == start[a as int].collider.unwrap().rect_at(start[a as int].transform),
                    list@ == overlaps_prefix(start, a as int, b as int),
                decreases n - b,
            {
                assert(same_but_collisions(ents@[b as int], start[b as int]));
                assert(start[b as int].wf());
                if b != a {
                    if let Some(cb) = &ents[b].collider {
                        let rb = cb.to_rect_at(&ents[b].transform);
                        if !ra.intersect(&rb).is_empty() {
                            list.push(ents[b].id);
                        }
                    }
                }
                b += 1;
            }
        }
        let ghost before = ents@;
        set_collisions(&mut ents[a], list);
        proof {
            assert forall|i: int| 0 <= i < n implies same_but_collisions(#[trigger] ents@[i], start[i]) by {
                if i != a {
                    assert(ents@[i] == before[i]);
                }
            }
        }
        a += 1;
    }
    proof {
        assert forall|i: int| 0 <= i < n implies (#[trigger] ents@[i]).wf() by {
            assert(same_but_collisions(ents@[i], start[i]));
            assert(start[i].wf());
        }
        assert forall|i: int, j: int| 0 <= i < n && 0 <= j < n && i != j implies #[trigger] ents@[i].id != #[trigger] ents@[j].id by {
            assert(same_but_collisions(ents@[i], start[i]));
            assert(same_but_collisions(ents@[j], start[j]));
        }
        assert forall|i: int| 0 <= i < n && (#[trigger] ents@[i]).collider is Some implies ents@[i].collider.unwrap().collisions@
            == overlap_list(ents@, i) by {
            lemma_overlaps_prefix_frame(ents@, start, i, n as int);
        }
    }
}

/// After a detection pass, `b` is in `a`'s list exactly when `a` is in `b`'s.
pub proof fn lemma_collisions_symmetric(ents: Seq<EntityRecord>, a: int, b: int)
    requires
        records_wf(ents),
        collisions_current(ents),
        0 <= a < ents.len(),
        0 <= b < ents.len(),
        ents[a].collider is Some,
        ents[b].collider is Some,
    ensures
        ents[a].collider.unwrap().collisions@.contains(ents[b].id) <==> ents[b].collider.unwrap().collisions@.contains(
            ents[a].id,
        ),
{
    lemma_overlaps_prefix_contains(ents, a, ents.len() as int, ents[b].id);
    lemma_overlaps_prefix_contains(ents, b, ents.len() as int, ents[a].id);
    crate::geometry::lemma_overlaps_symmetric(
        ents[a].collider.unwrap().rect_at(ents[a].transform),
        ents[b].collider.unwrap().rect_at(ents[b].transform),
    );
    if ents[a].collider.unwrap().collisions@.contains(ents[b].id) {
        let j = choose|j: int|
            0 <= j < ents.len() && j != a && collides(ents[a], #[trigger] ents[j]) && ents[j].id == ents[b].id;
        assert(j == b);
        assert(collides(ents[b], ents[a]));
    }
    if ents[b].collider.unwrap().collisions@.contains(ents[a].id) {
        let j = choose|j: int|
            0 <= j < ents.len() && j != b && collides(ents[b], #[trigger] ents[j]) && ents[j].id == ents[a].id;
        assert(j == a);
        assert(collides(ents[a], ents[b]));
    }
}

/// After a detection pass, no entity is in its own list.
pub proof fn lemma_no_self_collision(ents: Seq<EntityRecord>, a: int)
    requires
        records_wf(ents),
        collisions_current(ents),
        0 <= a < ents.len(),
        ents[a].collider is Some,
    ensures
        !ents[a].collider.unwrap().collisions@.contains(ents[a].id),
{
    lemma_overlaps_prefix_contains(ents, a, ents.len() as int, ents[a].id);
}

/// The events a record's cached list yields, with the record as subject.
pub open spec fn events_of(e: EntityRecord) -> Seq<CollisionEvent> {
    match e.collider {
        Some(c) => c.collisions@.map_values(|o: Entity| CollisionEvent { entity: e.id, collided_with: o }),
        None => seq![],
    }
}

/// The events of the first `n` records whose role is `role`, in store order.
pub open spec fn role_events(ents: Seq<EntityRecord>, role: Role, n: int) -> Seq<CollisionEvent>
    decreases n,
{
    if n <= 0 {
        seq![]
    } else if ents[n - 1].role == role {
        role_events(ents, role, n - 1) + events_of(ents[n - 1])
    } else {
        role_events(ents, role, n - 1)
    }
}

/// Sends one event per cached overlap of each entity of the given role.
pub fn handle_collisions(ents: &Vec<EntityRecord>, role: Role, events: &mut Vec<CollisionEvent>)
    ensures
        final(events)@ == old(events)@ + role_events(ents@, role, ents@.len() as int),
{
    let ghost start = events@;
    let mut a: usize = 0;
    while a < ents.len()
        invariant
            a <= ents@.len(),
            events@ == start + role_events(ents@, role, a as int),
        decreases ents@.len() - a,
    {
        if ents[a].role == role {
            if let Some(c) = &ents[a].collider {
                let ghost mid = events@;
                let mut k: usize = 0;
                while k < c.collisions.len()
                    invariant
                        k <= c.collisions@.len(),
                        a < ents@.len(),
                        ents@[a as int].collider == Some(*c),
                        events@ == mid + events_of(ents@[a as int]).subrange(0, k as int),
                    decreases c.collisions@.len() - k,
                {
                    events.push(CollisionEvent::new(ents[a].id, c.collisions[k]));
                    assert(events_of(ents@[a as int]).subrange(0, k + 1) == events_of(ents@[a as int]).subrange(0, k as int).push(
                        CollisionEvent { entity: ents@[a as int].id, collided_with: c.collisions@[k as int] },
                    ));
                    k += 1;
                }
                assert(events_of(ents@[a as int]).subrange(0, k as int) == events_of(ents@[a as int]));
            } else {
                assert(events_of(ents@[a as int]) == Seq::<CollisionEvent>::empty());
                assert(events@ == events@ + Seq::<CollisionEvent>::empty());
            }
        }
        a += 1;
    }
}

} // verus!
