//! The map's frame: its size in tiles and the four walls around it.
use vstd::prelude::*;
use crate::collision::Collider;
use crate::geometry::{UNITS_PER_PIXEL, Vec2, Vec3, div_toward_zero};
use crate::levels::MAX_LEVEL_CELLS;

verus! {

/// Pixels per tile of the map's frame.
pub const TILE_PX: i64 = 16;

/// The map: its size in tiles, and the size of a tile in pixels.
#[derive(Clone, Copy, Debug, PartialEq, Eq, Structural)]
pub struct GameMap {
    pub dimensions: Vec2,
    pub tile_size: u32,
}

impl GameMap {
    pub open spec fn wf(&self) -> bool {
        0 <= self.dimensions.x <= MAX_LEVEL_CELLS && 0 <= self.dimensions.y <= MAX_LEVEL_CELLS
    }

    /// Half the map's size in tiles, rounded toward zero.
    pub fn half_extent(&self) -> (r: Vec2)
        ensures
            r.x == div_toward_zero(self.dimensions.x as int, 2),
            r.y == div_toward_zero(self.dimensions.y as int, 2),
    {
        Vec2 { x: half(self.dimensions.x), y: half(self.dimensions.y) }
    }
}

fn half(v: i64) -> (r: i64)
    ensures
        r == div_toward_zero(v as int, 2),
{
    if v >= 0 {
        v / 2
    } else {
        -((-(v as i128)) / 2) as i64
    }
}

/// World position of tile `p` of the frame, drawn just behind the floor.
pub open spec fn grid_to_world_spec(p: Vec2) -> Vec3 {
    Vec3 {
        x: (p.x * TILE_PX * UNITS_PER_PIXEL) as i64,
        y: (p.y * TILE_PX * UNITS_PER_PIXEL) as i64,
        z: (-UNITS_PER_PIXEL) as i64,
    }
}

pub fn grid_to_world(p: Vec2) -> (r: Vec3)
    requires
        -MAX_LEVEL_CELLS <= p.x <= MAX_LEVEL_CELLS,
        -MAX_LEVEL_CELLS <= p.y <= MAX_LEVEL_CELLS,
    ensures
        r == grid_to_world_spec(p),
        r.in_world(),
{
    assert(-MAX_LEVEL_CELLS * 16000 <= p.x * 16000 <= MAX_LEVEL_CELLS * 16000) by (nonlinear_arith)
        requires
            -MAX_LEVEL_CELLS <= p.x <= MAX_LEVEL_CELLS,
    ;
    assert(-MAX_LEVEL_CELLS * 16000 <= p.y * 16000 <= MAX_LEVEL_CELLS * 16000) by (nonlinear_arith)
        requires
            -MAX_LEVEL_CELLS <= p.y <= MAX_LEVEL_CELLS,
    ;
    assert(p.x * TILE_PX * UNITS_PER_PIXEL == p.x * 16000 && p.y * TILE_PX * UNITS_PER_PIXEL == p.y * 16000)
        by (nonlinear_arith);
    Vec3 { x: p.x * (TILE_PX * UNITS_PER_PIXEL), y: p.y * (TILE_PX * UNITS_PER_PIXEL), z: -UNITS_PER_PIXEL }
}

/// Position, size and offset of the frame's walls: top, bottom, left, right.
pub open spec fn outer_wall_spec(map: GameMap, k: int) -> (Vec3, Vec2, Vec2) {
    let h = Vec2 { x: div_toward_zero(map.dimensions.x as int, 2) as i64, y: div_toward_zero(map.dimensions.y as int, 2) as i64 };
    let u = UNITS_PER_PIXEL;
    if k == 0 {
        (
            grid_to_world_spec(Vec2 { x: 0, y: h.y }),
            Vec2 { x: (map.dimensions.x * TILE_PX * u) as i64, y: (8 * u) as i64 },
            Vec2 { x: 0, y: (4 * u) as i64 },
        )
    } else if k == 1 {
        (
            grid_to_world_spec(Vec2 { x: 0, y: (-h.y) as i64 }),
            Vec2 { x: (map.dimensions.x * TILE_PX * u) as i64, y: (14 * u) as i64 },
            Vec2 { x: 0, y: (-u) as i64 },
        )
    } else if k == 2 {
        (
            grid_to_world_spec(Vec2 { x: (-h.x) as i64, y: 0 }),
            Vec2 { x: (TILE_PX * u) as i64, y: (map.dimensions.y * TILE_PX * u) as i64 },
            Vec2 { x: 0, y: 0 },
        )
    } else {
        (
            grid_to_world_spec(Vec2 { x: h.x, y: 0 }),
            Vec2 { x: (TILE_PX * u) as i64, y: (map.dimensions.y * TILE_PX * u) as i64 },
            Vec2 { x: 0, y: 0 },
        )
    }
}

/// The colliders of the frame's four walls and where they stand, in the
/// order top, bottom, left, right.
pub fn outer_walls(map: &GameMap) -> (r: Vec<(Vec3, Collider)>)
    requires
        map.wf(),
    ensures
        r@.len() == 4,
        forall|k: int|
            0 <= k < 4 ==> {
                let (t, size, offset) = outer_wall_spec(*map, k);
                &&& (#[trigger] r@[k]).0 == t
                &&& r@[k].1.size == size
                &&& r@[k].1.offset == offset
                &&& r@[k].1.collisions@.len() == 0
                &&& r@[k].1.wf()
                &&& t.in_world()
            },
{
    let h = map.half_extent();
    let u = UNITS_PER_PIXEL;
    let width = map.dimensions.x * (TILE_PX * u);
    let height = map.dimensions.y * (TILE_PX * u);
    let mut r: Vec<(Vec3, Collider)> = Vec::new();
    r.push((
        grid_to_world(Vec2 { x: 0, y: h.y }),
        Collider::with_size_and_offset(Vec2 { x: width, y: 8 * u }, Vec2 { x: 0, y: 4 * u }),
    ));
    r.push((
        grid_to_world(Vec2 { x: 0, y: -h.y }),
        Collider::with_size_and_offset(Vec2 { x: width, y: 14 * u }, Vec2 { x: 0, y: -u }),
    ));
    r.push((grid_to_world(Vec2 { x: -h.x, y: 0 }), Collider::new(Vec2 { x: TILE_PX * u, y: height })));
    r.push((grid_to_world(Vec2 { x: h.x, y: 0 }), Collider::new(Vec2 { x: TILE_PX * u, y: height })));
    r
}

} // verus!
