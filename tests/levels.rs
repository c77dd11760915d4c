use bevy_survivors::geometry::{Vec2, Vec3, UNITS_PER_PIXEL};
use bevy_survivors::levels::{add_wall_colliders, compact_walls, row_plates, wall_collider, EdgeTags, LevelGrid, WallRect};
use bevy_survivors::schedule::World;
use bevy_survivors::world::{EntityRecord, Role};

const PX: i64 = UNITS_PER_PIXEL;

fn plain() -> EdgeTags {
    EdgeTags::none()
}

fn grid(width: usize, height: usize, walls: &[(usize, usize)]) -> LevelGrid {
    let mut g = LevelGrid::new(width, height);
    for &(x, y) in walls {
        g.set_wall(x, y, plain());
    }
    g
}

fn rect(left: usize, right: usize, bottom: usize, top: usize) -> WallRect {
    WallRect { left, right, bottom, top, tags: plain() }
}

#[test]
fn empty_level_gives_no_rectangles() {
    let g = grid(5, 4, &[]);
    assert!(compact_walls(&g).is_empty());
    let g = grid(0, 0, &[]);
    assert!(compact_walls(&g).is_empty());
}

#[test]
fn single_cell_gives_one_unit_rectangle() {
    let g = grid(3, 3, &[(1, 1)]);
    assert_eq!(compact_walls(&g), vec![rect(1, 1, 1, 1)]);
}

#[test]
fn horizontal_strip_gives_one_rectangle() {
    let g = grid(5, 1, &[(1, 0), (2, 0), (3, 0)]);
    assert_eq!(compact_walls(&g), vec![rect(1, 3, 0, 0)]);
}

#[test]
fn equal_spans_stack_into_one_rectangle() {
    let g = grid(4, 4, &[(0, 0), (1, 0), (0, 1), (1, 1), (0, 2), (1, 2)]);
    assert_eq!(compact_walls(&g), vec![rect(0, 1, 0, 2)]);
}

#[test]
fn partial_overlap_never_merges() {
    // Row 0: cells 0..=2; row 1: cells 1..=2.
    let g = grid(3, 2, &[(0, 0), (1, 0), (2, 0), (1, 1), (2, 1)]);
    let rs = compact_walls(&g);
    assert_eq!(rs, vec![rect(0, 2, 0, 0), rect(1, 2, 1, 1)]);
}

#[test]
fn rectangles_close_at_the_last_row_and_gaps() {
    let g = grid(5, 3, &[(0, 0), (0, 1), (3, 0), (4, 0), (0, 2), (3, 2), (4, 2)]);
    let rs = compact_walls(&g);
    assert_eq!(rs.len(), 3);
    assert!(rs.contains(&rect(0, 0, 0, 2)));
    assert!(rs.contains(&rect(3, 4, 0, 0)));
    assert!(rs.contains(&rect(3, 4, 2, 2)));
    // Every wall cell is covered exactly once.
    for y in 0..3 {
        for x in 0..5 {
            let n = rs
                .iter()
                .filter(|r| r.left <= x && x <= r.right && r.bottom <= y && y <= r.top)
                .count();
            let is_wall = g.cells[y][x].is_some();
            assert_eq!(n, if is_wall { 1 } else { 0 });
        }
    }
}

#[test]
fn plates_carry_the_union_of_labels() {
    let mut g = LevelGrid::new(4, 1);
    let mut left = plain();
    left.left = true;
    let mut top = plain();
    top.top = true;
    g.set_wall(0, 0, left);
    g.set_wall(1, 0, top);
    g.set_wall(3, 0, plain());
    let ps = row_plates(&g, 0);
    assert_eq!(ps.len(), 2);
    assert_eq!((ps[0].left, ps[0].right), (0, 1));
    assert!(ps[0].tags.left && ps[0].tags.top && !ps[0].tags.right && !ps[0].tags.bottom);
    assert_eq!((ps[1].left, ps[1].right), (3, 3));
    assert_eq!(ps[1].tags, plain());
}

#[test]
fn rectangle_labels_union_over_rows() {
    let mut g = LevelGrid::new(2, 2);
    let mut bottom = plain();
    bottom.bottom = true;
    let mut right = plain();
    right.right = true;
    g.set_wall(0, 0, bottom);
    g.set_wall(1, 0, plain());
    g.set_wall(0, 1, plain());
    g.set_wall(1, 1, right);
    let rs = compact_walls(&g);
    assert_eq!(rs.len(), 1);
    assert!(rs[0].tags.bottom && rs[0].tags.right && !rs[0].tags.left && !rs[0].tags.top);
}

#[test]
fn plain_wall_collider_spans_its_cells() {
    let (pos, c) = wall_collider(&rect(1, 3, 0, 1), 16);
    assert_eq!(pos, Vec3::new(40 * PX, 16 * PX, 0));
    assert_eq!(c.size, Vec2::new(48 * PX, 32 * PX));
    assert_eq!(c.offset, Vec2::new(0, 0));
    assert!(c.collisions.is_empty());
}

#[test]
fn labelled_sides_trim_and_shift_the_collider() {
    let w = WallRect {
        left: 0,
        right: 1,
        bottom: 0,
        top: 0,
        tags: EdgeTags { left: true, right: false, top: true, bottom: false },
    };
    let (pos, c) = wall_collider(&w, 16);
    assert_eq!(pos, Vec3::new(16 * PX, 8 * PX, 0));
    assert_eq!(c.size, Vec2::new(22 * PX, 12 * PX));
    assert_eq!(c.offset, Vec2::new(-2 * PX, 4 * PX));

    let all = WallRect {
        left: 0,
        right: 0,
        bottom: 0,
        top: 0,
        tags: EdgeTags { left: true, right: true, top: true, bottom: true },
    };
    let (_, c) = wall_collider(&all, 16);
    assert_eq!(c.size, Vec2::new(0, 8 * PX));
    assert_eq!(c.offset, Vec2::new(0, 0));
}

#[test]
fn level_walls_become_static_wall_entities() {
    let g = grid(4, 2, &[(0, 0), (1, 0), (0, 1), (1, 1), (3, 1)]);
    let mut world = World::new();
    let level = world.spawn(EntityRecord::new(0, Role::Prop, Vec3::new(0, 0, 0)));
    let added = add_wall_colliders(&mut world, &g, 16, level);
    assert_eq!(added, 2);
    assert_eq!(world.len(), 3);
    for e in &world.entities[1..] {
        assert_eq!(e.role, Role::WallTile);
        assert_eq!(e.parent, Some(level));
        assert!(e.collider.as_ref().unwrap().collisions.is_empty());
        assert!(e.health.is_none() && e.velocity.is_none());
    }
    // The level already has its walls: a second call adds nothing.
    assert_eq!(add_wall_colliders(&mut world, &g, 16, level), 0);
    assert_eq!(world.len(), 3);
    // Another level gets its own.
    let other = world.spawn(EntityRecord::new(0, Role::Prop, Vec3::new(0, 0, 0)));
    assert_eq!(add_wall_colliders(&mut world, &g, 16, other), 2);
    assert_eq!(world.len(), 6);
}
