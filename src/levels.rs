//! Reduction of a level's wall tiles to a few collider rectangles.
//!
//! Each row is cut into plates (maximal runs of wall cells); a plate that
//! repeats with exactly the same span in consecutive rows grows one rectangle
//! upward. Spans that only partly overlap are never merged.
use vstd::prelude::*;
use crate::collision::Collider;
use crate::geometry::{UNITS_PER_PIXEL, Vec2, Vec3};
use crate::schedule::World;
use crate::world::{Entity, EntityRecord, Role};

verus! {

/// Which sides of a wall cell face open floor.
#[derive(Clone, Copy, Debug, PartialEq, Eq, Structural)]
pub struct EdgeTags {
    pub left: bool,
    pub right: bool,
    pub top: bool,
    pub bottom: bool,
}

impl EdgeTags {
    pub open spec fn none_spec() -> EdgeTags {
        EdgeTags { left: false, right: false, top: false, bottom: false }
    }

    pub open spec fn union_spec(self, o: EdgeTags) -> EdgeTags {
        EdgeTags {
            left: self.left || o.left,
            right: self.right || o.right,
            top: self.top || o.top,
            bottom: self.bottom || o.bottom,
        }
    }

    pub fn none() -> (r: EdgeTags)
        ensures
            r == EdgeTags::none_spec(),
    {
        EdgeTags { left: false, right: false, top: false, bottom: false }
    }

    pub fn union(&self, o: &EdgeTags) -> (r: EdgeTags)
        ensures
            r == self.union_spec(*o),
    {
        EdgeTags {
            left: self.left || o.left,
            right: self.right || o.right,
            top: self.top || o.top,
            bottom: self.bottom || o.bottom,
        }
    }
}

/// Largest width or height of a level, in cells.
pub const MAX_LEVEL_CELLS: usize = 1_048_576;

/// Largest tile size, in pixels.
pub const MAX_GRID_SIZE: i64 = 1024;

/// Pixels cut from a wall collider's width for each side labelled `left` or `right`.
pub const SIDE_TRIM_PX: i64 = 10;

/// Pixels a `left` or `right` label moves the collider's center toward that side.
pub const SIDE_SHIFT_PX: i64 = 2;

/// Pixels cut from a wall collider's height for each side labelled `top` or `bottom`.
pub const END_TRIM_PX: i64 = 4;

/// Pixels a `top` or `bottom` label moves the collider's center toward that side.
pub const END_SHIFT_PX: i64 = 4;

/// A level's wall layer: `cells[y][x]` holds the edge labels of a wall cell,
/// or `None` where the floor is open.
#[derive(Debug)]
pub struct LevelGrid {
    pub width: usize,
    pub height: usize,
    pub cells: Vec<Vec<Option<EdgeTags>>>,
}

/// A maximal horizontal run of wall cells in one row, `left..=right`, with
/// the union of its cells' labels.
#[derive(Clone, Copy, Debug, PartialEq, Eq, Structural)]
pub struct Plate {
    pub left: usize,
    pub right: usize,
    pub tags: EdgeTags,
}

/// Cells `left..=right` by `bottom..=top`, with the union of their labels.
#[derive(Clone, Copy, Debug, PartialEq, Eq, Structural)]
pub struct WallRect {
    pub left: usize,
    pub right: usize,
    pub bottom: usize,
    pub top: usize,
    pub tags: EdgeTags,
}

impl LevelGrid {
    pub open spec fn wf(&self) -> bool {
        &&& self.width <= MAX_LEVEL_CELLS
        &&& self.height <= MAX_LEVEL_CELLS
        &&& self.cells@.len() == self.height
        &&& forall|y: int| 0 <= y < self.height ==> (#[trigger] self.cells@[y])@.len() == self.width
    }

    pub open spec fn wall(&self, x: int, y: int) -> bool {
        &&& 0 <= y < self.height
        &&& 0 <= x < self.width
        &&& self.cells@[y]@[x] is Some
    }

    pub open spec fn cell_tags(&self, x: int, y: int) -> EdgeTags {
        match self.cells@[y]@[x] {
            Some(t) => t,
            None => EdgeTags::none_spec(),
        }
    }

    /// Union of the labels of cells `l..=r` of row `y`.
    pub open spec fn row_tags(&self, y: int, l: int, r: int) -> EdgeTags
        decreases r - l + 1,
    {
        if r < l {
            EdgeTags::none_spec()
        } else {
            self.row_tags(y, l, r - 1).union_spec(self.cell_tags(r, y))
        }
    }

    /// Union of the labels of cells `l..=r` by `b..=t`.
    pub open spec fn block_tags(&self, l: int, r: int, b: int, t: int) -> EdgeTags
        decreases t - b + 1,
    {
        if t < b {
            EdgeTags::none_spec()
        } else {
            self.block_tags(l, r, b, t - 1).union_spec(self.row_tags(t, l, r))
        }
    }

    /// `l..=r` is a maximal run of wall cells in row `y`.
    pub open spec fn is_plate(&self, y: int, l: int, r: int) -> bool {
        &&& l <= r
        &&& forall|x: int| l <= x <= r ==> #[trigger] self.wall(x, y)
        &&& !self.wall(l - 1, y)
        &&& !self.wall(r + 1, y)
    }

    /// The span `l..=r` is a plate in each row `b..=t` and in neither
    /// neighbouring row: a rectangle that cannot grow up or down.
    pub open spec fn is_run(&self, l: int, r: int, b: int, t: int) -> bool {
        &&& b <= t
        &&& forall|y: int| b <= y <= t ==> #[trigger] self.is_plate(y, l, r)
        &&& !self.is_plate(b - 1, l, r)
        &&& !self.is_plate(t + 1, l, r)
    }

    /// `ps` lists, left to right, every plate of row `y`.
    pub open spec fn plates_of(&self, y: int, ps: Seq<Plate>) -> bool {
        &&& forall|i: int| 0 <= i < ps.len() ==> self.is_plate(y, #[trigger] ps[i].left as int, ps[i].right as int)
        &&& forall|i: int| 0 <= i < ps.len() ==> #[trigger] ps[i].tags == self.row_tags(y, ps[i].left as int, ps[i].right as int)
        &&& forall|i: int, j: int| 0 <= i < j < ps.len() ==> #[trigger] ps[i].right < #[trigger] ps[j].left
        &&& forall|x: int| #[trigger] self.wall(x, y) ==> exists|i: int| 0 <= i < ps.len() && #[trigger] ps[i].left <= x <= ps[i].right
    }

    /// `w` is a maximal rectangle of one repeated plate, with its labels.
    pub open spec fn is_wall_rect(&self, w: WallRect) -> bool {
        &&& self.is_run(w.left as int, w.right as int, w.bottom as int, w.top as int)
        &&& w.tags == self.block_tags(w.left as int, w.right as int, w.bottom as int, w.top as int)
    }

    /// An empty grid of the given size.
    pub fn new(width: usize, height: usize) -> (r: LevelGrid)
        requires
            width <= MAX_LEVEL_CELLS,
            height <= MAX_LEVEL_CELLS,
        ensures
            r.wf(),
            r.width == width,
            r.height == height,
            forall|x: int, y: int| !r.wall(x, y),
    {
        let mut cells: Vec<Vec<Option<EdgeTags>>> = Vec::new();
        let mut y: usize = 0;
        while y < height
            invariant
                y <= height,
                cells@.len() == y,
                forall|yy: int| 0 <= yy < y ==> (#[trigger] cells@[yy])@.len() == width,
                forall|yy: int, x: int| 0 <= yy < y && 0 <= x < width ==> cells@[yy]@[x] is None,
            decreases height - y,
        {
            let mut row: Vec<Option<EdgeTags>> = Vec::new();
            let mut x: usize = 0;
            while x < width
                invariant
                    x <= width,
                    row@.len() == x,
                    forall|xx: int| 0 <= xx < x ==> row@[xx] is None,
                decreases width - x,
            {
                row.push(None);
                x += 1;
            }
            cells.push(row);
            y += 1;
        }
        LevelGrid { width, height, cells }
    }

    /// Marks cell `(x, y)` as wall with the given labels.
    pub fn set_wall(&mut self, x: usize, y: usize, tags: EdgeTags)
        requires
            old(self).wf(),
            x < old(self).width,
            y < old(self).height,
        ensures
            final(self).wf(),
            final(self).width == old(self).width,
            final(self).height == old(self).height,
            final(self).cells@[y as int]@[x as int] == Some(tags),
            forall|xx: int, yy: int|
                (xx != x || yy != y) && 0 <= yy < old(self).height && 0 <= xx < old(self).width ==> final(self).cells@[yy]@[xx]
                    == old(self).cells@[yy]@[xx],
    {
        self.cells[y][x] = Some(tags);
    }
}

/// Two plates in one row that share a cell are the same span.
pub proof fn lemma_plate_unique(g: &LevelGrid, y: int, l1: int, r1: int, l2: int, r2: int, x: int)
    requires
        g.is_plate(y, l1, r1),
        g.is_plate(y, l2, r2),
        l1 <= x <= r1,
        l2 <= x <= r2,
    ensures
        l1 == l2 && r1 == r2,
{
    if l1 < l2 {
        assert(g.wall(l2 - 1, y));
    } else if l2 < l1 {
        assert(g.wall(l1 - 1, y));
    }
    if r1 < r2 {
        assert(g.wall(r1 + 1, y));
    } else if r2 < r1 {
        assert(g.wall(r2 + 1, y));
    }
}

/// The plates of row `y`, left to right.
pub fn row_plates(g: &LevelGrid, y: usize) -> (ps: Vec<Plate>)
    requires
        g.wf(),
        y < g.height,
    ensures
        g.plates_of(y as int, ps@),
{
    let width = g.width;
    let row = &g.cells[y];
    let mut plates: Vec<Plate> = Vec::new();
    let mut start: Option<(usize, EdgeTags)> = None;
    let mut x: usize = 0;
    while x <= width
        invariant
            g.wf(),
            y < g.height,
            width == g.width,
            row@ == g.cells@[y as int]@,
            x <= width + 1,
            start matches Some(st) ==> {
                &&& st.0 < x
                &&& x <= width
                &&& (forall|xx: int| st.0 <= xx < x ==> #[trigger] g.wall(xx, y as int))
                &&& !g.wall(st.0 - 1, y as int)
                &&& st.1 == g.row_tags(y as int, st.0 as int, x - 1)
                &&& (forall|i: int| 0 <= i < plates@.len() ==> #[trigger] plates@[i].right < st.0)
            },
            start is None ==> x == 0 || !g.wall(x - 1, y as int),
            forall|i: int|
                0 <= i < plates@.len() ==> g.is_plate(y as int, #[trigger] plates@[i].left as int, plates@[i].right as int),
            forall|i: int|
                0 <= i < plates@.len() ==> #[trigger] plates@[i].tags == g.row_tags(
                    y as int,
                    plates@[i].left as int,
                    plates@[i].right as int,
                ),
            forall|i: int, j: int| 0 <= i < j < plates@.len() ==> #[trigger] plates@[i].right < #[trigger] plates@[j].left,
            forall|i: int| 0 <= i < plates@.len() ==> #[trigger] plates@[i].right + 1 < x,
            forall|xx: int|
                0 <= xx < x && #[trigger] g.wall(xx, y as int) ==> (exists|i: int|
                    0 <= i < plates@.len() && #[trigger] plates@[i].left <= xx <= plates@[i].right) || (
                start matches Some(st) && st.0 <= xx),
        decreases width + 1 - x,
    {
        let cell = if x < width {
            row[x]
        } else {
            None
        };
        assert(cell is Some <==> g.wall(x as int, y as int));
        match (start, cell) {
            (Some((s, t)), None) => {
                let p = Plate { left: s, right: x - 1, tags: t };
                let ghost before = plates@;
                plates.push(p);
                start = None;
                assert(g.is_plate(y as int, s as int, x - 1));
                assert forall|xx: int|
                    0 <= xx < x + 1 && #[trigger] g.wall(xx, y as int) implies (exists|i: int|
                        0 <= i < plates@.len() && #[trigger] plates@[i].left <= xx <= plates@[i].right) by {
                    if s <= xx {
                        assert(xx != x);
                        let k = plates@.len() - 1;
                        assert(plates@[k] == p);
                        assert(plates@[k].left <= xx <= plates@[k].right);
                    } else {
                        let i = choose|i: int|
                            0 <= i < before.len() && #[trigger] before[i].left <= xx <= before[i].right;
                        assert(plates@[i] == before[i]);
                        assert(plates@[i].left <= xx <= plates@[i].right);
                    }
                }
            },
            (None, Some(tags)) => {
                start = Some((x, tags));
                assert(g.row_tags(y as int, x as int, x as int) == g.row_tags(y as int, x as int, x - 1).union_spec(g.cell_tags(x as int, y as int)));
                assert(g.row_tags(y as int, x as int, x - 1) == EdgeTags::none_spec());
                assert(EdgeTags::none_spec().union_spec(tags) == tags);
            },
            (Some((s, t)), Some(tags)) => {
                start = Some((s, t.union(&tags)));
            },
            (None, None) => {
                start = None;
            },
        }
        x += 1;
    }
    plates
}

pub open spec fn in_rect(w: WallRect, x: int, y: int) -> bool {
    w.left <= x <= w.right && w.bottom <= y <= w.top
}

/// Some rectangle of `rs` covers cell `(x, y)`.
pub open spec fn covered_by(rs: Seq<WallRect>, x: int, y: int) -> bool {
    exists|k: int| 0 <= k < rs.len() && #[trigger] in_rect(rs[k], x, y)
}

pub open spec fn same_span(p: Plate, q: Plate) -> bool {
    p.left == q.left && p.right == q.right
}

pub open spec fn span_in(ps: Seq<Plate>, p: Plate) -> bool {
    exists|j: int| 0 <= j < ps.len() && same_span(#[trigger] ps[j], p)
}

impl LevelGrid {
    /// `w` is the rectangle grown so far for plate `p` of row `y - 1`: it
    /// cannot grow downward and still may grow upward.
    pub open spec fn is_open_rect(&self, w: WallRect, p: Plate, y: int) -> bool {
        &&& w.left == p.left
        &&& w.right == p.right
        &&& w.top == y - 1
        &&& w.bottom <= w.top
        &&& forall|yy: int| w.bottom <= yy <= w.top ==> #[trigger] self.is_plate(yy, w.left as int, w.right as int)
        &&& !self.is_plate(w.bottom - 1, w.left as int, w.right as int)
        &&& w.tags == self.block_tags(w.left as int, w.right as int, w.bottom as int, w.top as int)
    }
}

/// The index of the plate of `ps` with the same span as `p`, if any.
fn find_span(ps: &Vec<Plate>, p: &Plate) -> (r: Option<usize>)
    ensures
        r matches Some(i) ==> i < ps@.len() && same_span(ps@[i as int], *p),
        r is None ==> !span_in(ps@, *p),
{
    let mut i: usize = 0;
    while i < ps.len()
        invariant
            i <= ps@.len(),
            forall|j: int| 0 <= j < i ==> !same_span(#[trigger] ps@[j], *p),
        decreases ps@.len() - i,
    {
        if ps[i].left == p.left && ps[i].right == p.right {
            return Some(i);
        }
        i += 1;
    }
    None
}

proof fn lemma_covered_grows(a: Seq<WallRect>, b: Seq<WallRect>, x: int, y: int)
    requires
        a.len() <= b.len(),
        b.subrange(0, a.len() as int) == a,
        covered_by(a, x, y),
    ensures
        covered_by(b, x, y),
{
    let k = choose|k: int| 0 <= k < a.len() && #[trigger] in_rect(a[k], x, y);
    assert(b[k] == a[k]);
}

impl LevelGrid {
    /// `rs` is a compaction of the grid: maximal rectangles of repeated
    /// plates, none listed twice, that together cover exactly the wall cells.
    pub open spec fn is_compaction(&self, rs: Seq<WallRect>) -> bool {
        &&& forall|k: int| 0 <= k < rs.len() ==> self.is_wall_rect(#[trigger] rs[k])
        &&& rs.no_duplicates()
        &&& forall|x: int, y: int| #[trigger] self.wall(x, y) <==> covered_by(rs, x, y)
    }
}

/// Cuts a level's wall cells into rectangles: each one a plate repeated in
/// consecutive rows and unable to grow up or down, together covering exactly
/// the wall cells, none listed twice.
pub fn compact_walls(g: &LevelGrid) -> (rects: Vec<WallRect>)
    requires
        g.wf(),
    ensures
        g.is_compaction(rects@),
{
    let height = g.height;
    let mut prev: Vec<Plate> = Vec::new();
    let mut open: Vec<WallRect> = Vec::new();
    let mut out: Vec<WallRect> = Vec::new();
    let mut y: usize = 0;
    while y <= height
        invariant
            g.wf(),
            height == g.height,
            y <= height + 1,
            g.plates_of(y - 1, prev@),
            y == 0 || y == height + 1 ==> prev@.len() == 0,
            open@.len() == prev@.len(),
            forall|i: int| 0 <= i < open@.len() ==> g.is_open_rect(#[trigger] open@[i], prev@[i], y as int),
            forall|k: int| 0 <= k < out@.len() ==> g.is_wall_rect(#[trigger] out@[k]),
            forall|k: int| 0 <= k < out@.len() ==> #[trigger] out@[k].top + 1 < y,
            out@.no_duplicates(),
            forall|x: int, yy: int|
                yy < y && #[trigger] g.wall(x, yy) ==> covered_by(out@, x, yy) || covered_by(open@, x, yy),
        decreases height + 1 - y,
    {
        let cur: Vec<Plate> = if y < height {
            row_plates(g, y)
        } else {
            Vec::new()
        };
        assert(g.plates_of(y as int, cur@)) by {
            if y == height {
                assert forall|x: int| !g.wall(x, y as int) by {}
            }
        }
        // Close the rectangles whose plate does not continue into this row.
        let ghost out_before = out@;
        let mut i: usize = 0;
        while i < prev.len()
            invariant
                g.wf(),
                height == g.height,
                y <= height,
                i <= prev@.len(),
                g.plates_of(y - 1, prev@),
                g.plates_of(y as int, cur@),
                open@.len() == prev@.len(),
                forall|i2: int| 0 <= i2 < open@.len() ==> g.is_open_rect(#[trigger] open@[i2], prev@[i2], y as int),
                out_before.len() <= out@.len(),
                out@.subrange(0, out_before.len() as int) == out_before,
                forall|k: int| 0 <= k < out@.len() ==> g.is_wall_rect(#[trigger] out@[k]),
                forall|k: int|
                    0 <= k < out@.len() ==> #[trigger] out@[k].top + 1 < y || (out@[k].top + 1 == y && forall|i2: int|
                        i <= i2 < prev@.len() ==> out@[k].left < #[trigger] prev@[i2].left),
                out@.no_duplicates(),
                forall|i2: int| 0 <= i2 < i && !span_in(cur@, #[trigger] prev@[i2]) ==> out@.contains(open@[i2]),
            decreases prev@.len() - i,
        {
            if find_span(&cur, &prev[i]).is_none() {
                let w = open[i];
                proof {
                    if g.is_plate(y as int, w.left as int, w.right as int) {
                        let l = w.left as int;
                        assert(g.wall(l, y as int));
                        let j = choose|j: int| 0 <= j < cur@.len() && #[trigger] cur@[j].left <= l <= cur@[j].right;
                        lemma_plate_unique(g, y as int, l, w.right as int, cur@[j].left as int, cur@[j].right as int, l);
                        assert(same_span(cur@[j], prev@[i as int]));
                    }
                    assert forall|k: int| 0 <= k < out@.len() implies out@[k] != w by {
                        if out@[k].top + 1 == y {
                            assert(out@[k].left < prev@[i as int].left);
                        }
                    }
                }
                let ghost out_mid = out@;
                out.push(w);
                proof {
                    assert(out@.subrange(0, out_before.len() as int) == out_mid.subrange(0, out_before.len() as int));
                    assert forall|k: int| 0 <= k < out@.len() implies #[trigger] out@[k].top + 1 < y || (out@[k].top + 1 == y && forall|i2: int|
                        i + 1 <= i2 < prev@.len() ==> out@[k].left < #[trigger] prev@[i2].left) by {
                        if k < out_mid.len() {
                            assert(out@[k] == out_mid[k]);
                        } else {
                            assert forall|i2: int| i + 1 <= i2 < prev@.len() implies out@[k].left < #[trigger] prev@[i2].left by {
                                assert(prev@[i as int].right < prev@[i2].left);
                            }
                        }
                    }
                    assert forall|a: int, b: int| 0 <= a < b < out@.len() implies out@[a] != out@[b] by {
                        if b < out_mid.len() {
                            assert(out_mid[a] != out_mid[b]);
                        }
                    }
                    assert forall|i2: int| 0 <= i2 < i + 1 && !span_in(cur@, #[trigger] prev@[i2]) implies out@.contains(open@[i2]) by {
                        if i2 < i {
                            let k = choose|k: int| 0 <= k < out_mid.len() && out_mid[k] == open@[i2];
                            assert(out@[k] == open@[i2]);
                        } else {
                            assert(out@[out@.len() - 1] == open@[i2]);
                        }
                    }
                }
            } else {
                proof {
                    assert forall|k: int| 0 <= k < out@.len() implies #[trigger] out@[k].top + 1 < y || (out@[k].top + 1 == y && forall|i2: int|
                        i + 1 <= i2 < prev@.len() ==> out@[k].left < #[trigger] prev@[i2].left) by {}
                }
            }
            i += 1;
        }
        // Grow the rectangles whose plate continues, open the others.
        let mut next: Vec<WallRect> = Vec::new();
        let mut j: usize = 0;
        while j < cur.len()
            invariant
                g.wf(),
                height == g.height,
                y <= height,
                j <= cur@.len(),
                g.plates_of(y - 1, prev@),
                g.plates_of(y as int, cur@),
                y == 0 ==> prev@.len() == 0,
                open@.len() == prev@.len(),
                forall|i2: int| 0 <= i2 < open@.len() ==> g.is_open_rect(#[trigger] open@[i2], prev@[i2], y as int),
                next@.len() == j,
                forall|j2: int| 0 <= j2 < j ==> g.is_open_rect(#[trigger] next@[j2], cur@[j2], y + 1),
                forall|j2: int, i2: int|
                    0 <= j2 < j && 0 <= i2 < prev@.len() && same_span(#[trigger] prev@[i2], #[trigger] cur@[j2]) ==> next@[j2].bottom
                        == open@[i2].bottom,
            decreases cur@.len() - j,
        {
            let p = cur[j];
            match find_span(&prev, &p) {
                Some(i) => {
                    let w = open[i];
                    let grown = WallRect { top: y, tags: w.tags.union(&p.tags), ..w };
                    proof {
                        assert forall|i2: int| 0 <= i2 < prev@.len() && same_span(prev@[i2], p) implies i2 == i by {
                            if i2 < i {
                                assert(prev@[i2].right < prev@[i as int].left);
                            } else if i2 > i {
                                assert(prev@[i as int].right < prev@[i2].left);
                            }
                        }
                        assert forall|yy: int| grown.bottom <= yy <= grown.top implies #[trigger] g.is_plate(yy, grown.left as int, grown.right as int) by {
                            if yy < y {
                                assert(g.is_plate(yy, w.left as int, w.right as int));
                            }
                        }
                    }
                    next.push(grown);
                },
                None => {
                    let fresh = WallRect { left: p.left, right: p.right, bottom: y, top: y, tags: p.tags };
                    proof {
                        if g.is_plate(y - 1, p.left as int, p.right as int) {
                            let l = p.left as int;
                            assert(g.wall(l, y - 1));
                            let i2 = choose|i2: int| 0 <= i2 < prev@.len() && #[trigger] prev@[i2].left <= l <= prev@[i2].right;
                            lemma_plate_unique(g, y - 1, l, p.right as int, prev@[i2].left as int, prev@[i2].right as int, l);
                            assert(same_span(prev@[i2], p));
                        }
                        assert(g.block_tags(p.left as int, p.right as int, y as int, y - 1) == EdgeTags::none_spec());
                        assert(EdgeTags::none_spec().union_spec(p.tags) == p.tags);
                    }
                    next.push(fresh);
                },
            }
            j += 1;
        }
        proof {
            assert forall|x: int, yy: int| yy < y + 1 && #[trigger] g.wall(x, yy) implies covered_by(out@, x, yy) || covered_by(next@, x, yy) by {
                if yy == y {
                    let j2 = choose|j2: int| 0 <= j2 < cur@.len() && #[trigger] cur@[j2].left <= x <= cur@[j2].right;
                    assert(in_rect(next@[j2], x, yy));
                } else if covered_by(out_before, x, yy) {
                    lemma_covered_grows(out_before, out@, x, yy);
                } else {
                    let i2 = choose|i2: int| 0 <= i2 < open@.len() && #[trigger] in_rect(open@[i2], x, yy);
                    if span_in(cur@, prev@[i2]) {
                        let j2 = choose|j2: int| 0 <= j2 < cur@.len() && same_span(#[trigger] cur@[j2], prev@[i2]);
                        assert(in_rect(next@[j2], x, yy));
                    } else {
                        let k = choose|k: int| 0 <= k < out@.len() && out@[k] == open@[i2];
                        assert(in_rect(out@[k], x, yy));
                    }
                }
            }
        }
        prev = cur;
        open = next;
        y += 1;
    }
    proof {
        assert forall|x: int, yy: int| #[trigger] g.wall(x, yy) <==> covered_by(out@, x, yy) by {
            if covered_by(out@, x, yy) {
                let k = choose|k: int| 0 <= k < out@.len() && #[trigger] in_rect(out@[k], x, yy);
                assert(g.is_plate(yy, out@[k].left as int, out@[k].right as int));
            }
        }
    }
    out
}

/// No cell lies in two rectangles that `compact_walls` returns: distinct
/// maximal rectangles of repeated plates never share a cell.
pub proof fn lemma_wall_rects_disjoint(g: &LevelGrid, rs: Seq<WallRect>, a: int, b: int, x: int, y: int)
    requires
        forall|k: int| 0 <= k < rs.len() ==> g.is_wall_rect(#[trigger] rs[k]),
        rs.no_duplicates(),
        0 <= a < rs.len(),
        0 <= b < rs.len(),
        in_rect(rs[a], x, y),
        in_rect(rs[b], x, y),
    ensures
        a == b,
{
    let (ra, rb) = (rs[a], rs[b]);
    assert(g.is_wall_rect(ra));
    assert(g.is_wall_rect(rb));
    assert(g.is_plate(y, ra.left as int, ra.right as int));
    assert(g.is_plate(y, rb.left as int, rb.right as int));
    lemma_plate_unique(g, y, ra.left as int, ra.right as int, rb.left as int, rb.right as int, x);
    if ra.bottom < rb.bottom {
        assert(g.is_plate(rb.bottom - 1, ra.left as int, ra.right as int));
    } else if rb.bottom < ra.bottom {
        assert(g.is_plate(ra.bottom - 1, rb.left as int, rb.right as int));
    }
    if ra.top < rb.top {
        assert(g.is_plate(ra.top + 1, rb.left as int, rb.right as int));
    } else if rb.top < ra.top {
        assert(g.is_plate(rb.top + 1, ra.left as int, ra.right as int));
    }
    assert(ra == rb);
}

/// Extent in world units of `cells` tiles of `grid_size` pixels, less `trim`
/// pixels, and never below zero.
pub open spec fn trimmed_extent(cells: int, grid_size: int, trim: int) -> int {
    let v = (cells * grid_size - trim) * UNITS_PER_PIXEL;
    if v < 0 { 0 } else { v }
}

/// Where the collider of wall rectangle `w` stands: its center.
pub open spec fn wall_position(w: WallRect, grid_size: int) -> Vec3 {
    Vec3 {
        x: ((w.left + w.right + 1) * grid_size * UNITS_PER_PIXEL / 2) as i64,
        y: ((w.bottom + w.top + 1) * grid_size * UNITS_PER_PIXEL / 2) as i64,
        z: 0,
    }
}

/// The size of the collider of `w`: its extent, less the trim of each
/// labelled side.
pub open spec fn wall_size(w: WallRect, grid_size: int) -> Vec2 {
    Vec2 {
        x: trimmed_extent(
            w.right - w.left + 1,
            grid_size,
            (if w.tags.left { SIDE_TRIM_PX } else { 0 }) + (if w.tags.right { SIDE_TRIM_PX } else { 0 }),
        ) as i64,
        y: trimmed_extent(
            w.top - w.bottom + 1,
            grid_size,
            (if w.tags.top { END_TRIM_PX } else { 0 }) + (if w.tags.bottom { END_TRIM_PX } else { 0 }),
        ) as i64,
    }
}

/// The offset of the collider of `w`: shifted toward each labelled side.
pub open spec fn wall_offset(w: WallRect) -> Vec2 {
    Vec2 {
        x: (((if w.tags.right { SIDE_SHIFT_PX } else { 0 }) - (if w.tags.left { SIDE_SHIFT_PX } else { 0 }))
            * UNITS_PER_PIXEL) as i64,
        y: (((if w.tags.top { END_SHIFT_PX } else { 0 }) - (if w.tags.bottom { END_SHIFT_PX } else { 0 }))
            * UNITS_PER_PIXEL) as i64,
    }
}

/// The collider of a wall rectangle and the position it stands at: the
/// rectangle's grid extent, trimmed and shifted inward for each labelled side.
pub fn wall_collider(w: &WallRect, grid_size: i64) -> (r: (Vec3, Collider))
    requires
        w.left <= w.right < MAX_LEVEL_CELLS,
        w.bottom <= w.top < MAX_LEVEL_CELLS,
        0 < grid_size <= MAX_GRID_SIZE,
    ensures
        r.0 == wall_position(*w, grid_size as int),
        r.0.in_world(),
        r.1.wf(),
        r.1.collisions@.len() == 0,
        r.1.size == wall_size(*w, grid_size as int),
        r.1.offset == wall_offset(*w),
{
    let cols = (w.right - w.left + 1) as i64;
    let rows = (w.top - w.bottom + 1) as i64;
    let xs = (w.left + w.right + 1) as i64;
    let ys = (w.bottom + w.top + 1) as i64;
    proof {
        assert(cols * grid_size <= MAX_LEVEL_CELLS * MAX_GRID_SIZE) by (nonlinear_arith)
            requires 0 < cols <= MAX_LEVEL_CELLS, 0 < grid_size <= MAX_GRID_SIZE;
        assert(rows * grid_size <= MAX_LEVEL_CELLS * MAX_GRID_SIZE) by (nonlinear_arith)
            requires 0 < rows <= MAX_LEVEL_CELLS, 0 < grid_size <= MAX_GRID_SIZE;
        assert(xs * grid_size <= 2 * MAX_LEVEL_CELLS * MAX_GRID_SIZE) by (nonlinear_arith)
            requires 0 < xs <= 2 * MAX_LEVEL_CELLS, 0 < grid_size <= MAX_GRID_SIZE;
        assert(ys * grid_size <= 2 * MAX_LEVEL_CELLS * MAX_GRID_SIZE) by (nonlinear_arith)
            requires 0 < ys <= 2 * MAX_LEVEL_CELLS, 0 < grid_size <= MAX_GRID_SIZE;
        assert(xs * grid_size > 0) by (nonlinear_arith)
            requires 0 < xs, 0 < grid_size;
        assert(ys * grid_size > 0) by (nonlinear_arith)
            requires 0 < ys, 0 < grid_size;
    }
    let mut width_px: i64 = cols * grid_size;
    let mut height_px: i64 = rows * grid_size;
    let mut offset_x_px: i64 = 0;
    let mut offset_y_px: i64 = 0;
    if w.tags.left {
        width_px = width_px - SIDE_TRIM_PX;
        offset_x_px = offset_x_px - SIDE_SHIFT_PX;
    }
    if w.tags.right {
        width_px = width_px - SIDE_TRIM_PX;
        offset_x_px = offset_x_px + SIDE_SHIFT_PX;
    }
    if w.tags.top {
        height_px = height_px - END_TRIM_PX;
        offset_y_px = offset_y_px + END_SHIFT_PX;
    }
    if w.tags.bottom {
        height_px = height_px - END_TRIM_PX;
        offset_y_px = offset_y_px - END_SHIFT_PX;
    }
    let size = Vec2 {
        x: if width_px < 0 { 0 } else { width_px * UNITS_PER_PIXEL },
        y: if height_px < 0 { 0 } else { height_px * UNITS_PER_PIXEL },
    };
    let offset = Vec2 { x: offset_x_px * UNITS_PER_PIXEL, y: offset_y_px * UNITS_PER_PIXEL };
    let position = Vec3 {
        x: xs * grid_size * UNITS_PER_PIXEL / 2,
        y: ys * grid_size * UNITS_PER_PIXEL / 2,
        z: 0,
    };
    (position, Collider::with_size_and_offset(size, offset))
}

/// `e` is the static wall entity built from rectangle `w` of level `level`:
/// attached to the level, with a fresh collider.
pub open spec fn is_wall_entity(e: EntityRecord, w: WallRect, grid_size: int, level: Entity) -> bool {
    &&& e.role == Role::WallTile
    &&& e.parent == Some(level)
    &&& e.transform == wall_position(w, grid_size)
    &&& e.collider matches Some(c) && c.size == wall_size(w, grid_size) && c.offset == wall_offset(w)
        && c.collisions@.len() == 0
    &&& e.damage is None
    &&& e.health is None
    &&& e.damage_cooldown is None
    &&& e.knockback is None
    &&& e.velocity is None
    &&& e.weapon is None
}

/// Some wall entity is already attached to level `level`.
pub open spec fn has_walls(ents: Seq<EntityRecord>, level: Entity) -> bool {
    exists|i: int| 0 <= i < ents.len() && (#[trigger] ents[i]).role == Role::WallTile && ents[i].parent == Some(level)
}

fn level_has_walls(ents: &Vec<EntityRecord>, level: Entity) -> (r: bool)
    ensures
        r == has_walls(ents@, level),
{
    let mut i: usize = 0;
    while i < ents.len()
        invariant
            i <= ents@.len(),
            forall|k: int| 0 <= k < i ==> !((#[trigger] ents@[k]).role == Role::WallTile && ents@[k].parent == Some(level)),
        decreases ents@.len() - i,
    {
        if ents[i].role == Role::WallTile && ents[i].parent == Some(level) {
            return true;
        }
        i += 1;
    }
    false
}

/// Compacts the walls of level `level` and adds one static wall entity per
/// rectangle, attached to the level; this happens once per level. Returns
/// how many were added: all of them, or none when the level already has its
/// walls or the identifiers would run out.
pub fn add_wall_colliders(world: &mut World, g: &LevelGrid, grid_size: i64, level: Entity) -> (added: usize)
    requires
        old(world).wf(),
        g.wf(),
        0 < grid_size <= MAX_GRID_SIZE,
    ensures
        final(world).wf(),
        final(world).entities@.subrange(0, old(world).entities@.len() as int) == old(world).entities@,
        final(world).entities@.len() == old(world).entities@.len() + added,
        has_walls(old(world).entities@, level) ==> added == 0,
        !has_walls(old(world).entities@, level) ==> exists|rs: Seq<WallRect>|
            #![trigger g.is_compaction(rs)]
            g.is_compaction(rs) && (added == rs.len() || (added == 0 && old(world).next_id + rs.len() > u64::MAX))
                && forall|k: int|
                0 <= k < added ==> is_wall_entity(
                    #[trigger] final(world).entities@[old(world).entities@.len() + k],
                    rs[k],
                    grid_size as int,
                    level,
                ),
{
    if level_has_walls(&world.entities, level) {
        assert(world.entities@.subrange(0, world.entities@.len() as int) =~= world.entities@);
        return 0;
    }
    let rects = compact_walls(g);
    let ghost n = world.entities@.len() as int;
    let ghost start = world.entities@;
    if world.next_id as u128 + rects.len() as u128 > u64::MAX as u128 {
        return 0;
    }
    let mut k: usize = 0;
    while k < rects.len()
        invariant
            world.wf(),
            g.wf(),
            g.is_compaction(rects@),
            0 < grid_size <= MAX_GRID_SIZE,
            0 <= n,
            k <= rects@.len(),
            world.next_id + (rects@.len() - k) <= u64::MAX,
            world.entities@.len() == n + k,
            world.entities@.subrange(0, n) == start,
            forall|m: int| 0 <= m < k ==> is_wall_entity(#[trigger] world.entities@[n + m], rects@[m], grid_size as int, level),
        decreases rects@.len() - k,
    {
        let w = rects[k];
        proof {
            assert(g.is_wall_rect(rects@[k as int]));
            assert(g.is_plate(w.bottom as int, w.left as int, w.right as int));
            assert(g.wall(w.left as int, w.bottom as int));
            assert(g.wall(w.right as int, w.bottom as int));
            assert(g.is_plate(w.top as int, w.left as int, w.right as int));
            assert(g.wall(w.left as int, w.top as int));
        }
        let (position, collider) = wall_collider(&w, grid_size);
        let mut rec = EntityRecord::new(0, Role::WallTile, position);
        rec.collider = Some(collider);
        rec.parent = Some(level);
        let ghost before = world.entities@;
        world.spawn(rec);
        proof {
            assert(world.entities@.subrange(0, n) =~= before.subrange(0, n));
            assert forall|m: int| 0 <= m < k + 1 implies is_wall_entity(#[trigger] world.entities@[n + m], rects@[m], grid_size as int, level) by {
                if m < k {
                    assert(world.entities@[n + m] == before[n + m]);
                }
            }
        }
        k += 1;
    }
    rects.len()
}

} // verus!
