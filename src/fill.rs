//! Flood fill: four-connected, breadth-first, from a seed pixel.
use vstd::prelude::*;

use std::collections::VecDeque;

use crate::color::Color;
use crate::geometry::ImageRect;
use crate::layer::{index_of, lemma_index_in_range, lemma_index_injective, lemma_write_pixel, pixel_of, Layer};

verus! {

/// Two points of the grid are horizontal or vertical neighbours.
pub open spec fn adjacent(x1: int, y1: int, x2: int, y2: int) -> bool {
    (x1 == x2 && (y1 == y2 + 1 || y1 + 1 == y2)) || (y1 == y2 && (x1 == x2 + 1 || x1 + 1 == x2))
}

/// A walk through pixels of `l` that all have color `target`, each step
/// going to a horizontal or vertical neighbour.
pub open spec fn is_fill_path(l: Layer, target: Color, path: Seq<(int, int)>) -> bool {
    &&& path.len() > 0
    &&& forall|i: int|
        0 <= i < path.len() ==> l.in_bounds(#[trigger] path[i].0, path[i].1) && l.pixel(
            path[i].0,
            path[i].1,
        ) == target
    &&& forall|i: int|
        0 <= i < path.len() - 1 ==> adjacent(
            #[trigger] path[i].0,
            path[i].1,
            path[i + 1].0,
            path[i + 1].1,
        )
}

/// Pixel `(x, y)` is reached from seed `(sx, sy)` through neighbouring pixels
/// of the seed's color: the region that a fill from the seed paints.
pub open spec fn fill_reachable(l: Layer, sx: int, sy: int, x: int, y: int) -> bool {
    &&& l.in_bounds(sx, sy)
    &&& exists|path: Seq<(int, int)>|
        #[trigger] is_fill_path(l, l.pixel(sx, sy), path) && path[0] == (sx, sy) && path.last() == (
        x,
        y,
    )
}

/// `(x, y)` is a queued point.
pub open spec fn queued(q: Seq<(i64, i64)>, x: int, y: int) -> bool {
    exists|i: int| 0 <= i < q.len() && #[trigger] q[i].0 == x && q[i].1 == y
}

/// Were `(nx, ny)` a pixel of `orig` of color `target`, it is painted.
pub open spec fn neighbour_done(orig: Layer, painted: Set<int>, target: Color, nx: int, ny: int) -> bool {
    orig.in_bounds(nx, ny) && orig.pixel(nx, ny) == target ==> painted.contains(
        index_of(orig.rect.w as int, nx, ny),
    )
}

/// Every neighbour of `(x, y)` that had color `target` is painted.
pub open spec fn closed(orig: Layer, painted: Set<int>, target: Color, x: int, y: int) -> bool {
    &&& neighbour_done(orig, painted, target, x - 1, y)
    &&& neighbour_done(orig, painted, target, x + 1, y)
    &&& neighbour_done(orig, painted, target, x, y - 1)
    &&& neighbour_done(orig, painted, target, x, y + 1)
}

/// The state of a fill of `orig` from `(sx, sy)` with `color`: `now` holds
/// `color` exactly at the painted pixels, each painted pixel had the seed's
/// color and is reached from the seed, every queued point is painted, and
/// every painted pixel out of the queue other than `(ex, ey)` has all its
/// neighbours of the seed's color painted.
pub open spec fn fill_inv(
    orig: Layer,
    now: Layer,
    sx: int,
    sy: int,
    target: Color,
    color: Color,
    painted: Set<int>,
    q: Seq<(i64, i64)>,
    ex: int,
    ey: int,
) -> bool {
    let w = orig.rect.w as int;
    &&& orig.wf()
    &&& now.wf()
    &&& now.rect == orig.rect
    &&& now.dirty_rect == orig.dirty_rect
    &&& now.z_index == orig.z_index
    &&& orig.in_bounds(sx, sy)
    &&& target == orig.pixel(sx, sy)
    &&& color != target
    &&& painted.finite()
    &&& painted.subset_of(vstd::set_lib::set_int_range(0, orig.rect.w * orig.rect.h))
    &&& forall|x: int, y: int|
        orig.in_bounds(x, y) ==> #[trigger] now.pixel(x, y) == if painted.contains(
            index_of(w, x, y),
        ) {
            color
        } else {
            orig.pixel(x, y)
        }
    &&& forall|x: int, y: int|
        orig.in_bounds(x, y) && #[trigger] painted.contains(index_of(w, x, y)) ==> orig.pixel(x, y)
            == target && fill_reachable(orig, sx, sy, x, y)
    &&& forall|i: int|
        0 <= i < q.len() ==> orig.in_bounds(#[trigger] q[i].0 as int, q[i].1 as int)
            && painted.contains(index_of(w, q[i].0 as int, q[i].1 as int))
    &&& forall|x: int, y: int|
        orig.in_bounds(x, y) && #[trigger] painted.contains(index_of(w, x, y)) && !queued(q, x, y)
            && !(x == ex && y == ey) ==> closed(orig, painted, target, x, y)
}

/// Appending a neighbour of the seed's color to a walk from the seed reaches it.
pub proof fn lemma_reach_step(l: Layer, sx: int, sy: int, x: int, y: int, nx: int, ny: int)
    requires
        fill_reachable(l, sx, sy, x, y),
        l.in_bounds(nx, ny),
        l.pixel(nx, ny) == l.pixel(sx, sy),
        adjacent(x, y, nx, ny),
    ensures
        fill_reachable(l, sx, sy, nx, ny),
{
    let target = l.pixel(sx, sy);
    let path = choose|path: Seq<(int, int)>|
        #[trigger] is_fill_path(l, target, path) && path[0] == (sx, sy) && path.last() == (x, y);
    let longer = path.push((nx, ny));
    assert forall|i: int| 0 <= i < longer.len() - 1 implies adjacent(
        #[trigger] longer[i].0,
        longer[i].1,
        longer[i + 1].0,
        longer[i + 1].1,
    ) by {
        if i < path.len() - 1 {
            assert(longer[i] == path[i] && longer[i + 1] == path[i + 1]);
            assert(adjacent(path[i].0, path[i].1, path[i + 1].0, path[i + 1].1));
        } else {
            assert(longer[i] == path.last());
        }
    }
    assert forall|i: int| 0 <= i < longer.len() implies l.in_bounds(
        #[trigger] longer[i].0,
        longer[i].1,
    ) && l.pixel(longer[i].0, longer[i].1) == target by {
        if i < path.len() {
            assert(longer[i] == path[i]);
        }
    }
    assert(is_fill_path(l, target, longer) && longer[0] == (sx, sy) && longer.last() == (nx, ny));
}

/// The seed is reached from itself.
pub proof fn lemma_reach_seed(l: Layer, sx: int, sy: int)
    requires
        l.in_bounds(sx, sy),
    ensures
        fill_reachable(l, sx, sy, sx, sy),
{
    let path = seq![(sx, sy)];
    assert(is_fill_path(l, l.pixel(sx, sy), path));
}

/// Once no painted pixel is left open, every pixel along a walk from the seed
/// is painted.
pub proof fn lemma_walk_painted(
    orig: Layer,
    sx: int,
    sy: int,
    target: Color,
    painted: Set<int>,
    path: Seq<(int, int)>,
)
    requires
        is_fill_path(orig, target, path),
        path[0] == (sx, sy),
        painted.contains(index_of(orig.rect.w as int, sx, sy)),
        forall|x: int, y: int|
            orig.in_bounds(x, y) && #[trigger] painted.contains(index_of(orig.rect.w as int, x, y))
                ==> closed(orig, painted, target, x, y),
    ensures
        painted.contains(index_of(orig.rect.w as int, path.last().0, path.last().1)),
    decreases path.len(),
{
    if path.len() > 1 {
        let prefix = path.drop_last();
        assert forall|i: int| 0 <= i < prefix.len() - 1 implies adjacent(
            #[trigger] prefix[i].0,
            prefix[i].1,
            prefix[i + 1].0,
            prefix[i + 1].1,
        ) by {
            assert(prefix[i] == path[i] && prefix[i + 1] == path[i + 1]);
            assert(adjacent(path[i].0, path[i].1, path[i + 1].0, path[i + 1].1));
        }
        assert forall|i: int| 0 <= i < prefix.len() implies orig.in_bounds(
            #[trigger] prefix[i].0,
            prefix[i].1,
        ) && orig.pixel(prefix[i].0, prefix[i].1) == target by {
            assert(prefix[i] == path[i]);
        }
        lemma_walk_painted(orig, sx, sy, target, painted, prefix);
        let k = path.len() - 2;
        let (x, y) = path[k];
        let (nx, ny) = path.last();
        assert(prefix.last() == path[k]);
        assert(adjacent(path[k].0, path[k].1, path[k + 1].0, path[k + 1].1));
        assert(orig.in_bounds(path[k].0, path[k].1));
        assert(orig.in_bounds(path[k + 1].0, path[k + 1].1) && orig.pixel(
            path[k + 1].0,
            path[k + 1].1,
        ) == target);
        assert(closed(orig, painted, target, x, y));
    }
}

/// The painted pixels lie within columns `lo_x..=hi_x` and rows
/// `lo_y..=hi_y` of the layer, and each of the four bounds is reached by a
/// painted pixel.
pub open spec fn box_inv(orig: Layer, painted: Set<int>, lo_x: int, hi_x: int, lo_y: int, hi_y: int) -> bool {
    let w = orig.rect.w as int;
    &&& 0 <= lo_x <= hi_x < orig.rect.w
    &&& 0 <= lo_y <= hi_y < orig.rect.h
    &&& forall|x: int, y: int|
        orig.in_bounds(x, y) && #[trigger] painted.contains(index_of(w, x, y)) ==> lo_x <= x <= hi_x
            && lo_y <= y <= hi_y
    &&& exists|x: int, y: int|
        orig.in_bounds(x, y) && #[trigger] painted.contains(index_of(w, x, y)) && x == lo_x
    &&& exists|x: int, y: int|
        orig.in_bounds(x, y) && #[trigger] painted.contains(index_of(w, x, y)) && x == hi_x
    &&& exists|x: int, y: int|
        orig.in_bounds(x, y) && #[trigger] painted.contains(index_of(w, x, y)) && y == lo_y
    &&& exists|x: int, y: int|
        orig.in_bounds(x, y) && #[trigger] painted.contains(index_of(w, x, y)) && y == hi_y
}

/// `b` is the bounding box, on the canvas, of the pixels that a fill of `l`
/// from `(sx, sy)` reaches: it holds each of them, and each of its four edges
/// passes through one of them.
pub open spec fn is_fill_box(l: Layer, sx: int, sy: int, b: ImageRect) -> bool {
    &&& forall|x: int, y: int|
        #[trigger] fill_reachable(l, sx, sy, x, y) ==> b.has_point(x + l.rect.x, y + l.rect.y)
    &&& exists|x: int, y: int| #[trigger] fill_reachable(l, sx, sy, x, y) && x + l.rect.x == b.x
    &&& exists|x: int, y: int|
        #[trigger] fill_reachable(l, sx, sy, x, y) && x + l.rect.x == b.right() - 1
    &&& exists|x: int, y: int| #[trigger] fill_reachable(l, sx, sy, x, y) && y + l.rect.y == b.y
    &&& exists|x: int, y: int|
        #[trigger] fill_reachable(l, sx, sy, x, y) && y + l.rect.y == b.bottom() - 1
}

/// The bounding box, on the canvas, of the pixels that a fill of `l` from
/// `(sx, sy)` reaches.
pub open spec fn fill_box(l: Layer, sx: int, sy: int) -> ImageRect {
    choose|b: ImageRect| is_fill_box(l, sx, sy, b)
}

/// A region has one bounding box.
pub proof fn lemma_fill_box_unique(l: Layer, sx: int, sy: int, a: ImageRect, b: ImageRect)
    requires
        is_fill_box(l, sx, sy, a),
        is_fill_box(l, sx, sy, b),
    ensures
        a == b,
{
    let (x1, y1) = choose|x: int, y: int| #[trigger] fill_reachable(l, sx, sy, x, y) && x + l.rect.x == a.x;
    let (x2, y2) = choose|x: int, y: int| #[trigger] fill_reachable(l, sx, sy, x, y) && x + l.rect.x == b.x;
    assert(b.has_point(x1 + l.rect.x, y1 + l.rect.y));
    assert(a.has_point(x2 + l.rect.x, y2 + l.rect.y));
    let (x3, y3) = choose|x: int, y: int|
        #[trigger] fill_reachable(l, sx, sy, x, y) && x + l.rect.x == a.right() - 1;
    let (x4, y4) = choose|x: int, y: int|
        #[trigger] fill_reachable(l, sx, sy, x, y) && x + l.rect.x == b.right() - 1;
    assert(b.has_point(x3 + l.rect.x, y3 + l.rect.y));
    assert(a.has_point(x4 + l.rect.x, y4 + l.rect.y));
    let (x5, y5) = choose|x: int, y: int| #[trigger] fill_reachable(l, sx, sy, x, y) && y + l.rect.y == a.y;
    let (x6, y6) = choose|x: int, y: int| #[trigger] fill_reachable(l, sx, sy, x, y) && y + l.rect.y == b.y;
    assert(b.has_point(x5 + l.rect.x, y5 + l.rect.y));
    assert(a.has_point(x6 + l.rect.x, y6 + l.rect.y));
    let (x7, y7) = choose|x: int, y: int|
        #[trigger] fill_reachable(l, sx, sy, x, y) && y + l.rect.y == a.bottom() - 1;
    let (x8, y8) = choose|x: int, y: int|
        #[trigger] fill_reachable(l, sx, sy, x, y) && y + l.rect.y == b.bottom() - 1;
    assert(b.has_point(x7 + l.rect.x, y7 + l.rect.y));
    assert(a.has_point(x8 + l.rect.x, y8 + l.rect.y));
}

impl Layer {
    /// One neighbour of a painted pixel: when it still has the seed's color,
    /// paints it and queues it.
    fn fill_visit(
        &mut self,
        queue: &mut VecDeque<(i64, i64)>,
        Ghost(orig): Ghost<Layer>,
        painted: &mut Ghost<Set<int>>,
        lo_x: &mut i64,
        hi_x: &mut i64,
        lo_y: &mut i64,
        hi_y: &mut i64,
        Ghost(sx): Ghost<int>,
        Ghost(sy): Ghost<int>,
        px: i64,
        py: i64,
        nx: i64,
        ny: i64,
        target: Color,
        color: Color,
    ) -> (did: bool)
        requires
            fill_inv(orig, *old(self), sx, sy, target, color, old(painted)@, old(queue)@, px as int, py as int),
            box_inv(orig, old(painted)@, *old(lo_x) as int, *old(hi_x) as int, *old(lo_y) as int, *old(hi_y) as int),
            orig.in_bounds(px as int, py as int),
            old(painted)@.contains(index_of(orig.rect.w as int, px as int, py as int)),
            adjacent(px as int, py as int, nx as int, ny as int),
        ensures
            fill_inv(orig, *final(self), sx, sy, target, color, final(painted)@, final(queue)@, px as int, py as int),
            box_inv(orig, final(painted)@, *final(lo_x) as int, *final(hi_x) as int, *final(lo_y) as int, *final(hi_y) as int),
            old(painted)@.subset_of(final(painted)@),
            neighbour_done(orig, final(painted)@, target, nx as int, ny as int),
            !did ==> final(painted)@ == old(painted)@ && final(queue)@ == old(queue)@,
            did ==> orig.in_bounds(nx as int, ny as int) && !old(painted)@.contains(
                index_of(orig.rect.w as int, nx as int, ny as int),
            ) && final(painted)@ == old(painted)@.insert(
                index_of(orig.rect.w as int, nx as int, ny as int),
            ) && final(queue)@.len() == old(queue)@.len() + 1,
    {
        let ghost p = painted@;
        let ghost w = orig.rect.w as int;
        let ghost h = orig.rect.h as int;
        if nx >= 0 && nx < self.rect.w as i64 && ny >= 0 && ny < self.rect.h as i64 {
            let c = self.pixel_wide(nx, ny);
            if c == target {
                let ghost k = index_of(w, nx as int, ny as int);
                let ghost before = self.data@;
                let ghost q0 = queue@;
                assert(!p.contains(k));
                assert(orig.pixel(nx as int, ny as int) == target);
                self.plot(nx as i128, ny as i128, color);
                queue.push_back((nx, ny));
                let ghost grown = p.insert(k);
                proof {
                    lemma_index_in_range(w, h, nx as int, ny as int);
                    lemma_write_pixel(before, w, h, nx as int, ny as int, color);
                    lemma_reach_step(orig, sx, sy, px as int, py as int, nx as int, ny as int);
                    assert(grown.len() == p.len() + 1);
                    assert forall|x: int, y: int| orig.in_bounds(x, y) implies #[trigger] grown.contains(
                        index_of(w, x, y),
                    ) == (p.contains(index_of(w, x, y)) || (x == nx && y == ny)) by {
                        if x != nx || y != ny {
                            lemma_index_injective(w, x, y, nx as int, ny as int);
                        }
                    }
                    assert forall|x: int, y: int| orig.in_bounds(x, y) implies #[trigger] self.pixel(
                        x,
                        y,
                    ) == if grown.contains(index_of(w, x, y)) {
                        color
                    } else {
                        orig.pixel(x, y)
                    } by {
                        assert(self.pixel(x, y) == pixel_of(before.update(k, color), w, x, y));
                        assert(old(self).pixel(x, y) == pixel_of(before, w, x, y));
                    }
                    assert forall|x: int, y: int|
                        orig.in_bounds(x, y) && #[trigger] grown.contains(index_of(w, x, y))
                            implies orig.pixel(x, y) == target && fill_reachable(orig, sx, sy, x, y) by {
                        if x != nx || y != ny {
                            assert(p.contains(index_of(w, x, y)));
                        }
                    }
                    let q = queue@;
                    assert forall|i: int| 0 <= i < q.len() implies orig.in_bounds(
                        #[trigger] q[i].0 as int,
                        q[i].1 as int,
                    ) && grown.contains(index_of(w, q[i].0 as int, q[i].1 as int)) by {
                        if i < q0.len() {
                            assert(q[i] == q0[i]);
                        }
                    }
                    assert forall|x: int, y: int|
                        orig.in_bounds(x, y) && #[trigger] grown.contains(index_of(w, x, y)) && !queued(
                            q,
                            x,
                            y,
                        ) && !(x == px && y == py) implies closed(orig, grown, target, x, y) by {
                        if x == nx && y == ny {
                            assert(q[q.len() - 1].0 == x && q[q.len() - 1].1 == y);
                        } else {
                            assert(p.contains(index_of(w, x, y)));
                            if queued(q0, x, y) {
                                let i = choose|i: int|
                                    0 <= i < q0.len() && #[trigger] q0[i].0 == x && q0[i].1 == y;
                                assert(q[i] == q0[i]);
                            }
                            assert(closed(orig, p, target, x, y));
                        }
                    }
                    assert(grown.subset_of(vstd::set_lib::set_int_range(0, w * h)));
                }
                let ghost b0 = (*lo_x as int, *hi_x as int, *lo_y as int, *hi_y as int);
                if nx < *lo_x {
                    *lo_x = nx;
                }
                if nx > *hi_x {
                    *hi_x = nx;
                }
                if ny < *lo_y {
                    *lo_y = ny;
                }
                if ny > *hi_y {
                    *hi_y = ny;
                }
                proof {
                    assert forall|x: int, y: int|
                        orig.in_bounds(x, y) && #[trigger] grown.contains(index_of(w, x, y)) implies *lo_x
                            <= x <= *hi_x && *lo_y <= y <= *hi_y by {
                        if x != nx || y != ny {
                            assert(p.contains(index_of(w, x, y)));
                        }
                    }
                    assert(grown.contains(index_of(w, nx as int, ny as int)));
                    if nx >= b0.0 {
                        let (ex, ey) = choose|x: int, y: int|
                            orig.in_bounds(x, y) && #[trigger] p.contains(index_of(w, x, y)) && x == b0.0;
                        assert(grown.contains(index_of(w, ex, ey)));
                    }
                    if nx <= b0.1 {
                        let (ex, ey) = choose|x: int, y: int|
                            orig.in_bounds(x, y) && #[trigger] p.contains(index_of(w, x, y)) && x == b0.1;
                        assert(grown.contains(index_of(w, ex, ey)));
                    }
                    if ny >= b0.2 {
                        let (ex, ey) = choose|x: int, y: int|
                            orig.in_bounds(x, y) && #[trigger] p.contains(index_of(w, x, y)) && y == b0.2;
                        assert(grown.contains(index_of(w, ex, ey)));
                    }
                    if ny <= b0.3 {
                        let (ex, ey) = choose|x: int, y: int|
                            orig.in_bounds(x, y) && #[trigger] p.contains(index_of(w, x, y)) && y == b0.3;
                        assert(grown.contains(index_of(w, ex, ey)));
                    }
                    painted@ = grown;
                }
                return true;
            }
        }
        false
    }

    /// Flood fill from `(x, y)`: every pixel reached from the seed through
    /// horizontal and vertical neighbours of the seed's color takes `color`,
    /// and the dirty rectangle grows by the bounding box of those pixels.
    /// Every other pixel keeps its color. A seed outside the layer, or one
    /// that already has `color`, leaves the layer exactly as it was.
    pub fn fill(&mut self, x: i32, y: i32, color: Color)
        requires
            old(self).wf(),
        ensures
            final(self).wf(),
            final(self).rect == old(self).rect,
            final(self).z_index == old(self).z_index,
            !old(self).in_bounds(x as int, y as int) || old(self).pixel(x as int, y as int) == color
                ==> final(self).data@ == old(self).data@ && final(self).dirty_rect == old(
                self,
            ).dirty_rect,
            old(self).in_bounds(x as int, y as int) && old(self).pixel(x as int, y as int) != color
                ==> is_fill_box(*old(self), x as int, y as int, fill_box(*old(self), x as int, y as int))
                && final(self).dirty_rect == old(self).dirty_rect.union_of(
                fill_box(*old(self), x as int, y as int),
            ),
            forall|px: int, py: int|
                old(self).in_bounds(px, py) ==> #[trigger] final(self).pixel(px, py) == if fill_reachable(
                    *old(self),
                    x as int,
                    y as int,
                    px,
                    py,
                ) && old(self).pixel(x as int, y as int) != color {
                    color
                } else {
                    old(self).pixel(px, py)
                },
    {
        let target = match self.get_pixel(x, y) {
            Some(c) => c,
            None => {
                return;
            },
        };
        if target == color {
            return;
        }
        let ghost orig = *self;
        let ghost w = self.rect.w as int;
        let ghost h = self.rect.h as int;
        let ghost k0 = index_of(w, x as int, y as int);
        let ghost before = self.data@;
        self.plot(x as i128, y as i128, color);
        let mut queue: VecDeque<(i64, i64)> = VecDeque::new();
        queue.push_back((x as i64, y as i64));
        let mut painted: Ghost<Set<int>> = Ghost(Set::empty().insert(k0));
        let mut lo_x: i64 = x as i64;
        let mut hi_x: i64 = x as i64;
        let mut lo_y: i64 = y as i64;
        let mut hi_y: i64 = y as i64;
        proof {
            lemma_index_in_range(w, h, x as int, y as int);
            lemma_write_pixel(before, w, h, x as int, y as int, color);
            lemma_reach_seed(orig, x as int, y as int);
            assert forall|px: int, py: int| orig.in_bounds(px, py) implies #[trigger] painted@.contains(
                index_of(w, px, py),
            ) == (px == x && py == y) by {
                if px != x || py != y {
                    lemma_index_injective(w, px, py, x as int, y as int);
                }
            }
            assert forall|px: int, py: int| orig.in_bounds(px, py) implies #[trigger] self.pixel(px, py)
                == if painted@.contains(index_of(w, px, py)) {
                color
            } else {
                orig.pixel(px, py)
            } by {
                assert(self.pixel(px, py) == pixel_of(before.update(k0, color), w, px, py));
            }
            assert(queue@[0].0 == x && queue@[0].1 == y);
            assert(painted@.subset_of(vstd::set_lib::set_int_range(0, w * h)));
            assert(painted@.contains(index_of(w, x as int, y as int)));
        }
        while queue.len() > 0
            invariant
                fill_inv(orig, *self, x as int, y as int, target, color, painted@, queue@, -1, -1),
                box_inv(orig, painted@, lo_x as int, hi_x as int, lo_y as int, hi_y as int),
                orig == *old(self),
                painted@.contains(k0),
                k0 == index_of(w, x as int, y as int),
                w == orig.rect.w,
                h == orig.rect.h,
                painted@.len() <= w * h,
            decreases w * h - painted@.len(), queue@.len(),
        {
            let ghost q_before = queue@;
            let (px, py) = queue.pop_front().unwrap();
            let ghost p0 = painted@;
            proof {
                let q = queue@;
                assert(q_before[0] == (px, py));
                assert(orig.in_bounds(q_before[0].0 as int, q_before[0].1 as int));
                assert forall|i: int| 0 <= i < q.len() implies orig.in_bounds(
                    #[trigger] q[i].0 as int,
                    q[i].1 as int,
                ) && p0.contains(index_of(w, q[i].0 as int, q[i].1 as int)) by {
                    assert(q[i] == q_before[i + 1]);
                }
                assert forall|cx: int, cy: int|
                    orig.in_bounds(cx, cy) && #[trigger] p0.contains(index_of(w, cx, cy)) && !queued(
                        q,
                        cx,
                        cy,
                    ) && !(cx == px && cy == py) implies closed(orig, p0, target, cx, cy) by {
                    if queued(q_before, cx, cy) {
                        let i = choose|i: int|
                            0 <= i < q_before.len() && #[trigger] q_before[i].0 == cx && q_before[i].1
                                == cy;
                        assert(i != 0);
                        assert(q[i - 1] == q_before[i]);
                    }
                }
            }
            self.fill_visit(
                &mut queue,
                Ghost(orig),
                &mut painted,
                &mut lo_x,
                &mut hi_x,
                &mut lo_y,
                &mut hi_y,
                Ghost(x as int),
                Ghost(y as int),
                px,
                py,
                px - 1,
                py,
                target,
                color,
            );
            self.fill_visit(
                &mut queue,
                Ghost(orig),
                &mut painted,
                &mut lo_x,
                &mut hi_x,
                &mut lo_y,
                &mut hi_y,
                Ghost(x as int),
                Ghost(y as int),
                px,
                py,
                px + 1,
                py,
                target,
                color,
            );
            self.fill_visit(
                &mut queue,
                Ghost(orig),
                &mut painted,
                &mut lo_x,
                &mut hi_x,
                &mut lo_y,
                &mut hi_y,
                Ghost(x as int),
                Ghost(y as int),
                px,
                py,
                px,
                py - 1,
                target,
                color,
            );
            self.fill_visit(
                &mut queue,
                Ghost(orig),
                &mut painted,
                &mut lo_x,
                &mut hi_x,
                &mut lo_y,
                &mut hi_y,
                Ghost(x as int),
                Ghost(y as int),
                px,
                py,
                px,
                py + 1,
                target,
                color,
            );
            proof {
                let pn = painted@;
                vstd::set_lib::lemma_int_range(0, w * h);
                vstd::set_lib::lemma_len_subset(pn, vstd::set_lib::set_int_range(0, w * h));
                assert(neighbour_done(orig, pn, target, px - 1, py as int));
                assert(neighbour_done(orig, pn, target, px + 1, py as int));
                assert(neighbour_done(orig, pn, target, px as int, py - 1));
                assert(closed(orig, pn, target, px as int, py as int));
                assert forall|cx: int, cy: int|
                    orig.in_bounds(cx, cy) && #[trigger] pn.contains(index_of(w, cx, cy)) && !queued(
                        queue@,
                        cx,
                        cy,
                    ) && !(cx == -1 && cy == -1) implies closed(orig, pn, target, cx, cy) by {
                    if cx == px && cy == py {
                    } else {
                        assert(closed(orig, pn, target, cx, cy));
                    }
                }
            }
        }
        let ghost pn = painted@;
        proof {
            assert forall|cx: int, cy: int|
                orig.in_bounds(cx, cy) && #[trigger] pn.contains(index_of(w, cx, cy)) implies closed(
                orig,
                pn,
                target,
                cx,
                cy,
            ) by {
                assert(!queued(queue@, cx, cy));
            }
            assert forall|cx: int, cy: int| orig.in_bounds(cx, cy) implies #[trigger] pn.contains(
                index_of(w, cx, cy),
            ) == fill_reachable(orig, x as int, y as int, cx, cy) by {
                if fill_reachable(orig, x as int, y as int, cx, cy) {
                    let path = choose|path: Seq<(int, int)>|
                        #[trigger] is_fill_path(orig, orig.pixel(x as int, y as int), path) && path[0]
                            == (x as int, y as int) && path.last() == (cx, cy);
                    lemma_walk_painted(orig, x as int, y as int, target, pn, path);
                }
            }
            assert forall|cx: int, cy: int| orig.in_bounds(cx, cy) implies #[trigger] self.pixel(cx, cy)
                == if fill_reachable(orig, x as int, y as int, cx, cy) {
                color
            } else {
                orig.pixel(cx, cy)
            } by {
                assert(pn.contains(index_of(w, cx, cy)) == fill_reachable(orig, x as int, y as int, cx, cy));
            }
        }
        let ghost done = self.data@;
        assert forall|cx: int, cy: int| orig.in_bounds(cx, cy) implies #[trigger] pixel_of(
            done,
            w,
            cx,
            cy,
        ) == if fill_reachable(orig, x as int, y as int, cx, cy) {
            color
        } else {
            orig.pixel(cx, cy)
        } by {
            assert(self.pixel(cx, cy) == pixel_of(done, w, cx, cy));
        }
        let touched = ImageRect {
            x: (self.rect.x as i64 + lo_x) as i32,
            y: (self.rect.y as i64 + lo_y) as i32,
            w: (hi_x - lo_x + 1) as u32,
            h: (hi_y - lo_y + 1) as u32,
        };
        proof {
            let ox = orig.rect.x as int;
            let oy = orig.rect.y as int;
            assert forall|cx: int, cy: int| #[trigger] fill_reachable(orig, x as int, y as int, cx, cy) implies touched.has_point(
                cx + ox,
                cy + oy,
            ) by {
                let path = choose|path: Seq<(int, int)>|
                    #[trigger] is_fill_path(orig, orig.pixel(x as int, y as int), path) && path[0] == (
                        x as int,
                        y as int,
                    ) && path.last() == (cx, cy);
                assert(orig.in_bounds(path[path.len() - 1].0, path[path.len() - 1].1));
                assert(pn.contains(index_of(w, cx, cy)));
            }
            let (ax, ay) = choose|cx: int, cy: int|
                orig.in_bounds(cx, cy) && #[trigger] pn.contains(index_of(w, cx, cy)) && cx == lo_x;
            assert(fill_reachable(orig, x as int, y as int, ax, ay));
            let (bx, by) = choose|cx: int, cy: int|
                orig.in_bounds(cx, cy) && #[trigger] pn.contains(index_of(w, cx, cy)) && cx == hi_x;
            assert(fill_reachable(orig, x as int, y as int, bx, by));
            let (cx0, cy0) = choose|cx: int, cy: int|
                orig.in_bounds(cx, cy) && #[trigger] pn.contains(index_of(w, cx, cy)) && cy == lo_y;
            assert(fill_reachable(orig, x as int, y as int, cx0, cy0));
            let (dx0, dy0) = choose|cx: int, cy: int|
                orig.in_bounds(cx, cy) && #[trigger] pn.contains(index_of(w, cx, cy)) && cy == hi_y;
            assert(fill_reachable(orig, x as int, y as int, dx0, dy0));
            assert(is_fill_box(orig, x as int, y as int, touched));
            lemma_fill_box_unique(orig, x as int, y as int, touched, fill_box(orig, x as int, y as int));
        }
        self.add_dirty_rect(touched);
        assert forall|cx: int, cy: int| orig.in_bounds(cx, cy) implies #[trigger] self.pixel(cx, cy)
            == pixel_of(done, w, cx, cy) by {}
    }
}

} // verus!
