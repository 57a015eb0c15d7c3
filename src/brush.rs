//! Strokes made of many lines or points: the round paintbrush and the spray
//! can.
use vstd::prelude::*;

use crate::color::Color;
use crate::geometry::{max_int, min_int, ImageRect};
use crate::layer::{abs_int, on_line, pixel_of, Layer};

verus! {

/// The brush reaches offsets strictly closer than this to its centre.
pub const BRUSH_RADIUS: i32 = 10;

/// The spray can scatters points strictly closer than this to its centre.
pub const SPRAY_RADIUS: i32 = 50;

/// `(dx, dy)` lies strictly within distance `r` of the origin.
pub open spec fn in_disc(dx: int, dy: int, r: int) -> bool {
    dx * dx + dy * dy < r * r
}

/// `(px, py)` is on the line from `(x1, y1)` to `(x2, y2)` moved by an offset
/// `(dx, dy)` in the brush disc, among the offsets before `(cdx, cdy)` in
/// the order the brush takes them (by `dx`, then by `dy`, from `-9`).
pub open spec fn brush_hit_before(
    x1: int,
    y1: int,
    x2: int,
    y2: int,
    cdx: int,
    cdy: int,
    px: int,
    py: int,
) -> bool {
    exists|dx: int, dy: int|
        -9 <= dx && -9 <= dy && (dx < cdx || (dx == cdx && dy < cdy)) && in_disc(
            dx,
            dy,
            BRUSH_RADIUS as int,
        ) && #[trigger] on_line(x1 + dx, y1 + dy, x2 + dx, y2 + dy, px, py)
}

/// `(px, py)` is painted by a brush stroke from `(x1, y1)` to `(x2, y2)`: it
/// is on the stroke's line moved by some offset of the brush disc.
pub open spec fn brush_hit(x1: int, y1: int, x2: int, y2: int, px: int, py: int) -> bool {
    exists|dx: int, dy: int|
        in_disc(dx, dy, BRUSH_RADIUS as int) && #[trigger] on_line(
            x1 + dx,
            y1 + dy,
            x2 + dx,
            y2 + dy,
            px,
            py,
        )
}

/// The region a brush stroke marks dirty: the bounding box of every moved
/// line grown by one pixel on each side, on the canvas.
pub open spec fn brush_dirty_rect(rect: ImageRect, x1: int, y1: int, x2: int, y2: int) -> ImageRect {
    ImageRect {
        x: (rect.x + min_int(x1, x2) - 10) as i32,
        y: (rect.y + min_int(y1, y2) - 10) as i32,
        w: (abs_int(x2 - x1) + 21) as u32,
        h: (abs_int(y2 - y1) + 21) as u32,
    }
}

/// A brush stroke between these points keeps its dirty region within the
/// coordinate range.
pub open spec fn brush_fits(rect: ImageRect, x1: int, y1: int, x2: int, y2: int) -> bool {
    &&& i32::MIN + 9 <= min_int(x1, x2)
    &&& max_int(x1, x2) + 9 <= i32::MAX
    &&& i32::MIN + 9 <= min_int(y1, y2)
    &&& max_int(y1, y2) + 9 <= i32::MAX
    &&& i32::MIN <= rect.x + min_int(x1, x2) - 10
    &&& rect.x + max_int(x1, x2) + 11 <= i32::MAX
    &&& i32::MIN <= rect.y + min_int(y1, y2) - 10
    &&& rect.y + max_int(y1, y2) + 11 <= i32::MAX
}

/// `(px, py)` is one of the spray points: the centre moved by an offset of
/// `offsets` that lies in the spray disc.
pub open spec fn spray_hit(x: int, y: int, offsets: Seq<(i32, i32)>, n: int, px: int, py: int) -> bool {
    exists|i: int|
        0 <= i < n && in_disc(#[trigger] offsets[i].0 as int, offsets[i].1 as int, SPRAY_RADIUS as int)
            && px == x + offsets[i].0 && py == y + offsets[i].1
}

/// The square a spray around `(x, y)` marks dirty, on the canvas.
pub open spec fn spray_dirty_rect(rect: ImageRect, x: int, y: int) -> ImageRect {
    ImageRect { x: (rect.x + x - 51) as i32, y: (rect.y + y - 51) as i32, w: 102, h: 102 }
}

/// Offsets of the brush disc stay within nine pixels on each axis.
pub proof fn lemma_disc_bounds(dx: int, dy: int)
    requires
        in_disc(dx, dy, BRUSH_RADIUS as int),
    ensures
        -9 <= dx <= 9,
        -9 <= dy <= 9,
{
    assert(dy * dy >= 0) by (nonlinear_arith);
    assert(dx * dx >= 0) by (nonlinear_arith);
    if dx >= 10 || dx <= -10 {
        assert(dx * dx >= 100) by (nonlinear_arith)
            requires
                dx >= 10 || dx <= -10,
        ;
    }
    if dy >= 10 || dy <= -10 {
        assert(dy * dy >= 100) by (nonlinear_arith)
            requires
                dy >= 10 || dy <= -10,
        ;
    }
}

impl Layer {
    /// A stroke of the round brush: the line from `(x1, y1)` to `(x2, y2)`
    /// drawn again moved by every offset strictly within `BRUSH_RADIUS` of
    /// the centre. The dirty rectangle grows by `brush_dirty_rect`.
    pub fn paint_brush(&mut self, x1: i32, y1: i32, x2: i32, y2: i32, color: Color)
        requires
            old(self).wf(),
            brush_fits(old(self).rect, x1 as int, y1 as int, x2 as int, y2 as int),
        ensures
            final(self).wf(),
            final(self).rect == old(self).rect,
            final(self).z_index == old(self).z_index,
            final(self).dirty_rect == old(self).dirty_rect.union_of(
                brush_dirty_rect(old(self).rect, x1 as int, y1 as int, x2 as int, y2 as int),
            ),
            forall|x: int, y: int|
                old(self).in_bounds(x, y) ==> #[trigger] final(self).pixel(x, y) == if brush_hit(
                    x1 as int,
                    y1 as int,
                    x2 as int,
                    y2 as int,
                    x,
                    y,
                ) {
                    color
                } else {
                    old(self).pixel(x, y)
                },
    {
        let ghost w = self.rect.w as int;
        let ghost h = self.rect.h as int;
        let mut dx: i32 = -9;
        while dx <= 9
            invariant
                -9 <= dx <= 10,
                self.wf(),
                self.rect == old(self).rect,
                self.dirty_rect == old(self).dirty_rect,
                self.z_index == old(self).z_index,
                w == self.rect.w,
                h == self.rect.h,
                brush_fits(old(self).rect, x1 as int, y1 as int, x2 as int, y2 as int),
                forall|x: int, y: int|
                    0 <= x < w && 0 <= y < h ==> #[trigger] self.pixel(x, y) == if brush_hit_before(
                        x1 as int,
                        y1 as int,
                        x2 as int,
                        y2 as int,
                        dx as int,
                        -9,
                        x,
                        y,
                    ) {
                        color
                    } else {
                        old(self).pixel(x, y)
                    },
            decreases 10 - dx,
        {
            let mut dy: i32 = -9;
            while dy <= 9
                invariant
                    -9 <= dx <= 9,
                    -9 <= dy <= 10,
                    self.wf(),
                    self.rect == old(self).rect,
                    self.dirty_rect == old(self).dirty_rect,
                    self.z_index == old(self).z_index,
                    w == self.rect.w,
                    h == self.rect.h,
                    brush_fits(old(self).rect, x1 as int, y1 as int, x2 as int, y2 as int),
                    forall|x: int, y: int|
                        0 <= x < w && 0 <= y < h ==> #[trigger] self.pixel(x, y) == if brush_hit_before(
                            x1 as int,
                            y1 as int,
                            x2 as int,
                            y2 as int,
                            dx as int,
                            dy as int,
                            x,
                            y,
                        ) {
                            color
                        } else {
                            old(self).pixel(x, y)
                        },
                decreases 10 - dy,
            {
                let ghost before = *self;
                assert(0 <= dx * dx <= 81 && 0 <= dy * dy <= 81) by (nonlinear_arith)
                    requires
                        -9 <= dx <= 9,
                        -9 <= dy <= 9,
                ;
                let inside = dx * dx + dy * dy < BRUSH_RADIUS * BRUSH_RADIUS;
                if inside {
                    self.trace_line(x1 + dx, y1 + dy, x2 + dx, y2 + dy, color);
                }
                proof {
                    assert forall|x: int, y: int| 0 <= x < w && 0 <= y < h implies #[trigger] self.pixel(
                        x,
                        y,
                    ) == if brush_hit_before(
                        x1 as int,
                        y1 as int,
                        x2 as int,
                        y2 as int,
                        dx as int,
                        dy + 1,
                        x,
                        y,
                    ) {
                        color
                    } else {
                        old(self).pixel(x, y)
                    } by {
                        let here = inside && on_line(
                            x1 + dx,
                            y1 + dy,
                            x2 + dx,
                            y2 + dy,
                            x,
                            y,
                        );
                        let was = brush_hit_before(
                            x1 as int,
                            y1 as int,
                            x2 as int,
                            y2 as int,
                            dx as int,
                            dy as int,
                            x,
                            y,
                        );
                        let now = brush_hit_before(
                            x1 as int,
                            y1 as int,
                            x2 as int,
                            y2 as int,
                            dx as int,
                            dy + 1,
                            x,
                            y,
                        );
                        assert(before.pixel(x, y) == if was {
                            color
                        } else {
                            old(self).pixel(x, y)
                        });
                        if here {
                            assert(on_line(
                                x1 + dx as int,
                                y1 + dy as int,
                                x2 + dx as int,
                                y2 + dy as int,
                                x,
                                y,
                            ));
                            assert(now);
                        }
                        if now {
                            let (ex, ey) = choose|ex: int, ey: int|
                                -9 <= ex && -9 <= ey && (ex < dx || (ex == dx && ey < dy + 1))
                                    && in_disc(ex, ey, BRUSH_RADIUS as int) && #[trigger] on_line(
                                    x1 + ex,
                                    y1 + ey,
                                    x2 + ex,
                                    y2 + ey,
                                    x,
                                    y,
                                );
                            if ex < dx || ey < dy {
                                assert(was);
                            } else {
                                assert(here);
                            }
                        }
                        if was {
                            let (ex, ey) = choose|ex: int, ey: int|
                                -9 <= ex && -9 <= ey && (ex < dx || (ex == dx && ey < dy)) && in_disc(
                                    ex,
                                    ey,
                                    BRUSH_RADIUS as int,
                                ) && #[trigger] on_line(x1 + ex, y1 + ey, x2 + ex, y2 + ey, x, y);
                            assert(now);
                        }
                        assert(now == (was || here));
                        if !inside {
                            assert(self.pixel(x, y) == before.pixel(x, y));
                        }
                    }
                }
                dy += 1;
            }
            proof {
                assert forall|x: int, y: int| 0 <= x < w && 0 <= y < h implies #[trigger] self.pixel(
                    x,
                    y,
                ) == if brush_hit_before(
                    x1 as int,
                    y1 as int,
                    x2 as int,
                    y2 as int,
                    dx + 1,
                    -9,
                    x,
                    y,
                ) {
                    color
                } else {
                    old(self).pixel(x, y)
                } by {
                    let a = brush_hit_before(x1 as int, y1 as int, x2 as int, y2 as int, dx as int, 10, x, y);
                    let b = brush_hit_before(x1 as int, y1 as int, x2 as int, y2 as int, dx + 1, -9, x, y);
                    if a {
                        let (ex, ey) = choose|ex: int, ey: int|
                            -9 <= ex && -9 <= ey && (ex < dx || (ex == dx && ey < 10)) && in_disc(
                                ex,
                                ey,
                                BRUSH_RADIUS as int,
                            ) && #[trigger] on_line(x1 + ex, y1 + ey, x2 + ex, y2 + ey, x, y);
                        assert(b);
                    }
                    if b {
                        let (ex, ey) = choose|ex: int, ey: int|
                            -9 <= ex && -9 <= ey && (ex < dx + 1 || (ex == dx + 1 && ey < -9)) && in_disc(
                                ex,
                                ey,
                                BRUSH_RADIUS as int,
                            ) && #[trigger] on_line(x1 + ex, y1 + ey, x2 + ex, y2 + ey, x, y);
                        lemma_disc_bounds(ex, ey);
                        assert(a);
                    }
                }
            }
            dx += 1;
        }
        let ghost painted = *self;
        proof {
            assert forall|x: int, y: int| 0 <= x < w && 0 <= y < h implies #[trigger] painted.pixel(x, y)
                == if brush_hit(x1 as int, y1 as int, x2 as int, y2 as int, x, y) {
                color
            } else {
                old(self).pixel(x, y)
            } by {
                let a = brush_hit_before(x1 as int, y1 as int, x2 as int, y2 as int, 10, -9, x, y);
                let b = brush_hit(x1 as int, y1 as int, x2 as int, y2 as int, x, y);
                if a {
                    let (ex, ey) = choose|ex: int, ey: int|
                        -9 <= ex && -9 <= ey && (ex < 10 || (ex == 10 && ey < -9)) && in_disc(
                            ex,
                            ey,
                            BRUSH_RADIUS as int,
                        ) && #[trigger] on_line(x1 + ex, y1 + ey, x2 + ex, y2 + ey, x, y);
                    assert(b);
                }
                if b {
                    let (ex, ey) = choose|ex: int, ey: int|
                        in_disc(ex, ey, BRUSH_RADIUS as int) && #[trigger] on_line(
                            x1 + ex,
                            y1 + ey,
                            x2 + ex,
                            y2 + ey,
                            x,
                            y,
                        );
                    lemma_disc_bounds(ex, ey);
                    assert(a);
                }
            }
        }
        let lo_x: i64 = if x1 <= x2 { x1 as i64 } else { x2 as i64 };
        let lo_y: i64 = if y1 <= y2 { y1 as i64 } else { y2 as i64 };
        let aw: i64 = if x2 as i64 >= x1 as i64 { x2 as i64 - x1 as i64 } else { x1 as i64 - x2 as i64 };
        let ah: i64 = if y2 as i64 >= y1 as i64 { y2 as i64 - y1 as i64 } else { y1 as i64 - y2 as i64 };
        let grown = ImageRect {
            x: (self.rect.x as i64 + lo_x - 10) as i32,
            y: (self.rect.y as i64 + lo_y - 10) as i32,
            w: (aw + 21) as u32,
            h: (ah + 21) as u32,
        };
        self.add_dirty_rect(grown);
        assert forall|x: int, y: int| old(self).in_bounds(x, y) implies #[trigger] self.pixel(x, y)
            == painted.pixel(x, y) by {}
    }

    /// A burst of the spray can around `(x, y)`: each offset of `offsets`
    /// strictly within `SPRAY_RADIUS` of the centre paints the pixel it
    /// reaches; the others are skipped. The dirty rectangle grows by
    /// `spray_dirty_rect`.
    pub fn spray(&mut self, x: i32, y: i32, offsets: &Vec<(i32, i32)>, color: Color)
        requires
            old(self).wf(),
            i32::MIN <= old(self).rect.x + x - 51,
            old(self).rect.x + x + 51 <= i32::MAX,
            i32::MIN <= old(self).rect.y + y - 51,
            old(self).rect.y + y + 51 <= i32::MAX,
        ensures
            final(self).wf(),
            final(self).rect == old(self).rect,
            final(self).z_index == old(self).z_index,
            final(self).dirty_rect == old(self).dirty_rect.union_of(
                spray_dirty_rect(old(self).rect, x as int, y as int),
            ),
            forall|px: int, py: int|
                old(self).in_bounds(px, py) ==> #[trigger] final(self).pixel(px, py) == if spray_hit(
                    x as int,
                    y as int,
                    offsets@,
                    offsets@.len() as int,
                    px,
                    py,
                ) {
                    color
                } else {
                    old(self).pixel(px, py)
                },
    {
        let ghost w = self.rect.w as int;
        let ghost h = self.rect.h as int;
        let n = offsets.len();
        let mut i: usize = 0;
        while i < n
            invariant
                i <= n,
                n == offsets@.len(),
                self.wf(),
                self.rect == old(self).rect,
                self.dirty_rect == old(self).dirty_rect,
                self.z_index == old(self).z_index,
                w == self.rect.w,
                h == self.rect.h,
                forall|px: int, py: int|
                    0 <= px < w && 0 <= py < h ==> #[trigger] self.pixel(px, py) == if spray_hit(
                        x as int,
                        y as int,
                        offsets@,
                        i as int,
                        px,
                        py,
                    ) {
                        color
                    } else {
                        old(self).pixel(px, py)
                    },
            decreases n - i,
        {
            let (dx, dy) = offsets[i];
            let ghost before = self.data@;
            let ghost before_layer = *self;
            assert(0 <= dx * dx <= 0x4000_0000_0000_0000 && 0 <= dy * dy <= 0x4000_0000_0000_0000) by (nonlinear_arith)
                requires
                    i32::MIN <= dx <= i32::MAX,
                    i32::MIN <= dy <= i32::MAX,
            ;
            let r: i128 = SPRAY_RADIUS as i128;
            assert(r == 50);
            let inside = (dx as i128) * (dx as i128) + (dy as i128) * (dy as i128) < r * r;
            if inside {
                self.plot(x as i128 + dx as i128, y as i128 + dy as i128, color);
            }
            proof {
                let tx = x + dx;
                let ty = y + dy;
                if inside && self.in_bounds(tx, ty) {
                    crate::layer::lemma_write_pixel(before, w, h, tx, ty, color);
                }
                assert forall|px: int, py: int| 0 <= px < w && 0 <= py < h implies #[trigger] self.pixel(
                    px,
                    py,
                ) == if spray_hit(x as int, y as int, offsets@, i + 1, px, py) {
                    color
                } else {
                    old(self).pixel(px, py)
                } by {
                    let was = spray_hit(x as int, y as int, offsets@, i as int, px, py);
                    let now = spray_hit(x as int, y as int, offsets@, i + 1, px, py);
                    let here = inside && px == tx && py == ty;
                    assert(before_layer.pixel(px, py) == if was {
                        color
                    } else {
                        old(self).pixel(px, py)
                    });
                    if here {
                        assert(offsets@[i as int].0 == dx && offsets@[i as int].1 == dy);
                        assert(now);
                    }
                    if now {
                        let j = choose|j: int|
                            0 <= j < i + 1 && in_disc(
                                #[trigger] offsets@[j].0 as int,
                                offsets@[j].1 as int,
                                SPRAY_RADIUS as int,
                            ) && px == x + offsets@[j].0 && py == y + offsets@[j].1;
                        if j < i {
                            assert(was);
                        } else {
                            assert(here);
                        }
                    }
                    if was {
                        let j = choose|j: int|
                            0 <= j < i && in_disc(
                                #[trigger] offsets@[j].0 as int,
                                offsets@[j].1 as int,
                                SPRAY_RADIUS as int,
                            ) && px == x + offsets@[j].0 && py == y + offsets@[j].1;
                        assert(now);
                    }
                }
            }
            i += 1;
        }
        let ghost painted = *self;
        let grown = ImageRect {
            x: (self.rect.x as i64 + x as i64 - 51) as i32,
            y: (self.rect.y as i64 + y as i64 - 51) as i32,
            w: 102,
            h: 102,
        };
        self.add_dirty_rect(grown);
        assert forall|px: int, py: int| old(self).in_bounds(px, py) implies #[trigger] self.pixel(px, py)
            == painted.pixel(px, py) by {}
    }
}

} // verus!
