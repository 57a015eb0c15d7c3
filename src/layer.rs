//! A positioned RGBA pixel buffer with drawing primitives and dirty-region
//! tracking.
use vstd::prelude::*;

use crate::color::Color;
use crate::geometry::{max_int, min_int, ImageRect};

verus! {

/// The position of pixel `(x, y)` in a row-major buffer `w` pixels wide.
pub open spec fn index_of(w: int, x: int, y: int) -> int {
    y * w + x
}

/// The pixel at `(x, y)` of a row-major buffer `w` pixels wide.
pub open spec fn pixel_of(data: Seq<Color>, w: int, x: int, y: int) -> Color {
    data[index_of(w, x, y)]
}

/// A buffer of `n` pixels of one color.
pub open spec fn filled(n: nat, c: Color) -> Seq<Color> {
    Seq::new(n, |i: int| c)
}

pub proof fn lemma_index_in_range(w: int, h: int, x: int, y: int)
    requires
        0 <= x < w,
        0 <= y < h,
    ensures
        0 <= index_of(w, x, y) < w * h,
{
    assert(0 <= y * w + x < w * h) by (nonlinear_arith)
        requires
            0 <= x < w,
            0 <= y < h,
    ;
}

pub proof fn lemma_index_injective(w: int, x1: int, y1: int, x2: int, y2: int)
    requires
        0 <= x1 < w,
        0 <= x2 < w,
        0 <= y1,
        0 <= y2,
        x1 != x2 || y1 != y2,
    ensures
        index_of(w, x1, y1) != index_of(w, x2, y2),
{
    if y1 == y2 {
    } else if y1 < y2 {
        assert(y1 * w + w <= y2 * w) by (nonlinear_arith)
            requires
                y1 < y2,
                0 <= w,
        ;
    } else {
        assert(y2 * w + w <= y1 * w) by (nonlinear_arith)
            requires
                y2 < y1,
                0 <= w,
        ;
    }
}

/// Every position of a buffer of `w * h` pixels is the position of a pixel.
pub proof fn lemma_index_onto(w: int, h: int, k: int)
    requires
        0 < w,
        0 <= k < w * h,
    ensures
        0 <= k % w < w,
        0 <= k / w < h,
        index_of(w, k % w, k / w) == k,
{
    vstd::arithmetic::div_mod::lemma_fundamental_div_mod(k, w);
    assert((k / w) * w == w * (k / w)) by (nonlinear_arith);
    assert(0 <= k / w < h) by (nonlinear_arith)
        requires
            0 < w,
            0 <= k < w * h,
            k == w * (k / w) + k % w,
            0 <= k % w < w,
    ;
}

/// Two buffers of `w * h` pixels that agree on every pixel are equal.
pub proof fn lemma_same_pixels(a: Seq<Color>, b: Seq<Color>, w: int, h: int)
    requires
        0 <= w,
        0 <= h,
        a.len() == w * h,
        b.len() == w * h,
        forall|x: int, y: int|
            0 <= x < w && 0 <= y < h ==> #[trigger] pixel_of(a, w, x, y) == pixel_of(b, w, x, y),
    ensures
        a == b,
{
    assert forall|k: int| 0 <= k < a.len() implies a[k] == b[k] by {
        if w > 0 {
            lemma_index_onto(w, h, k);
            assert(pixel_of(a, w, k % w, k / w) == pixel_of(b, w, k % w, k / w));
        } else {
            assert(w * h == 0) by (nonlinear_arith)
                requires
                    w == 0,
            ;
        }
    }
    assert(a =~= b);
}

/// Writing one pixel leaves every other pixel as it was.
pub proof fn lemma_write_pixel(data: Seq<Color>, w: int, h: int, px: int, py: int, c: Color)
    requires
        data.len() == w * h,
        0 <= px < w,
        0 <= py < h,
    ensures
        forall|x: int, y: int|
            0 <= x < w && 0 <= y < h ==> #[trigger] pixel_of(
                data.update(index_of(w, px, py), c),
                w,
                x,
                y,
            ) == if x == px && y == py {
                c
            } else {
                pixel_of(data, w, x, y)
            },
{
    lemma_index_in_range(w, h, px, py);
    assert forall|x: int, y: int| 0 <= x < w && 0 <= y < h implies #[trigger] pixel_of(
        data.update(index_of(w, px, py), c),
        w,
        x,
        y,
    ) == if x == px && y == py {
        c
    } else {
        pixel_of(data, w, x, y)
    } by {
        lemma_index_in_range(w, h, x, y);
        if x != px || y != py {
            lemma_index_injective(w, x, y, px, py);
        }
    }
}

pub open spec fn abs_int(v: int) -> int {
    if v >= 0 { v } else { -v }
}

/// `n / d` rounded to the nearest integer, halves away from zero (`d > 0`).
pub open spec fn round_div(n: int, d: int) -> int {
    if n >= 0 {
        (2 * n + d) / (2 * d)
    } else {
        -((-2 * n + d) / (2 * d))
    }
}

/// The number of interpolation steps of a line: its longer extent.
pub open spec fn line_steps(x1: int, y1: int, x2: int, y2: int) -> int {
    let w = abs_int(x2 - x1);
    let h = abs_int(y2 - y1);
    if w >= h { w } else { h }
}

/// Coordinate `i` of `steps` equal steps from `a` to `b`: the rounding of
/// `a + i * (b - a) / steps`.
pub open spec fn line_coord(a: int, b: int, steps: int, i: int) -> int {
    round_div(a * steps + i * (b - a), steps)
}

/// `(px, py)` is one of the first `n` interpolated points of the line.
pub open spec fn line_hit(x1: int, y1: int, x2: int, y2: int, n: int, px: int, py: int) -> bool {
    exists|i: int|
        0 <= i < n && #[trigger] line_coord(x1, x2, line_steps(x1, y1, x2, y2), i) == px
            && line_coord(y1, y2, line_steps(x1, y1, x2, y2), i) == py
}

/// `(px, py)` is plotted by a line from `(x1, y1)` to `(x2, y2)`: it is an
/// endpoint or one of the interpolated points.
pub open spec fn on_line(x1: int, y1: int, x2: int, y2: int, px: int, py: int) -> bool {
    (px == x1 && py == y1) || (px == x2 && py == y2) || line_hit(
        x1,
        y1,
        x2,
        y2,
        line_steps(x1, y1, x2, y2),
        px,
        py,
    )
}

/// The bounding box of a line's pixels grown by one pixel on each side,
/// moved to the canvas by the layer's position.
pub open spec fn line_dirty_rect(rect: ImageRect, x1: int, y1: int, x2: int, y2: int) -> ImageRect {
    ImageRect {
        x: (rect.x + min_int(x1, x2) - 1) as i32,
        y: (rect.y + min_int(y1, y2) - 1) as i32,
        w: (abs_int(x2 - x1) + 3) as u32,
        h: (abs_int(y2 - y1) + 3) as u32,
    }
}

/// A line between points of the layer's own coordinates keeps its grown
/// bounding box within the coordinate range.
pub open spec fn line_fits(rect: ImageRect, x1: int, y1: int, x2: int, y2: int) -> bool {
    &&& i32::MIN <= rect.x + min_int(x1, x2) - 1
    &&& rect.x + max_int(x1, x2) + 2 <= i32::MAX
    &&& i32::MIN <= rect.y + min_int(y1, y2) - 1
    &&& rect.y + max_int(y1, y2) + 2 <= i32::MAX
}

fn round_div_exec(n: i128, d: i128) -> (q: i128)
    requires
        0 < d <= 0x1_0000_0000_0000,
        -0x1_0000_0000_0000_0000_0000 <= n <= 0x1_0000_0000_0000_0000_0000,
    ensures
        q == round_div(n as int, d as int),
{
    if n >= 0 {
        (2 * n + d) / (2 * d)
    } else {
        let m: i128 = -n;
        -((2 * m + d) / (2 * d))
    }
}

/// Channel `bc` of the base and `oc` of the layer on top, weighted by the
/// top alpha `a1` and by `f`, the base alpha left uncovered (both on a scale
/// of `255 * 255`).
pub open spec fn mix_channel(bc: int, oc: int, a1: int, f: int) -> int {
    (bc * a1 + oc * f) / (a1 + f)
}

/// The color of `base` after compositing `over` on top of it. A transparent
/// `over` leaves `base`; an opaque one replaces it; otherwise each channel is
/// mixed from the same channel of both colors, with `a1` the top alpha and
/// `factor = a2 * (1 - a1)` for the base alpha `a2`, rounded down.
pub open spec fn blend_pixel(base: Color, over: Color) -> Color {
    if over.a == 0 {
        base
    } else if over.a == 255 {
        over
    } else {
        let a1 = over.a * 255;
        let f = base.a * (255 - over.a);
        Color {
            r: mix_channel(base.r as int, over.r as int, a1, f) as u8,
            g: mix_channel(base.g as int, over.g as int, a1, f) as u8,
            b: mix_channel(base.b as int, over.b as int, a1, f) as u8,
            a: mix_channel(base.a as int, over.a as int, a1, f) as u8,
        }
    }
}

fn mix_channel_exec(bc: u8, oc: u8, a1: u32, f: u32) -> (r: u8)
    requires
        0 < a1 <= 255 * 255,
        f <= 255 * 255,
    ensures
        r == mix_channel(bc as int, oc as int, a1 as int, f as int),
{
    proof {
        assert(bc * a1 + oc * f <= 255 * (a1 + f)) by (nonlinear_arith)
            requires
                bc <= 255,
                oc <= 255,
                0 <= a1,
                0 <= f,
        ;
        assert((bc * a1 + oc * f) / (a1 + f) <= 255) by (nonlinear_arith)
            requires
                bc * a1 + oc * f <= 255 * (a1 + f),
                0 < a1 + f,
                0 <= bc * a1 + oc * f,
        ;
        assert(bc as u32 * a1 <= 255 * 255 * 255) by (nonlinear_arith)
            requires
                bc <= 255,
                a1 <= 255 * 255,
        ;
        assert(oc as u32 * f <= 255 * 255 * 255) by (nonlinear_arith)
            requires
                oc <= 255,
                f <= 255 * 255,
        ;
    }
    ((bc as u32 * a1 + oc as u32 * f) / (a1 + f)) as u8
}

/// Composites `over` on top of `base` as `blend_pixel` states.
pub fn blend_color(base: Color, over: Color) -> (c: Color)
    ensures
        c == blend_pixel(base, over),
{
    if over.a == 0 {
        return base;
    }
    if over.a == 255 {
        return over;
    }
    let a1: u32 = over.a as u32 * 255;
    let rest: u32 = 255 - over.a as u32;
    assert(base.a * rest <= 255 * 255) by (nonlinear_arith)
        requires
            base.a <= 255,
            rest <= 255,
    ;
    let f: u32 = base.a as u32 * rest;
    Color {
        r: mix_channel_exec(base.r, over.r, a1, f),
        g: mix_channel_exec(base.g, over.g, a1, f),
        b: mix_channel_exec(base.b, over.b, a1, f),
        a: mix_channel_exec(base.a, over.a, a1, f),
    }
}

/// The canvas region that compositing `over` onto `base` touches: where both
/// layers lie, where either is dirty, and within `clip`.
pub open spec fn blend_region(base: Layer, over: Layer, clip: ImageRect) -> ImageRect {
    base.rect.intersection_of(over.rect).intersection_of(
        base.dirty_rect.union_of(over.dirty_rect),
    ).intersection_of(clip)
}

/// `after` is `before` with `over` composited on top over
/// `blend_region(before, over, clip)`: each pixel there is the blend of the
/// base pixel and the pixel of `over` at the same canvas position, every other
/// pixel is kept, and so are the rectangles.
pub open spec fn composited(before: Layer, over: Layer, clip: ImageRect, after: Layer) -> bool {
    &&& after.wf()
    &&& after.rect == before.rect
    &&& after.dirty_rect == before.dirty_rect
    &&& after.z_index == before.z_index
    &&& forall|x: int, y: int|
        before.in_bounds(x, y) ==> #[trigger] after.pixel(x, y) == if blend_region(
            before,
            over,
            clip,
        ).has_point(x + before.rect.x, y + before.rect.y) {
            blend_pixel(
                before.pixel(x, y),
                over.pixel(x + before.rect.x - over.rect.x, y + before.rect.y - over.rect.y),
            )
        } else {
            before.pixel(x, y)
        }
}

/// Compositing a layer whose pixels are all fully transparent changes no
/// pixel of the base.
pub proof fn lemma_blend_transparent(before: Layer, over: Layer, clip: ImageRect, after: Layer)
    requires
        before.wf(),
        over.wf(),
        forall|x: int, y: int| over.in_bounds(x, y) ==> (#[trigger] over.pixel(x, y)).a == 0,
        composited(before, over, clip, after),
    ensures
        after.data@ == before.data@,
{
    let w = before.rect.w as int;
    let h = before.rect.h as int;
    assert forall|x: int, y: int| 0 <= x < w && 0 <= y < h implies #[trigger] pixel_of(
        after.data@,
        w,
        x,
        y,
    ) == pixel_of(before.data@, w, x, y) by {
        assert(after.pixel(x, y) == pixel_of(after.data@, w, x, y));
        let px = x + before.rect.x;
        let py = y + before.rect.y;
        if blend_region(before, over, clip).has_point(px, py) {
            assert(over.in_bounds(px - over.rect.x, py - over.rect.y));
            assert(over.pixel(px - over.rect.x, py - over.rect.y).a == 0);
        }
    }
    lemma_same_pixels(after.data@, before.data@, w, h);
}

/// Compositing a layer whose pixels are all fully opaque replaces every base
/// pixel of the region with the pixel on top and keeps every other one.
pub proof fn lemma_blend_opaque(before: Layer, over: Layer, clip: ImageRect, after: Layer)
    requires
        before.wf(),
        over.wf(),
        forall|x: int, y: int| over.in_bounds(x, y) ==> (#[trigger] over.pixel(x, y)).a == 255,
        composited(before, over, clip, after),
    ensures
        forall|x: int, y: int|
            before.in_bounds(x, y) ==> #[trigger] after.pixel(x, y) == if blend_region(
                before,
                over,
                clip,
            ).has_point(x + before.rect.x, y + before.rect.y) {
                over.pixel(x + before.rect.x - over.rect.x, y + before.rect.y - over.rect.y)
            } else {
                before.pixel(x, y)
            },
{
    assert forall|x: int, y: int| before.in_bounds(x, y) implies #[trigger] after.pixel(x, y)
        == if blend_region(before, over, clip).has_point(x + before.rect.x, y + before.rect.y) {
        over.pixel(x + before.rect.x - over.rect.x, y + before.rect.y - over.rect.y)
    } else {
        before.pixel(x, y)
    } by {
        let px = x + before.rect.x;
        let py = y + before.rect.y;
        if blend_region(before, over, clip).has_point(px, py) {
            assert(over.in_bounds(px - over.rect.x, py - over.rect.y));
        }
    }
}

/// A buffer of RGBA pixels placed at `rect` on the canvas. Pixel `(x, y)` in
/// the layer's own coordinates lies at `(rect.x + x, rect.y + y)` on the
/// canvas. `dirty_rect`, in canvas coordinates, covers what changed since it
/// was last cleared.
pub struct Layer {
    pub rect: ImageRect,
    pub data: Vec<Color>,
    pub z_index: i32,
    pub dirty_rect: ImageRect,
}

/// What a layer holds, as plain values.
pub struct LayerView {
    pub rect: ImageRect,
    pub data: Seq<Color>,
    pub z_index: i32,
    pub dirty_rect: ImageRect,
}

impl View for Layer {
    type V = LayerView;

    open spec fn view(&self) -> LayerView {
        LayerView {
            rect: self.rect,
            data: self.data@,
            z_index: self.z_index,
            dirty_rect: self.dirty_rect,
        }
    }
}

impl Layer {
    /// The buffer holds one pixel per point of the rectangle, and both
    /// rectangles stay within the coordinate range.
    pub open spec fn wf(&self) -> bool {
        &&& self.data@.len() == self.rect.w * self.rect.h
        &&& self.rect.fits()
        &&& self.dirty_rect.valid()
    }

    pub open spec fn in_bounds(&self, x: int, y: int) -> bool {
        0 <= x < self.rect.w && 0 <= y < self.rect.h
    }

    pub open spec fn pixel(&self, x: int, y: int) -> Color {
        pixel_of(self.data@, self.rect.w as int, x, y)
    }

    /// A layer covering `rect`, every pixel opaque white, nothing dirty.
    pub fn new(rect: ImageRect) -> (l: Layer)
        requires
            rect.fits(),
            rect.w * rect.h <= usize::MAX,
        ensures
            l.wf(),
            l.rect == rect,
            l.data@ == filled((rect.w * rect.h) as nat, Color::white()),
            l.z_index == 0,
            l.dirty_rect == ImageRect::empty(),
    {
        Layer::with_color(rect, Color::white())
    }

    /// A layer covering `rect`, every pixel `color`, nothing dirty.
    pub fn with_color(rect: ImageRect, color: Color) -> (l: Layer)
        requires
            rect.fits(),
            rect.w * rect.h <= usize::MAX,
        ensures
            l.wf(),
            l.rect == rect,
            l.data@ == filled((rect.w * rect.h) as nat, color),
            l.z_index == 0,
            l.dirty_rect == ImageRect::empty(),
    {
        let n: usize = rect.w as usize * rect.h as usize;
        let mut data: Vec<Color> = Vec::new();
        let mut i: usize = 0;
        while i < n
            invariant
                i <= n,
                data@ == filled(i as nat, color),
            decreases n - i,
        {
            data.push(color);
            i += 1;
            assert(data@ =~= filled(i as nat, color));
        }
        Layer { rect, data, z_index: 0, dirty_rect: ImageRect::new(0, 0, 0, 0) }
    }

    /// An independent copy holding the same pixels and rectangles.
    pub fn copy(&self) -> (l: Layer)
        requires
            self.wf(),
        ensures
            l.wf(),
            l@ == self@,
    {
        let n = self.data.len();
        let mut data: Vec<Color> = Vec::new();
        let mut i: usize = 0;
        while i < n
            invariant
                i <= n,
                n == self.data@.len(),
                data@ == self.data@.subrange(0, i as int),
            decreases n - i,
        {
            data.push(self.data[i]);
            i += 1;
            assert(data@ =~= self.data@.subrange(0, i as int));
        }
        assert(data@ =~= self.data@);
        Layer { rect: self.rect, data, z_index: self.z_index, dirty_rect: self.dirty_rect }
    }

    /// Whether `(x, y)`, in the layer's own coordinates, is one of its pixels.
    pub fn contains_point(&self, x: i32, y: i32) -> (r: bool)
        ensures
            r == self.in_bounds(x as int, y as int),
    {
        x >= 0 && (x as i64) < self.rect.w as i64 && y >= 0 && (y as i64) < self.rect.h as i64
    }

    /// Writes one pixel given in wide coordinates; a point outside the layer
    /// is ignored.
    pub(crate) fn plot(&mut self, x: i128, y: i128, color: Color)
        requires
            old(self).wf(),
        ensures
            final(self).wf(),
            final(self).rect == old(self).rect,
            final(self).dirty_rect == old(self).dirty_rect,
            final(self).z_index == old(self).z_index,
            final(self).data@ == if old(self).in_bounds(x as int, y as int) {
                old(self).data@.update(
                    index_of(old(self).rect.w as int, x as int, y as int),
                    color,
                )
            } else {
                old(self).data@
            },
    {
        if x >= 0 && x < self.rect.w as i128 && y >= 0 && y < self.rect.h as i128 {
            let n = self.data.len();
            proof {
                lemma_index_in_range(self.rect.w as int, self.rect.h as int, x as int, y as int);
                assert(y * self.rect.w <= y * self.rect.w + x) by (nonlinear_arith)
                    requires
                        0 <= x,
                ;
            }
            let i: usize = y as usize * self.rect.w as usize + x as usize;
            self.data.set(i, color);
        }
    }

    /// Writes pixel `(x, y)`, in the layer's own coordinates; a point outside
    /// the layer leaves it unchanged.
    pub fn draw_pixel(&mut self, x: i32, y: i32, color: Color)
        requires
            old(self).wf(),
        ensures
            final(self).wf(),
            final(self).rect == old(self).rect,
            final(self).dirty_rect == old(self).dirty_rect,
            final(self).z_index == old(self).z_index,
            final(self).data@ == if old(self).in_bounds(x as int, y as int) {
                old(self).data@.update(
                    index_of(old(self).rect.w as int, x as int, y as int),
                    color,
                )
            } else {
                old(self).data@
            },
    {
        self.plot(x as i128, y as i128, color);
    }

    /// Writes pixel `(x, y)`, which must lie in the layer.
    pub fn draw_pixel_unchecked(&mut self, x: i32, y: i32, color: Color)
        requires
            old(self).wf(),
            old(self).in_bounds(x as int, y as int),
        ensures
            final(self).wf(),
            final(self).rect == old(self).rect,
            final(self).dirty_rect == old(self).dirty_rect,
            final(self).z_index == old(self).z_index,
            final(self).data@ == old(self).data@.update(
                index_of(old(self).rect.w as int, x as int, y as int),
                color,
            ),
    {
        self.plot(x as i128, y as i128, color);
    }

    /// Draws a line between two points of the layer's own coordinates: both
    /// endpoints, then the rounded points of equal steps from the first
    /// endpoint toward the second. Points outside the layer are skipped. The
    /// dirty rectangle grows by the line's bounding box plus one pixel on each
    /// side.
    pub fn draw_line(&mut self, x1: i32, y1: i32, x2: i32, y2: i32, color: Color)
        requires
            old(self).wf(),
            line_fits(old(self).rect, x1 as int, y1 as int, x2 as int, y2 as int),
        ensures
            final(self).wf(),
            final(self).rect == old(self).rect,
            final(self).z_index == old(self).z_index,
            final(self).dirty_rect == old(self).dirty_rect.union_of(
                line_dirty_rect(old(self).rect, x1 as int, y1 as int, x2 as int, y2 as int),
            ),
            forall|x: int, y: int|
                old(self).in_bounds(x, y) ==> #[trigger] final(self).pixel(x, y) == if on_line(
                    x1 as int,
                    y1 as int,
                    x2 as int,
                    y2 as int,
                    x,
                    y,
                ) {
                    color
                } else {
                    old(self).pixel(x, y)
                },
    {
        self.trace_line(x1, y1, x2, y2, color);
        let ghost drawn = *self;
        let lo_x: i32 = if x1 <= x2 { x1 } else { x2 };
        let lo_y: i32 = if y1 <= y2 { y1 } else { y2 };
        let aw: i64 = if x2 as i64 >= x1 as i64 { x2 as i64 - x1 as i64 } else { x1 as i64 - x2 as i64 };
        let ah: i64 = if y2 as i64 >= y1 as i64 { y2 as i64 - y1 as i64 } else { y1 as i64 - y2 as i64 };
        let grown = ImageRect {
            x: (self.rect.x as i64 + lo_x as i64 - 1) as i32,
            y: (self.rect.y as i64 + lo_y as i64 - 1) as i32,
            w: (aw + 3) as u32,
            h: (ah + 3) as u32,
        };
        self.add_dirty_rect(grown);
        assert forall|x: int, y: int| old(self).in_bounds(x, y) implies #[trigger] self.pixel(x, y)
            == drawn.pixel(x, y) by {}
    }

    /// Paints the pixels of a line, as `draw_line` does, leaving the dirty
    /// rectangle as it is.
    pub(crate) fn trace_line(&mut self, x1: i32, y1: i32, x2: i32, y2: i32, color: Color)
        requires
            old(self).wf(),
        ensures
            final(self).wf(),
            final(self).rect == old(self).rect,
            final(self).z_index == old(self).z_index,
            final(self).dirty_rect == old(self).dirty_rect,
            forall|x: int, y: int|
                old(self).in_bounds(x, y) ==> #[trigger] final(self).pixel(x, y) == if on_line(
                    x1 as int,
                    y1 as int,
                    x2 as int,
                    y2 as int,
                    x,
                    y,
                ) {
                    color
                } else {
                    old(self).pixel(x, y)
                },
    {
        let ghost w = self.rect.w as int;
        let ghost h = self.rect.h as int;
        self.draw_pixel(x1, y1, color);
        proof {
            if self.in_bounds(x1 as int, y1 as int) {
                lemma_write_pixel(old(self).data@, w, h, x1 as int, y1 as int, color);
            }
        }
        let ghost mid = self.data@;
        self.draw_pixel(x2, y2, color);
        proof {
            if self.in_bounds(x2 as int, y2 as int) {
                lemma_write_pixel(mid, w, h, x2 as int, y2 as int, color);
            }
        }
        let dx: i64 = x2 as i64 - x1 as i64;
        let dy: i64 = y2 as i64 - y1 as i64;
        let aw: i64 = if dx >= 0 { dx } else { -dx };
        let ah: i64 = if dy >= 0 { dy } else { -dy };
        let steps: i64 = if aw >= ah { aw } else { ah };
        let ghost gsteps = line_steps(x1 as int, y1 as int, x2 as int, y2 as int);
        assert(steps == gsteps);
        let mut i: i64 = 0;
        while i < steps
            invariant
                0 <= i <= steps,
                steps == gsteps,
                gsteps == line_steps(x1 as int, y1 as int, x2 as int, y2 as int),
                0 <= steps <= 0x1_0000_0000,
                -0x1_0000_0000 <= dx <= 0x1_0000_0000,
                -0x1_0000_0000 <= dy <= 0x1_0000_0000,
                dx == x2 - x1,
                dy == y2 - y1,
                self.wf(),
                self.rect == old(self).rect,
                self.dirty_rect == old(self).dirty_rect,
                self.z_index == old(self).z_index,
                w == self.rect.w,
                h == self.rect.h,
                forall|x: int, y: int|
                    0 <= x < w && 0 <= y < h ==> #[trigger] self.pixel(x, y) == if (x == x1
                        && y == y1) || (x == x2 && y == y2) || line_hit(
                        x1 as int,
                        y1 as int,
                        x2 as int,
                        y2 as int,
                        i as int,
                        x,
                        y,
                    ) {
                        color
                    } else {
                        old(self).pixel(x, y)
                    },
            decreases steps - i,
        {
            proof {
                assert(-0x1_0000_0000_0000_0000 <= i * dx <= 0x1_0000_0000_0000_0000) by (nonlinear_arith)
                    requires
                        0 <= i <= 0x1_0000_0000,
                        -0x1_0000_0000 <= dx <= 0x1_0000_0000,
                ;
                assert(-0x1_0000_0000_0000_0000 <= i * dy <= 0x1_0000_0000_0000_0000) by (nonlinear_arith)
                    requires
                        0 <= i <= 0x1_0000_0000,
                        -0x1_0000_0000 <= dy <= 0x1_0000_0000,
                ;
                assert(-0x1_0000_0000_0000_0000 <= x1 * steps <= 0x1_0000_0000_0000_0000) by (nonlinear_arith)
                    requires
                        0 <= steps <= 0x1_0000_0000,
                        -0x1_0000_0000 <= x1 <= 0x1_0000_0000,
                ;
                assert(-0x1_0000_0000_0000_0000 <= y1 * steps <= 0x1_0000_0000_0000_0000) by (nonlinear_arith)
                    requires
                        0 <= steps <= 0x1_0000_0000,
                        -0x1_0000_0000 <= y1 <= 0x1_0000_0000,
                ;
            }
            let px = round_div_exec(
                x1 as i128 * steps as i128 + i as i128 * dx as i128,
                steps as i128,
            );
            let py = round_div_exec(
                y1 as i128 * steps as i128 + i as i128 * dy as i128,
                steps as i128,
            );
            let ghost before = self.data@;
            let ghost ls = line_steps(x1 as int, y1 as int, x2 as int, y2 as int);
            proof {
                assert forall|x: int, y: int| 0 <= x < w && 0 <= y < h implies pixel_of(
                    before,
                    w,
                    x,
                    y,
                ) == if (x == x1 && y == y1) || (x == x2 && y == y2) || line_hit(
                    x1 as int,
                    y1 as int,
                    x2 as int,
                    y2 as int,
                    i as int,
                    x,
                    y,
                ) {
                    color
                } else {
                    old(self).pixel(x, y)
                } by {
                    assert(self.pixel(x, y) == pixel_of(before, w, x, y));
                }
            }
            self.plot(px, py, color);
            proof {
                assert(px == line_coord(x1 as int, x2 as int, ls, i as int));
                assert(py == line_coord(y1 as int, y2 as int, ls, i as int));
                if self.in_bounds(px as int, py as int) {
                    lemma_write_pixel(before, w, h, px as int, py as int, color);
                }
                assert forall|x: int, y: int| 0 <= x < w && 0 <= y < h implies #[trigger] self.pixel(
                    x,
                    y,
                ) == if (x == x1 && y == y1) || (x == x2 && y == y2) || line_hit(
                    x1 as int,
                    y1 as int,
                    x2 as int,
                    y2 as int,
                    i + 1,
                    x,
                    y,
                ) {
                    color
                } else {
                    old(self).pixel(x, y)
                } by {
                    let hit_before = line_hit(x1 as int, y1 as int, x2 as int, y2 as int, i as int, x, y);
                    let hit_after = line_hit(x1 as int, y1 as int, x2 as int, y2 as int, i + 1, x, y);
                    if x == px && y == py {
                        assert(line_coord(x1 as int, x2 as int, ls, i as int) == x);
                        assert(hit_after);
                    }
                    if hit_after {
                        let j = choose|j: int|
                            0 <= j < i + 1 && #[trigger] line_coord(x1 as int, x2 as int, ls, j) == x
                                && line_coord(y1 as int, y2 as int, ls, j) == y;
                        if j < i {
                            assert(line_coord(x1 as int, x2 as int, ls, j) == x);
                            assert(hit_before);
                        }
                    }
                    if hit_before {
                        let j = choose|j: int|
                            0 <= j < i && #[trigger] line_coord(x1 as int, x2 as int, ls, j) == x
                                && line_coord(y1 as int, y2 as int, ls, j) == y;
                        assert(line_coord(x1 as int, x2 as int, ls, j) == x);
                        assert(hit_after);
                    }
                    assert(hit_after == (hit_before || (x == px && y == py)));
                    if !self.in_bounds(px as int, py as int) {
                        assert(self.data@ == before);
                    }
                }
            }
            i += 1;
        }
        let ghost drawn = self.data@;
        proof {
            assert forall|x: int, y: int| 0 <= x < w && 0 <= y < h implies #[trigger] pixel_of(
                drawn,
                w,
                x,
                y,
            ) == if on_line(x1 as int, y1 as int, x2 as int, y2 as int, x, y) {
                color
            } else {
                old(self).pixel(x, y)
            } by {
                assert(self.pixel(x, y) == pixel_of(drawn, w, x, y));
            }
        }
        assert forall|x: int, y: int| old(self).in_bounds(x, y) implies #[trigger] self.pixel(x, y)
            == pixel_of(drawn, w, x, y) by {}
    }

    /// The pixel at `(x, y)`, which must lie in the layer, in wide coordinates.
    pub(crate) fn pixel_wide(&self, x: i64, y: i64) -> (c: Color)
        requires
            self.wf(),
            self.in_bounds(x as int, y as int),
        ensures
            c == self.pixel(x as int, y as int),
    {
        let n = self.data.len();
        proof {
            lemma_index_in_range(self.rect.w as int, self.rect.h as int, x as int, y as int);
            assert(y * self.rect.w <= y * self.rect.w + x) by (nonlinear_arith)
                requires
                    0 <= x,
            ;
        }
        self.data[y as usize * self.rect.w as usize + x as usize]
    }

    /// Composites `other` on top of this layer over `blend_region`, pixel by
    /// pixel as `blend_pixel` states, matching the two layers by their canvas
    /// positions. Returns whether that region holds any pixel; when it holds
    /// none the layer is left as it was.
    pub fn blend(&mut self, other: &Layer, clip_rect: ImageRect) -> (r: bool)
        requires
            old(self).wf(),
            other.wf(),
        ensures
            r == !blend_region(*old(self), *other, clip_rect).is_empty(),
            composited(*old(self), *other, clip_rect, *final(self)),
    {
        let target = self.rect.intersection(other.rect).intersection(
            self.dirty_rect.union(other.dirty_rect),
        ).intersection(clip_rect);
        let ghost region = blend_region(*old(self), *other, clip_rect);
        assert(target == region);
        if target.w == 0 || target.h == 0 {
            return false;
        }
        let ghost w = self.rect.w as int;
        let ghost h = self.rect.h as int;
        let sx: i64 = self.rect.x as i64;
        let sy: i64 = self.rect.y as i64;
        let ox: i64 = other.rect.x as i64;
        let oy: i64 = other.rect.y as i64;
        let right: i64 = target.x as i64 + target.w as i64;
        let bottom: i64 = target.y as i64 + target.h as i64;
        let mut cy: i64 = target.y as i64;
        while cy < bottom
            invariant
                target == region,
                region.y <= cy <= bottom,
                bottom == region.bottom(),
                right == region.right(),
                region.fits(),
                forall|px: int, py: int|
                    region.has_point(px, py) ==> old(self).rect.has_point(px, py)
                        && other.rect.has_point(px, py),
                self.wf(),
                other.wf(),
                sx == self.rect.x,
                sy == self.rect.y,
                ox == other.rect.x,
                oy == other.rect.y,
                self.rect == old(self).rect,
                self.dirty_rect == old(self).dirty_rect,
                self.z_index == old(self).z_index,
                w == self.rect.w,
                h == self.rect.h,
                forall|x: int, y: int|
                    0 <= x < w && 0 <= y < h ==> #[trigger] self.pixel(x, y) == if region.has_point(
                        x + sx,
                        y + sy,
                    ) && y + sy < cy {
                        blend_pixel(old(self).pixel(x, y), other.pixel(x + sx - ox, y + sy - oy))
                    } else {
                        old(self).pixel(x, y)
                    },
            decreases bottom - cy,
        {
            let mut cx: i64 = target.x as i64;
            while cx < right
                invariant
                    target == region,
                    region.y <= cy < bottom,
                    region.x <= cx <= right,
                    bottom == region.bottom(),
                    right == region.right(),
                    region.fits(),
                    forall|px: int, py: int|
                        region.has_point(px, py) ==> old(self).rect.has_point(px, py)
                            && other.rect.has_point(px, py),
                    self.wf(),
                    other.wf(),
                    sx == self.rect.x,
                    sy == self.rect.y,
                    ox == other.rect.x,
                    oy == other.rect.y,
                    self.rect == old(self).rect,
                    self.dirty_rect == old(self).dirty_rect,
                    self.z_index == old(self).z_index,
                    w == self.rect.w,
                    h == self.rect.h,
                    forall|x: int, y: int|
                        0 <= x < w && 0 <= y < h ==> #[trigger] self.pixel(x, y) == if region.has_point(
                            x + sx,
                            y + sy,
                        ) && (y + sy < cy || (y + sy == cy && x + sx < cx)) {
                            blend_pixel(
                                old(self).pixel(x, y),
                                other.pixel(x + sx - ox, y + sy - oy),
                            )
                        } else {
                            old(self).pixel(x, y)
                        },
                decreases right - cx,
            {
                assert(region.has_point(cx as int, cy as int));
                let lx: i64 = cx - sx;
                let ly: i64 = cy - sy;
                let base = self.pixel_wide(lx, ly);
                let over = other.pixel_wide(cx - ox, cy - oy);
                let mixed = blend_color(base, over);
                let ghost before = self.data@;
                proof {
                    assert forall|x: int, y: int| 0 <= x < w && 0 <= y < h implies pixel_of(
                        before,
                        w,
                        x,
                        y,
                    ) == if region.has_point(x + sx, y + sy) && (y + sy < cy || (y + sy == cy && x
                        + sx < cx)) {
                        blend_pixel(old(self).pixel(x, y), other.pixel(x + sx - ox, y + sy - oy))
                    } else {
                        old(self).pixel(x, y)
                    } by {
                        assert(self.pixel(x, y) == pixel_of(before, w, x, y));
                    }
                    assert(base == old(self).pixel(lx as int, ly as int));
                }
                self.plot(lx as i128, ly as i128, mixed);
                proof {
                    lemma_write_pixel(before, w, h, lx as int, ly as int, mixed);
                }
                cx += 1;
            }
            cy += 1;
        }
        true
    }

    /// The pixel at `(x, y)`, or `None` outside the layer.
    pub fn get_pixel(&self, x: i32, y: i32) -> (r: Option<Color>)
        requires
            self.wf(),
        ensures
            r == if self.in_bounds(x as int, y as int) {
                Some(self.pixel(x as int, y as int))
            } else {
                None
            },
    {
        if self.contains_point(x, y) {
            Some(self.get_pixel_unchecked(x, y))
        } else {
            None
        }
    }

    /// The pixel at `(x, y)`, which must lie in the layer.
    pub fn get_pixel_unchecked(&self, x: i32, y: i32) -> (c: Color)
        requires
            self.wf(),
            self.in_bounds(x as int, y as int),
        ensures
            c == self.pixel(x as int, y as int),
    {
        let n = self.data.len();
        proof {
            lemma_index_in_range(self.rect.w as int, self.rect.h as int, x as int, y as int);
            assert(y * self.rect.w <= y * self.rect.w + x) by (nonlinear_arith)
                requires
                    0 <= x,
            ;
        }
        self.data[y as usize * self.rect.w as usize + x as usize]
    }

    /// Grows the dirty rectangle to hold `rect` as well.
    pub fn add_dirty_rect(&mut self, rect: ImageRect)
        requires
            old(self).wf(),
            rect.valid(),
        ensures
            final(self).wf(),
            final(self).dirty_rect == old(self).dirty_rect.union_of(rect),
            final(self).rect == old(self).rect,
            final(self).data@ == old(self).data@,
            final(self).z_index == old(self).z_index,
    {
        self.dirty_rect = self.dirty_rect.union(rect);
    }

    pub fn clear_dirty_rect(&mut self)
        requires
            old(self).wf(),
        ensures
            final(self).wf(),
            final(self).dirty_rect == ImageRect::empty(),
            final(self).rect == old(self).rect,
            final(self).data@ == old(self).data@,
            final(self).z_index == old(self).z_index,
    {
        self.dirty_rect = ImageRect::new(0, 0, 0, 0);
    }

    /// Makes every pixel fully transparent and marks the whole layer dirty.
    pub fn clear(&mut self)
        requires
            old(self).wf(),
        ensures
            final(self).wf(),
            final(self).data@ == filled(old(self).data@.len(), Color::transparent()),
            final(self).dirty_rect == old(self).dirty_rect.union_of(old(self).rect),
            final(self).rect == old(self).rect,
            final(self).z_index == old(self).z_index,
    {
        let clear = Color::transparent();
        let n = self.data.len();
        let mut i: usize = 0;
        while i < n
            invariant
                i <= n,
                n == self.data@.len(),
                self.wf(),
                self.rect == old(self).rect,
                self.dirty_rect == old(self).dirty_rect,
                self.z_index == old(self).z_index,
                forall|k: int| 0 <= k < i ==> self.data@[k] == clear,
            decreases n - i,
        {
            self.data.set(i, clear);
            i += 1;
        }
        assert(self.data@ =~= filled(n as nat, clear));
        let whole = self.rect;
        self.add_dirty_rect(whole);
    }
}

} // verus!
