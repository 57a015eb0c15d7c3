//! A stack of layers on one canvas, composited bottom to top.
use vstd::prelude::*;

use crate::color::Color;
use crate::geometry::ImageRect;
use crate::layer::{
    blend_color, blend_pixel, index_of, lemma_index_in_range, lemma_index_onto, lemma_write_pixel,
    pixel_of, Layer, LayerView,
};

verus! {

/// Byte `k` (0 to 3: red, green, blue, alpha) of a color.
pub open spec fn channel(c: Color, k: int) -> u8 {
    if k == 0 {
        c.r
    } else if k == 1 {
        c.g
    } else if k == 2 {
        c.b
    } else {
        c.a
    }
}

/// Pixels as bytes, four per pixel in the order red, green, blue, alpha.
pub open spec fn rgba_bytes(pixels: Seq<Color>) -> Seq<u8> {
    Seq::new(pixels.len() * 4, |k: int| channel(pixels[k / 4], k % 4))
}

/// The color at canvas point `(x, y)` after compositing the first `n` layers,
/// bottom first, over an opaque white background; a layer contributes only
/// where it lies and within `clip`.
pub open spec fn composite_pixel(layers: Seq<Layer>, n: int, clip: ImageRect, x: int, y: int) -> Color
    decreases n,
{
    if n <= 0 {
        Color::white()
    } else {
        let below = composite_pixel(layers, n - 1, clip, x, y);
        let l = layers[n - 1];
        if l.rect.has_point(x, y) && clip.has_point(x, y) {
            blend_pixel(below, l.pixel(x - l.rect.x, y - l.rect.y))
        } else {
            below
        }
    }
}

/// Outside `clip` no layer contributes: the composite is the white background.
pub proof fn lemma_composite_unclipped(layers: Seq<Layer>, n: int, clip: ImageRect, x: int, y: int)
    requires
        !clip.has_point(x, y),
    ensures
        composite_pixel(layers, n, clip, x, y) == Color::white(),
    decreases n,
{
    if n > 0 {
        lemma_composite_unclipped(layers, n - 1, clip, x, y);
    }
}

/// Writes four bytes per pixel, red, green, blue, alpha.
pub fn to_rgba_bytes(pixels: &Vec<Color>) -> (r: Vec<u8>)
    requires
        pixels@.len() * 4 <= usize::MAX,
    ensures
        r@ == rgba_bytes(pixels@),
{
    let n = pixels.len();
    let mut out: Vec<u8> = Vec::new();
    let mut i: usize = 0;
    while i < n
        invariant
            i <= n,
            n == pixels@.len(),
            n * 4 <= usize::MAX,
            out@ == rgba_bytes(pixels@.subrange(0, i as int)),
        decreases n - i,
    {
        let c = pixels[i];
        out.push(c.r);
        out.push(c.g);
        out.push(c.b);
        out.push(c.a);
        i += 1;
        assert(out@ =~= rgba_bytes(pixels@.subrange(0, i as int)));
    }
    assert(pixels@.subrange(0, n as int) =~= pixels@);
    out
}

/// Of two pixels taken row by row, the earlier one sits at the lower position.
pub proof fn lemma_index_before(w: int, i1: int, j1: int, i2: int, j2: int)
    requires
        0 <= i1 < w,
        0 <= i2,
        0 <= j1,
        j1 < j2 || (j1 == j2 && i1 < i2),
    ensures
        index_of(w, i1, j1) < index_of(w, i2, j2),
{
    if j1 < j2 {
        assert(j1 * w + w <= j2 * w) by (nonlinear_arith)
            requires
                j1 < j2,
                0 <= w,
        ;
    }
}

/// The union of the dirty rectangles of the first `n` layers.
pub open spec fn dirty_union(layers: Seq<Layer>, n: int) -> ImageRect
    decreases n,
{
    if n <= 0 {
        ImageRect::empty()
    } else {
        dirty_union(layers, n - 1).union_of(layers[n - 1].dirty_rect)
    }
}

/// What an image holds, as plain values.
pub struct ImageView {
    pub rect: ImageRect,
    pub layers: Seq<LayerView>,
}

/// Layers stacked on one canvas, `layers[0]` at the bottom. The canvas is
/// `rect`, placed at the origin.
pub struct Image {
    pub rect: ImageRect,
    pub layers: Vec<Layer>,
}

impl View for Image {
    type V = ImageView;

    open spec fn view(&self) -> ImageView {
        ImageView { rect: self.rect, layers: self.layers@.map_values(|l: Layer| l@) }
    }
}

impl Image {
    /// At least one layer, each well formed; a canvas at the origin whose
    /// pixels, four bytes each, fit in memory.
    pub open spec fn wf(&self) -> bool {
        &&& self.layers@.len() >= 1
        &&& self.rect.x == 0
        &&& self.rect.y == 0
        &&& self.rect.fits()
        &&& self.rect.w * self.rect.h * 4 <= usize::MAX
        &&& forall|i: int| 0 <= i < self.layers@.len() ==> (#[trigger] self.layers@[i]).wf()
    }

    /// The color of canvas point `(x, y)` with every layer composited within
    /// `clip`; off the canvas, transparent.
    pub open spec fn shown(&self, clip: ImageRect, x: int, y: int) -> Color {
        if self.rect.has_point(x, y) {
            composite_pixel(self.layers@, self.layers@.len() as int, clip, x, y)
        } else {
            Color::transparent()
        }
    }

    /// The colors of the points of `area`, row by row, composited within `clip`.
    pub open spec fn area_pixels(&self, area: ImageRect, clip: ImageRect) -> Seq<Color> {
        Seq::new(
            (area.w * area.h) as nat,
            |k: int| self.shown(clip, area.x + k % (area.w as int), area.y + k / (area.w as int)),
        )
    }

    /// The colors of `area`, row by row, read from `blended`, a composite of
    /// this image within `clip`; transparent off the canvas.
    fn area_colors(&self, blended: &Layer, area: ImageRect, Ghost(clip): Ghost<ImageRect>) -> (r: Vec<Color>)
        requires
            self.wf(),
            blended.wf(),
            blended.rect == self.rect,
            area.w * area.h <= usize::MAX,
            forall|x: int, y: int|
                blended.in_bounds(x, y) ==> #[trigger] blended.pixel(x, y) == composite_pixel(
                    self.layers@,
                    self.layers@.len() as int,
                    clip,
                    x,
                    y,
                ),
        ensures
            r@ == self.area_pixels(area, clip),
    {
        let ghost aw = area.w as int;
        let ghost ah = area.h as int;
        let cw: i64 = self.rect.w as i64;
        let ch: i64 = self.rect.h as i64;
        let mut out: Vec<Color> = Vec::new();
        let mut j: u32 = 0;
        while j < area.h
            invariant
                self.wf(),
                blended.wf(),
                blended.rect == self.rect,
                cw == self.rect.w,
                ch == self.rect.h,
                aw == area.w,
                ah == area.h,
                aw * ah <= usize::MAX,
                j <= area.h,
                out@.len() == j * aw,
                forall|x: int, y: int|
                    blended.in_bounds(x, y) ==> #[trigger] blended.pixel(x, y) == composite_pixel(
                        self.layers@,
                        self.layers@.len() as int,
                        clip,
                        x,
                        y,
                    ),
                forall|i2: int, j2: int|
                    0 <= i2 < aw && 0 <= j2 < j ==> #[trigger] pixel_of(out@, aw, i2, j2) == self.shown(
                        clip,
                        area.x + i2,
                        area.y + j2,
                    ),
            decreases area.h - j,
        {
            let mut i: u32 = 0;
            while i < area.w
                invariant
                    self.wf(),
                    blended.wf(),
                    blended.rect == self.rect,
                    cw == self.rect.w,
                    ch == self.rect.h,
                    aw == area.w,
                    ah == area.h,
                    aw * ah <= usize::MAX,
                    j < area.h,
                    i <= area.w,
                    out@.len() == j * aw + i,
                    forall|x: int, y: int|
                        blended.in_bounds(x, y) ==> #[trigger] blended.pixel(x, y) == composite_pixel(
                            self.layers@,
                            self.layers@.len() as int,
                            clip,
                            x,
                            y,
                        ),
                    forall|i2: int, j2: int|
                        0 <= i2 < aw && 0 <= j2 && (j2 < j || (j2 == j && i2 < i))
                            ==> #[trigger] pixel_of(out@, aw, i2, j2) == self.shown(
                            clip,
                            area.x + i2,
                            area.y + j2,
                        ),
                decreases area.w - i,
            {
                proof {
                    assert(j * aw + i < aw * ah) by (nonlinear_arith)
                        requires
                            0 <= i < aw,
                            0 <= j < ah,
                    ;
                }
                let px: i64 = area.x as i64 + i as i64;
                let py: i64 = area.y as i64 + j as i64;
                let c = if px >= 0 && px < cw && py >= 0 && py < ch {
                    blended.pixel_wide(px, py)
                } else {
                    Color::transparent()
                };
                let ghost before = out@;
                out.push(c);
                proof {
                    assert forall|i2: int, j2: int|
                        0 <= i2 < aw && 0 <= j2 && (j2 < j || (j2 == j && i2 < i + 1))
                            implies #[trigger] pixel_of(out@, aw, i2, j2) == self.shown(
                            clip,
                            area.x + i2,
                            area.y + j2,
                        ) by {
                        if j2 == j && i2 == i {
                        } else {
                            lemma_index_before(aw, i2, j2, i as int, j as int);
                            assert(0 <= index_of(aw, i2, j2)) by (nonlinear_arith)
                                requires
                                    0 <= i2,
                                    0 <= j2,
                                    0 <= aw,
                            ;
                            assert(pixel_of(before, aw, i2, j2) == pixel_of(out@, aw, i2, j2));
                        }
                    }
                }
                i += 1;
            }
            proof {
                assert(j * aw + aw == (j + 1) * aw) by (nonlinear_arith);
            }
            j += 1;
        }
        proof {
            let want = self.area_pixels(area, clip);
            assert(out@.len() == aw * ah) by (nonlinear_arith)
                requires
                    out@.len() == j * aw,
                    j == ah,
            ;
            assert forall|k: int| 0 <= k < out@.len() implies out@[k] == want[k] by {
                lemma_index_onto(aw, ah, k);
                assert(pixel_of(out@, aw, k % aw, k / aw) == out@[k]);
            }
            assert(out@ =~= want);
        }
        out
    }

    /// The whole canvas composited, as bytes: four per pixel, row by row.
    pub fn raw_data(&self) -> (r: Vec<u8>)
        requires
            self.wf(),
        ensures
            r@ == rgba_bytes(self.area_pixels(self.rect, self.rect)),
    {
        let blended = self.blend(self.rect);
        let colors = self.area_colors(&blended, self.rect, Ghost(self.rect));
        to_rgba_bytes(&colors)
    }

    /// The region `rect` composited within itself, as bytes: four per pixel,
    /// row by row, sized to `rect`; points off the canvas are transparent.
    pub fn partial_data(&self, rect: ImageRect) -> (r: Vec<u8>)
        requires
            self.wf(),
            rect.w * rect.h * 4 <= usize::MAX,
        ensures
            r@ == rgba_bytes(self.area_pixels(rect, rect)),
    {
        let blended = self.blend(rect);
        let colors = self.area_colors(&blended, rect, Ghost(rect));
        to_rgba_bytes(&colors)
    }

    /// The union of every layer's dirty rectangle: the region to refresh.
    pub fn dirty_rect(&self) -> (r: ImageRect)
        requires
            self.wf(),
        ensures
            r == dirty_union(self.layers@, self.layers@.len() as int),
            r.valid(),
    {
        let mut dirty = ImageRect::new(0, 0, 0, 0);
        let n = self.layers.len();
        let mut i: usize = 0;
        while i < n
            invariant
                self.wf(),
                n == self.layers@.len(),
                i <= n,
                dirty == dirty_union(self.layers@, i as int),
                dirty.valid(),
            decreases n - i,
        {
            assert(self.layers@[i as int].wf());
            dirty = dirty.union(self.layers[i].dirty_rect);
            i += 1;
        }
        dirty
    }

    /// Clears the dirty rectangle of every layer; pixels stay as they are.
    pub fn clear_dirty(&mut self)
        requires
            old(self).wf(),
        ensures
            final(self).wf(),
            final(self).rect == old(self).rect,
            final(self).layers@.len() == old(self).layers@.len(),
            forall|i: int|
                0 <= i < old(self).layers@.len() ==> (#[trigger] final(self).layers@[i])@ == (LayerView {
                    dirty_rect: ImageRect::empty(),
                    ..old(self).layers@[i]@
                }),
    {
        let n = self.layers.len();
        let mut i: usize = 0;
        while i < n
            invariant
                self.wf(),
                n == self.layers@.len(),
                n == old(self).layers@.len(),
                self.rect == old(self).rect,
                i <= n,
                forall|k: int|
                    0 <= k < i ==> (#[trigger] self.layers@[k])@ == (LayerView {
                        dirty_rect: ImageRect::empty(),
                        ..old(self).layers@[k]@
                    }),
                forall|k: int| i <= k < n ==> #[trigger] self.layers@[k] == old(self).layers@[k],
            decreases n - i,
        {
            assert(self.layers@[i as int].wf());
            self.layers[i].clear_dirty_rect();
            i += 1;
        }
    }

    /// An independent copy: every layer copied, nothing shared.
    pub fn copy(&self) -> (r: Image)
        requires
            self.wf(),
        ensures
            r.wf(),
            r@ == self@,
    {
        let n = self.layers.len();
        let mut layers: Vec<Layer> = Vec::new();
        let mut i: usize = 0;
        while i < n
            invariant
                self.wf(),
                n == self.layers@.len(),
                i <= n,
                layers@.len() == i,
                forall|k: int| 0 <= k < i ==> (#[trigger] layers@[k]).wf(),
                forall|k: int| 0 <= k < i ==> (#[trigger] layers@[k])@ == self.layers@[k]@,
            decreases n - i,
        {
            assert(self.layers@[i as int].wf());
            layers.push(self.layers[i].copy());
            i += 1;
        }
        let r = Image { rect: self.rect, layers };
        assert(r@.layers =~= self@.layers);
        r
    }

    /// A `w` by `h` canvas with one opaque white layer.
    pub fn new(w: u32, h: u32) -> (img: Image)
        requires
            w <= i32::MAX,
            h <= i32::MAX,
            w * h * 4 <= usize::MAX,
        ensures
            img.wf(),
            img.rect == (ImageRect { x: 0, y: 0, w, h }),
            img.layers@.len() == 1,
            img.layers@[0].rect == img.rect,
            img.layers@[0].data@ == crate::layer::filled((w * h) as nat, Color::white()),
            img.layers@[0].dirty_rect == ImageRect::empty(),
    {
        let rect = ImageRect::new(0, 0, w, h);
        let mut layers: Vec<Layer> = Vec::new();
        layers.push(Layer::new(rect));
        Image { rect, layers }
    }

    /// Puts a fully transparent layer the size of the canvas on top.
    pub fn add_layer(&mut self)
        requires
            old(self).wf(),
        ensures
            final(self).wf(),
            final(self).rect == old(self).rect,
            final(self).layers@.len() == old(self).layers@.len() + 1,
            final(self).layers@.drop_last() == old(self).layers@,
            final(self).layers@.last().rect == old(self).rect,
            final(self).layers@.last().data@ == crate::layer::filled(
                (old(self).rect.w * old(self).rect.h) as nat,
                Color::transparent(),
            ),
            final(self).layers@.last().dirty_rect == ImageRect::empty(),
    {
        let layer = Layer::with_color(self.rect, Color::transparent());
        self.layers.push(layer);
        assert(self.layers@.drop_last() =~= old(self).layers@);
    }

    /// Removes the top layer, unless it is the only one.
    pub fn remove_layer(&mut self)
        requires
            old(self).wf(),
        ensures
            final(self).wf(),
            final(self).rect == old(self).rect,
            final(self).layers@ == if old(self).layers@.len() > 1 {
                old(self).layers@.drop_last()
            } else {
                old(self).layers@
            },
    {
        if self.layers.len() > 1 {
            self.layers.pop();
            assert(self.layers@ =~= old(self).layers@.drop_last());
        }
    }

    /// Layer `i` lies over canvas point `(x, y)` there with an opaque pixel.
    fn opaque_at(&self, i: usize, x: i64, y: i64) -> (r: bool)
        requires
            self.wf(),
            i < self.layers@.len(),
        ensures
            r == (self.layers@[i as int].rect.has_point(x as int, y as int) && self.layers@[i as int].pixel(
                x - self.layers@[i as int].rect.x,
                y - self.layers@[i as int].rect.y,
            ).a == 255),
    {
        let l = &self.layers[i];
        assert(l.wf());
        let lx: i64 = l.rect.x as i64;
        let ly: i64 = l.rect.y as i64;
        if x >= lx && x < lx + l.rect.w as i64 && y >= ly && y < ly + l.rect.h as i64 {
            l.pixel_wide(x - lx, y - ly).a == 255
        } else {
            false
        }
    }

    /// The composite color of canvas point `(x, y)` within `clip`. Layers
    /// are looked at from the top down until one covers the point with an
    /// opaque pixel: what lies below it cannot show, so compositing starts
    /// from that pixel.
    fn composite_at(&self, x: i64, y: i64, clip: ImageRect) -> (c: Color)
        requires
            self.wf(),
            self.rect.has_point(x as int, y as int),
        ensures
            c == composite_pixel(self.layers@, self.layers@.len() as int, clip, x as int, y as int),
    {
        let n = self.layers.len();
        if !clip.contains(x as i32, y as i32) {
            proof {
                lemma_composite_unclipped(self.layers@, n as int, clip, x as int, y as int);
            }
            return Color::white();
        }
        let mut k: usize = n;
        while k > 0 && !self.opaque_at(k - 1, x, y)
            invariant
                self.wf(),
                n == self.layers@.len(),
                k <= n,
            decreases k,
        {
            k -= 1;
        }
        let mut c = if k == 0 {
            Color::white()
        } else {
            let l = &self.layers[k - 1];
            assert(l.wf());
            l.pixel_wide(x - l.rect.x as i64, y - l.rect.y as i64)
        };
        let mut i: usize = k;
        while i < n
            invariant
                self.wf(),
                n == self.layers@.len(),
                k <= i <= n,
                clip.has_point(x as int, y as int),
                c == composite_pixel(self.layers@, i as int, clip, x as int, y as int),
            decreases n - i,
        {
            let l = &self.layers[i];
            assert(l.wf());
            let lx: i64 = l.rect.x as i64;
            let ly: i64 = l.rect.y as i64;
            if x >= lx && x < lx + l.rect.w as i64 && y >= ly && y < ly + l.rect.h as i64 {
                let over = l.pixel_wide(x - lx, y - ly);
                c = blend_color(c, over);
            }
            i += 1;
        }
        c
    }

    /// Composites every layer, bottom first, over an opaque white layer the
    /// size of the canvas; layers contribute only within `clip_rect`. The
    /// result is a clean layer covering the canvas.
    pub fn blend(&self, clip_rect: ImageRect) -> (r: Layer)
        requires
            self.wf(),
        ensures
            r.wf(),
            r.rect == self.rect,
            r.dirty_rect == ImageRect::empty(),
            forall|x: int, y: int|
                r.in_bounds(x, y) ==> #[trigger] r.pixel(x, y) == composite_pixel(
                    self.layers@,
                    self.layers@.len() as int,
                    clip_rect,
                    x,
                    y,
                ),
    {
        let mut base = Layer::new(self.rect);
        let ghost w = self.rect.w as int;
        let ghost h = self.rect.h as int;
        let ghost n = self.layers@.len() as int;
        let cw: i64 = self.rect.w as i64;
        let ch: i64 = self.rect.h as i64;
        assert forall|px: int, py: int| 0 <= px < w && 0 <= py < h implies #[trigger] base.pixel(px, py)
            == Color::white() by {
            lemma_index_in_range(w, h, px, py);
        }
        let mut y: i64 = 0;
        while y < ch
            invariant
                self.wf(),
                n == self.layers@.len(),
                base.wf(),
                base.rect == self.rect,
                base.dirty_rect == ImageRect::empty(),
                w == cw,
                h == ch,
                w == self.rect.w,
                h == self.rect.h,
                0 <= y <= ch,
                forall|px: int, py: int|
                    0 <= px < w && 0 <= py < h ==> #[trigger] base.pixel(px, py) == if py < y {
                        composite_pixel(self.layers@, n, clip_rect, px, py)
                    } else {
                        Color::white()
                    },
            decreases ch - y,
        {
            let mut x: i64 = 0;
            while x < cw
                invariant
                    self.wf(),
                    n == self.layers@.len(),
                    base.wf(),
                    base.rect == self.rect,
                    base.dirty_rect == ImageRect::empty(),
                    w == cw,
                    h == ch,
                    w == self.rect.w,
                    h == self.rect.h,
                    0 <= y < ch,
                    0 <= x <= cw,
                    forall|px: int, py: int|
                        0 <= px < w && 0 <= py < h ==> #[trigger] base.pixel(px, py) == if py < y || (
                        py == y && px < x) {
                            composite_pixel(self.layers@, n, clip_rect, px, py)
                        } else {
                            Color::white()
                        },
                decreases cw - x,
            {
                let c = self.composite_at(x, y, clip_rect);
                let ghost before = base;
                base.plot(x as i128, y as i128, c);
                proof {
                    lemma_write_pixel(before.data@, w, h, x as int, y as int, c);
                    assert forall|px: int, py: int| 0 <= px < w && 0 <= py < h implies #[trigger] base.pixel(
                        px,
                        py,
                    ) == if py < y || (py == y && px < x + 1) {
                        composite_pixel(self.layers@, n, clip_rect, px, py)
                    } else {
                        Color::white()
                    } by {
                        assert(before.pixel(px, py) == pixel_of(before.data@, w, px, py));
                    }
                }
                x += 1;
            }
            y += 1;
        }
        base
    }
}

} // verus!
