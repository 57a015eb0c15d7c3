//! Turning encoded image files into layers and images, and images back into
//! PNG bytes. Decoding and encoding are the `image` crate's; this module
//! frames and checks the pixel bytes on either side.
use vstd::prelude::*;

use image::ImageEncoder;

use crate::color::Color;
use crate::geometry::ImageRect;
use crate::canvas::{channel, rgba_bytes, Image};
use crate::layer::Layer;

verus! {

#[verifier::external_type_specification]
#[verifier::external_body]
pub struct ExImageError(image::ImageError);

/// Why reading or writing an image file failed.
#[derive(Copy, Clone, Debug, PartialEq, Eq, Structural)]
pub enum ImageIoError {
    /// The bytes are not an image that can be read, or their pixel data does
    /// not match the stated size.
    Decode,
    /// The pixels could not be encoded.
    Encode,
    /// The size leaves the coordinate range or does not fit in memory.
    TooLarge,
}

/// Pixels read from bytes, four per pixel in the order red, green, blue,
/// alpha; trailing bytes short of a pixel are ignored.
pub open spec fn colors_of(bytes: Seq<u8>) -> Seq<Color> {
    Seq::new(
        bytes.len() / 4,
        |i: int| Color { r: bytes[4 * i], g: bytes[4 * i + 1], b: bytes[4 * i + 2], a: bytes[4 * i + 3] },
    )
}

/// Reading back the bytes written for some pixels gives those pixels.
pub proof fn lemma_colors_of_rgba_bytes(pixels: Seq<Color>)
    ensures
        colors_of(rgba_bytes(pixels)) == pixels,
{
    let bytes = rgba_bytes(pixels);
    assert forall|i: int| 0 <= i < pixels.len() implies #[trigger] colors_of(bytes)[i] == pixels[i] by {
        assert((4 * i) / 4 == i && (4 * i) % 4 == 0);
        assert((4 * i + 1) / 4 == i && (4 * i + 1) % 4 == 1);
        assert((4 * i + 2) / 4 == i && (4 * i + 2) % 4 == 2);
        assert((4 * i + 3) / 4 == i && (4 * i + 3) % 4 == 3);
    }
    assert(colors_of(bytes) =~= pixels);
}

/// Writing out the pixels read from whole pixels' worth of bytes gives those
/// bytes.
pub proof fn lemma_rgba_bytes_of_colors(bytes: Seq<u8>)
    requires
        bytes.len() % 4 == 0,
    ensures
        rgba_bytes(colors_of(bytes)) == bytes,
{
    let back = rgba_bytes(colors_of(bytes));
    assert forall|k: int| 0 <= k < bytes.len() implies #[trigger] back[k] == bytes[k] by {
        let i = k / 4;
        assert(k == 4 * i + k % 4);
        assert(channel(colors_of(bytes)[i], k % 4) == bytes[k]);
    }
    assert(back =~= bytes);
}

/// The width, height and RGBA samples that decoding an image file's bytes
/// gives, or `None` where the bytes are not an image that can be read.
pub uninterp spec fn decoded_rgba8(bytes: Seq<u8>) -> Option<(u32, u32, Seq<u8>)>;

/// The bytes of the PNG file that encodes `w` by `h` pixels given as RGBA
/// samples.
pub uninterp spec fn png_encoding(w: u32, h: u32, samples: Seq<u8>) -> Seq<u8>;

/// Relies on `image::load_from_memory`, which guesses the format from the
/// bytes and decodes them; the result is converted with `to_rgba8` and handed
/// out as its width, height and samples. What it gives depends on the bytes
/// alone. `to_rgba8` builds its buffer with `ImageBuffer::new`, which holds
/// exactly four samples per pixel.
#[verifier::external_body]
fn decode_rgba8(bytes: &[u8]) -> (r: Result<(u32, u32, Vec<u8>), image::ImageError>)
    ensures
        r is Ok <==> decoded_rgba8(bytes@) is Some,
        r is Ok ==> decoded_rgba8(bytes@) == Some((r->Ok_0.0, r->Ok_0.1, r->Ok_0.2@)),
        r is Ok ==> r->Ok_0.2@.len() == r->Ok_0.0 * r->Ok_0.1 * 4,
{
    match image::load_from_memory(bytes) {
        Ok(decoded) => {
            let rgba = decoded.to_rgba8();
            let (w, h) = rgba.dimensions();
            Ok((w, h, rgba.into_raw()))
        },
        Err(e) => Err(e),
    }
}

/// Relies on `PngEncoder::write_image` with `ColorType::Rgba8`, which writes
/// a PNG of a `w` by `h` image from four bytes per pixel, with the encoder's
/// default settings; it panics unless there are exactly `w * h * 4` bytes.
/// Writing into a `Vec` cannot fail, and the `png` writer refuses only a zero
/// width or height.
#[verifier::external_body]
fn encode_png_rgba8(w: u32, h: u32, bytes: &[u8]) -> (r: Result<Vec<u8>, image::ImageError>)
    requires
        bytes@.len() == w * h * 4,
    ensures
        r is Ok ==> r->Ok_0@ == png_encoding(w, h, bytes@),
        r is Err ==> w == 0 || h == 0,
{
    let mut out: Vec<u8> = Vec::new();
    let encoder = image::codecs::png::PngEncoder::new(&mut out);
    match encoder.write_image(bytes, w, h, image::ColorType::Rgba8) {
        Ok(()) => Ok(out),
        Err(e) => Err(e),
    }
}

/// A `w` by `h` rectangle at `(x, y)` whose far edges are coordinates and
/// whose pixels, four bytes each, fit in memory.
pub open spec fn placeable(x: int, y: int, w: int, h: int) -> bool {
    x + w <= i32::MAX && y + h <= i32::MAX && w * h * 4 <= usize::MAX
}

impl Layer {
    /// A clean layer at `(x, y)` whose pixels are read from `bytes`, four per
    /// pixel, row by row. Fails with `TooLarge` when the rectangle is not
    /// `placeable`, and otherwise with `Decode` unless there are exactly
    /// `w * h * 4` bytes.
    pub fn from_rgba8(x: i32, y: i32, w: u32, h: u32, bytes: &Vec<u8>) -> (r: Result<Layer, ImageIoError>)
        ensures
            !placeable(x as int, y as int, w as int, h as int) ==> r == Err::<Layer, _>(ImageIoError::TooLarge),
            placeable(x as int, y as int, w as int, h as int) && bytes@.len() != w * h * 4 ==> r == Err::<
                Layer,
                _,
            >(ImageIoError::Decode),
            r is Ok <==> placeable(x as int, y as int, w as int, h as int) && bytes@.len() == w * h * 4,
            r is Ok ==> ({
                let l = r->Ok_0;
                &&& l.wf()
                &&& l.rect == (ImageRect { x, y, w, h })
                &&& l.data@ == colors_of(bytes@)
                &&& l.z_index == 0
                &&& l.dirty_rect == ImageRect::empty()
            }),
    {
        if x as i64 + w as i64 > i32::MAX as i64 || y as i64 + h as i64 > i32::MAX as i64 {
            return Err(ImageIoError::TooLarge);
        }
        assert(w * h <= u64::MAX) by (nonlinear_arith)
            requires
                w <= u32::MAX,
                h <= u32::MAX,
        ;
        let n: u64 = w as u64 * h as u64;
        if n > (usize::MAX / 4) as u64 {
            return Err(ImageIoError::TooLarge);
        }
        if bytes.len() as u64 != n * 4 {
            return Err(ImageIoError::Decode);
        }
        let len = bytes.len();
        let count: usize = n as usize;
        let mut data: Vec<Color> = Vec::new();
        let mut i: usize = 0;
        while i < count
            invariant
                i <= count,
                count * 4 == bytes@.len(),
                bytes@.len() == len,
                data@ == colors_of(bytes@).subrange(0, i as int),
            decreases count - i,
        {
            let k: usize = 4 * i;
            let c = Color { r: bytes[k], g: bytes[k + 1], b: bytes[k + 2], a: bytes[k + 3] };
            data.push(c);
            i += 1;
            assert(data@ =~= colors_of(bytes@).subrange(0, i as int));
        }
        assert(data@ =~= colors_of(bytes@));
        Ok(Layer { rect: ImageRect::new(x, y, w, h), data, z_index: 0, dirty_rect: ImageRect::new(0, 0, 0, 0) })
    }

    /// Decodes an image file's bytes into a clean layer at `(x, y)` sized to
    /// the picture. Fails with `Decode` when the bytes cannot be read as an
    /// image, and with `TooLarge` when the picture is not `placeable` there.
    pub fn from_encoded(x: i32, y: i32, bytes: &[u8]) -> (r: Result<Layer, ImageIoError>)
        ensures
            decoded_rgba8(bytes@) is None ==> r == Err::<Layer, _>(ImageIoError::Decode),
            decoded_rgba8(bytes@) is Some ==> ({
                let (w, h, samples) = decoded_rgba8(bytes@)->0;
                &&& (r is Ok <==> placeable(x as int, y as int, w as int, h as int))
                &&& (!placeable(x as int, y as int, w as int, h as int) ==> r == Err::<Layer, _>(
                    ImageIoError::TooLarge,
                ))
                &&& (r is Ok ==> ({
                    let l = r->Ok_0;
                    &&& l.wf()
                    &&& l.rect == (ImageRect { x, y, w, h })
                    &&& l.data@ == colors_of(samples)
                    &&& l.z_index == 0
                    &&& l.dirty_rect == ImageRect::empty()
                }))
            }),
    {
        match decode_rgba8(bytes) {
            Ok((w, h, samples)) => Layer::from_rgba8(x, y, w, h, &samples),
            Err(_) => Err(ImageIoError::Decode),
        }
    }
}

impl Image {
    /// An image of one layer holding the pixels of `bytes`, four per pixel,
    /// row by row, on a `w` by `h` canvas. Fails as `Layer::from_rgba8` does.
    pub fn from_rgba8(w: u32, h: u32, bytes: &Vec<u8>) -> (r: Result<Image, ImageIoError>)
        ensures
            !placeable(0, 0, w as int, h as int) ==> r == Err::<Image, _>(ImageIoError::TooLarge),
            placeable(0, 0, w as int, h as int) && bytes@.len() != w * h * 4 ==> r == Err::<Image, _>(
                ImageIoError::Decode,
            ),
            r is Ok <==> placeable(0, 0, w as int, h as int) && bytes@.len() == w * h * 4,
            r is Ok ==> ({
                let img = r->Ok_0;
                &&& img.wf()
                &&& img.rect == (ImageRect { x: 0, y: 0, w, h })
                &&& img.layers@.len() == 1
                &&& img.layers@[0].rect == img.rect
                &&& img.layers@[0].data@ == colors_of(bytes@)
                &&& img.layers@[0].z_index == 0
                &&& img.layers@[0].dirty_rect == ImageRect::empty()
            }),
    {
        let layer = Layer::from_rgba8(0, 0, w, h, bytes)?;
        let rect = layer.rect;
        let mut layers: Vec<Layer> = Vec::new();
        layers.push(layer);
        Ok(Image { rect, layers })
    }

    /// Decodes an image file's bytes into an image of one layer, the canvas
    /// sized to the picture. Fails as `Layer::from_encoded` does at `(0, 0)`.
    pub fn from_encoded(bytes: &[u8]) -> (r: Result<Image, ImageIoError>)
        ensures
            decoded_rgba8(bytes@) is None ==> r == Err::<Image, _>(ImageIoError::Decode),
            decoded_rgba8(bytes@) is Some ==> ({
                let (w, h, samples) = decoded_rgba8(bytes@)->0;
                &&& (r is Ok <==> placeable(0, 0, w as int, h as int))
                &&& (!placeable(0, 0, w as int, h as int) ==> r == Err::<Image, _>(
                    ImageIoError::TooLarge,
                ))
                &&& (r is Ok ==> ({
                    let img = r->Ok_0;
                    &&& img.wf()
                    &&& img.rect == (ImageRect { x: 0, y: 0, w, h })
                    &&& img.layers@.len() == 1
                    &&& img.layers@[0].rect == img.rect
                    &&& img.layers@[0].data@ == colors_of(samples)
                    &&& img.layers@[0].z_index == 0
                    &&& img.layers@[0].dirty_rect == ImageRect::empty()
                }))
            }),
    {
        match decode_rgba8(bytes) {
            Ok((w, h, samples)) => Image::from_rgba8(w, h, &samples),
            Err(_) => Err(ImageIoError::Decode),
        }
    }

    /// The composited canvas, `raw_data`, encoded as a PNG file. A canvas
    /// with pixels always encodes; an empty one may fail with `Encode`.
    pub fn encode_png(&self) -> (r: Result<Vec<u8>, ImageIoError>)
        requires
            self.wf(),
        ensures
            r is Err ==> r == Err::<Vec<u8>, _>(ImageIoError::Encode),
            self.rect.w > 0 && self.rect.h > 0 ==> r is Ok,
            r is Ok ==> r->Ok_0@ == png_encoding(
                self.rect.w,
                self.rect.h,
                rgba_bytes(self.area_pixels(self.rect, self.rect)),
            ),
    {
        let raw = self.raw_data();
        assert(raw@.len() == self.rect.w * self.rect.h * 4);
        match encode_png_rgba8(self.rect.w, self.rect.h, raw.as_slice()) {
            Ok(out) => Ok(out),
            Err(_) => Err(ImageIoError::Encode),
        }
    }
}

} // verus!
