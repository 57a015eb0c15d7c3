use pixel_editor::{Color, Image, ImageRect};

fn red() -> Color {
    Color::new(255, 0, 0, 255)
}

fn rect_tuple(r: ImageRect) -> (i32, i32, u32, u32) {
    (r.x, r.y, r.w, r.h)
}

#[test]
fn new_image_is_one_white_layer() {
    let img = Image::new(3, 2);
    assert_eq!(img.layers.len(), 1);
    assert_eq!(rect_tuple(img.rect), (0, 0, 3, 2));
    let raw = img.raw_data();
    assert_eq!(raw.len(), 3 * 2 * 4);
    assert!(raw.iter().all(|b| *b == 255));
}

#[test]
fn add_and_remove_layers() {
    let mut img = Image::new(2, 2);
    img.add_layer();
    assert_eq!(img.layers.len(), 2);
    assert!(img.layers[1].data.iter().all(|c| *c == Color::transparent()));
    assert_eq!(rect_tuple(img.layers[1].rect), (0, 0, 2, 2));
    img.remove_layer();
    assert_eq!(img.layers.len(), 1);
    img.remove_layer();
    assert_eq!(img.layers.len(), 1);
}

#[test]
fn composite_is_bottom_to_top() {
    let mut img = Image::new(2, 1);
    img.layers[0].draw_pixel(0, 0, red());
    img.add_layer();
    img.layers[1].draw_pixel(1, 0, Color::new(0, 0, 255, 255));
    let out = img.blend(img.rect);
    assert_eq!(out.get_pixel(0, 0), Some(red()));
    assert_eq!(out.get_pixel(1, 0), Some(Color::new(0, 0, 255, 255)));
    assert!(out.dirty_rect.is_empty_rect());
    let raw = img.raw_data();
    assert_eq!(raw, vec![255, 0, 0, 255, 0, 0, 255, 255]);
}

#[test]
fn blend_respects_clip() {
    let mut img = Image::new(2, 1);
    img.layers[0].draw_pixel(0, 0, red());
    img.layers[0].draw_pixel(1, 0, red());
    let out = img.blend(ImageRect::new(1, 0, 1, 1));
    assert_eq!(out.get_pixel(0, 0), Some(Color::white()));
    assert_eq!(out.get_pixel(1, 0), Some(red()));
}

#[test]
fn partial_data_is_sized_to_rect() {
    let mut img = Image::new(3, 3);
    img.layers[0].draw_pixel(1, 1, red());
    let part = img.partial_data(ImageRect::new(1, 1, 2, 1));
    assert_eq!(part, vec![255, 0, 0, 255, 255, 255, 255, 255]);
    let off = img.partial_data(ImageRect::new(-1, 0, 2, 1));
    assert_eq!(off, vec![0, 0, 0, 0, 255, 255, 255, 255]);
    assert!(img.partial_data(ImageRect::new(0, 0, 0, 5)).is_empty());
}

#[test]
fn dirty_rect_is_union_of_layers() {
    let mut img = Image::new(10, 10);
    img.add_layer();
    img.layers[0].add_dirty_rect(ImageRect::new(1, 1, 1, 1));
    img.layers[1].add_dirty_rect(ImageRect::new(5, 6, 2, 2));
    assert_eq!(rect_tuple(img.dirty_rect()), (1, 1, 6, 7));
    img.clear_dirty();
    assert!(img.dirty_rect().is_empty_rect());
    assert!(img.layers[0].dirty_rect.is_empty_rect());
    assert!(img.layers[1].dirty_rect.is_empty_rect());
}

#[test]
fn fill_then_dirty_region_refreshes() {
    let mut img = Image::new(4, 4);
    img.add_layer();
    img.layers[1].fill(0, 0, red());
    assert_eq!(rect_tuple(img.dirty_rect()), (0, 0, 4, 4));
    let part = img.partial_data(img.dirty_rect());
    assert_eq!(part.len(), 64);
    assert!(part.chunks(4).all(|p| p == [255, 0, 0, 255]));
}

#[test]
fn image_copy_is_deep() {
    let mut img = Image::new(2, 2);
    let copy = img.copy();
    img.layers[0].draw_pixel(0, 0, red());
    assert_eq!(copy.layers[0].get_pixel(0, 0), Some(Color::white()));
}

#[test]
fn translucent_layer_over_opaque_layer() {
    let mut img = Image::new(1, 1);
    img.add_layer();
    img.layers[1].draw_pixel(0, 0, red());
    img.add_layer();
    img.layers[2].draw_pixel(0, 0, Color::new(0, 0, 0, 128));
    assert_eq!(img.raw_data(), vec![128, 0, 0, 191]);
    img.layers[2].draw_pixel(0, 0, Color::transparent());
    assert_eq!(img.raw_data(), vec![255, 0, 0, 255]);
}
