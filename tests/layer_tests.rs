use pixel_editor::{Color, ImageRect, Layer};

fn red() -> Color {
    Color::new(255, 0, 0, 255)
}

fn rect_tuple(r: ImageRect) -> (i32, i32, u32, u32) {
    (r.x, r.y, r.w, r.h)
}

fn transparent_layer(w: u32, h: u32) -> Layer {
    Layer::with_color(ImageRect::new(0, 0, w, h), Color::transparent())
}

#[test]
fn new_layer_is_white_and_clean() {
    let l = Layer::new(ImageRect::new(2, 3, 3, 2));
    assert_eq!(l.data.len(), 6);
    assert!(l.data.iter().all(|c| *c == Color::white()));
    assert!(l.dirty_rect.is_empty_rect());
    assert_eq!(l.z_index, 0);
}

#[test]
fn get_pixel_outside_is_none() {
    let l = Layer::new(ImageRect::new(0, 0, 4, 3));
    assert_eq!(l.get_pixel(0, 0), Some(Color::white()));
    assert_eq!(l.get_pixel(3, 2), Some(Color::white()));
    assert_eq!(l.get_pixel(4, 0), None);
    assert_eq!(l.get_pixel(0, 3), None);
    assert_eq!(l.get_pixel(-1, 1), None);
    assert_eq!(l.get_pixel(1, -1), None);
    assert!(l.contains_point(3, 2));
    assert!(!l.contains_point(-1, 0));
}

#[test]
fn draw_pixel_outside_changes_nothing() {
    let mut l = Layer::new(ImageRect::new(0, 0, 4, 3));
    let before = l.data.clone();
    l.draw_pixel(4, 0, red());
    l.draw_pixel(-1, 2, red());
    l.draw_pixel(0, 3, red());
    l.draw_pixel(i32::MIN, i32::MAX, red());
    assert_eq!(l.data, before);
    l.draw_pixel(1, 2, red());
    assert_eq!(l.get_pixel(1, 2), Some(red()));
    assert_eq!(l.data[2 * 4 + 1], red());
    l.draw_pixel_unchecked(3, 0, Color::black());
    assert_eq!(l.get_pixel_unchecked(3, 0), Color::black());
}

#[test]
fn fill_white_layer_with_black() {
    let mut l = Layer::new(ImageRect::new(0, 0, 4, 4));
    l.fill(0, 0, Color::black());
    assert_eq!(l.data.len(), 16);
    assert!(l.data.iter().all(|c| *c == Color::black()));
    assert_eq!(rect_tuple(l.dirty_rect), (0, 0, 4, 4));
    let data = l.data.clone();
    let dirty = l.dirty_rect;
    l.fill(0, 0, Color::black());
    assert_eq!(l.data, data);
    assert_eq!(dirty, l.dirty_rect);
}

#[test]
fn fill_with_same_color_changes_nothing() {
    let mut l = Layer::new(ImageRect::new(0, 0, 3, 3));
    l.draw_pixel(1, 1, red());
    let before = l.data.clone();
    l.fill(1, 1, red());
    assert_eq!(l.data, before);
    assert!(l.dirty_rect.is_empty_rect());
    l.fill(5, 5, Color::black());
    assert_eq!(l.data, before);
    assert!(l.dirty_rect.is_empty_rect());
}

#[test]
fn fill_stops_at_other_colors() {
    // A black wall at x = 2 splits a white 5x5 layer.
    let mut l = Layer::new(ImageRect::new(0, 0, 5, 5));
    for y in 0..5 {
        l.draw_pixel(2, y, Color::black());
    }
    l.fill(0, 4, red());
    for y in 0..5 {
        for x in 0..5 {
            let want = if x < 2 {
                red()
            } else if x == 2 {
                Color::black()
            } else {
                Color::white()
            };
            assert_eq!(l.get_pixel(x, y), Some(want), "pixel {} {}", x, y);
        }
    }
    assert_eq!(rect_tuple(l.dirty_rect), (0, 0, 2, 5));
}

#[test]
fn fill_marks_bounding_box_on_canvas() {
    let mut l = Layer::with_color(ImageRect::new(10, 20, 6, 6), Color::transparent());
    for x in 0..6 {
        l.draw_pixel(x, 3, Color::black());
    }
    for y in 0..3 {
        l.draw_pixel(2, y, Color::black());
    }
    l.fill(4, 1, red());
    assert_eq!(l.get_pixel(3, 0), Some(red()));
    assert_eq!(l.get_pixel(5, 2), Some(red()));
    assert_eq!(l.get_pixel(1, 1), Some(Color::transparent()));
    assert_eq!(l.get_pixel(4, 4), Some(Color::transparent()));
    assert_eq!(rect_tuple(l.dirty_rect), (13, 20, 3, 3));
}

#[test]
fn fill_is_four_connected() {
    // Diagonal neighbours are not reached.
    let mut l = Layer::new(ImageRect::new(0, 0, 3, 3));
    l.draw_pixel(1, 0, Color::black());
    l.draw_pixel(0, 1, Color::black());
    l.fill(0, 0, red());
    assert_eq!(l.get_pixel(0, 0), Some(red()));
    assert_eq!(l.get_pixel(1, 1), Some(Color::white()));
    assert_eq!(l.get_pixel(2, 2), Some(Color::white()));
}

#[test]
fn draw_line_horizontal() {
    let mut l = transparent_layer(4, 4);
    l.draw_line(0, 0, 3, 0, red());
    for y in 0..4 {
        for x in 0..4 {
            let want = if y == 0 { red() } else { Color::transparent() };
            assert_eq!(l.get_pixel(x, y), Some(want));
        }
    }
    assert_eq!(rect_tuple(l.dirty_rect), (-1, -1, 6, 3));
}

#[test]
fn draw_line_rounds_steps() {
    let mut l = transparent_layer(4, 4);
    l.draw_line(0, 0, 3, 1, red());
    let painted: Vec<(i32, i32)> = (0..16)
        .map(|k| (k % 4, k / 4))
        .filter(|&(x, y)| l.get_pixel(x, y) == Some(red()))
        .collect();
    assert_eq!(painted, vec![(0, 0), (1, 0), (2, 1), (3, 1)]);
    assert_eq!(rect_tuple(l.dirty_rect), (-1, -1, 6, 4));
}

#[test]
fn draw_line_rounds_halves_away_from_zero() {
    let mut l = transparent_layer(3, 3);
    l.draw_line(0, 0, 2, 1, red());
    assert_eq!(l.get_pixel(1, 1), Some(red()));
    assert_eq!(l.get_pixel(1, 0), Some(Color::transparent()));
    let mut m = transparent_layer(3, 3);
    m.draw_line(0, 2, 2, 1, red());
    // 2 - 0.5 rounds to 2.
    assert_eq!(m.get_pixel(1, 2), Some(red()));
    assert_eq!(m.get_pixel(1, 1), Some(Color::transparent()));
}

#[test]
fn draw_line_point_and_outside() {
    let mut l = transparent_layer(3, 3);
    l.draw_line(1, 1, 1, 1, red());
    assert_eq!(l.get_pixel(1, 1), Some(red()));
    assert_eq!(rect_tuple(l.dirty_rect), (0, 0, 3, 3));
    let mut m = transparent_layer(3, 3);
    m.draw_line(-5, 1, 5, 1, red());
    for x in 0..3 {
        assert_eq!(m.get_pixel(x, 1), Some(red()));
    }
    assert_eq!(m.get_pixel(0, 0), Some(Color::transparent()));
}

#[test]
fn draw_line_dirty_rect_in_canvas_coordinates() {
    let mut l = Layer::with_color(ImageRect::new(10, 20, 4, 4), Color::transparent());
    l.draw_line(0, 0, 0, 2, red());
    assert_eq!(rect_tuple(l.dirty_rect), (9, 19, 3, 5));
}

#[test]
fn dirty_rect_grows_and_clears() {
    let mut l = Layer::new(ImageRect::new(0, 0, 8, 8));
    l.add_dirty_rect(ImageRect::new(1, 1, 2, 2));
    l.add_dirty_rect(ImageRect::new(5, 0, 1, 1));
    assert_eq!(rect_tuple(l.dirty_rect), (1, 0, 5, 3));
    l.clear_dirty_rect();
    assert!(l.dirty_rect.is_empty_rect());
}

#[test]
fn clear_makes_transparent_and_dirty() {
    let mut l = Layer::new(ImageRect::new(1, 1, 2, 2));
    l.clear();
    assert!(l.data.iter().all(|c| *c == Color::transparent()));
    assert_eq!(rect_tuple(l.dirty_rect), (1, 1, 2, 2));
}

#[test]
fn copy_is_independent() {
    let mut l = Layer::new(ImageRect::new(0, 0, 2, 2));
    let c = l.copy();
    l.draw_pixel(0, 0, red());
    assert_eq!(c.get_pixel(0, 0), Some(Color::white()));
    assert_eq!(l.get_pixel(0, 0), Some(red()));
}

#[test]
fn blend_transparent_layer_changes_nothing() {
    let mut base = Layer::new(ImageRect::new(0, 0, 3, 3));
    base.draw_pixel(1, 1, red());
    base.add_dirty_rect(ImageRect::new(0, 0, 3, 3));
    let top = transparent_layer(3, 3);
    let before = base.data.clone();
    assert!(base.blend(&top, ImageRect::new(0, 0, 3, 3)));
    assert_eq!(base.data, before);
}

#[test]
fn blend_opaque_layer_replaces_region() {
    let mut base = Layer::new(ImageRect::new(0, 0, 4, 4));
    let mut top = Layer::with_color(ImageRect::new(1, 1, 2, 2), red());
    top.add_dirty_rect(ImageRect::new(1, 1, 2, 2));
    assert!(base.blend(&top, ImageRect::new(0, 0, 4, 4)));
    for y in 0..4 {
        for x in 0..4 {
            let inside = (1..3).contains(&x) && (1..3).contains(&y);
            let want = if inside { red() } else { Color::white() };
            assert_eq!(base.get_pixel(x, y), Some(want));
        }
    }
}

#[test]
fn blend_is_clipped() {
    let mut base = Layer::new(ImageRect::new(0, 0, 4, 4));
    let mut top = Layer::with_color(ImageRect::new(0, 0, 4, 4), red());
    top.add_dirty_rect(ImageRect::new(0, 0, 4, 4));
    assert!(base.blend(&top, ImageRect::new(0, 0, 1, 4)));
    assert_eq!(base.get_pixel(0, 3), Some(red()));
    assert_eq!(base.get_pixel(1, 0), Some(Color::white()));
    assert!(!base.blend(&top, ImageRect::new(10, 10, 1, 1)));
}

#[test]
fn blend_without_dirty_region_is_refused() {
    let mut base = Layer::new(ImageRect::new(0, 0, 2, 2));
    let top = Layer::with_color(ImageRect::new(0, 0, 2, 2), red());
    assert!(!base.blend(&top, ImageRect::new(0, 0, 2, 2)));
    assert_eq!(base.get_pixel(0, 0), Some(Color::white()));
}

#[test]
fn blend_partial_alpha_mixes_each_channel() {
    let mut base = Layer::new(ImageRect::new(0, 0, 1, 1));
    let mut top = Layer::with_color(ImageRect::new(0, 0, 1, 1), Color::new(0, 0, 0, 128));
    top.add_dirty_rect(ImageRect::new(0, 0, 1, 1));
    assert!(base.blend(&top, ImageRect::new(0, 0, 1, 1)));
    assert_eq!(base.get_pixel(0, 0), Some(Color::new(128, 128, 128, 191)));
    let mixed = pixel_editor::layer::blend_color(Color::new(10, 20, 30, 100), Color::new(200, 100, 50, 50));
    // a1 = 12750, factor = 100 * 205 = 20500, sum = 33250
    assert_eq!(mixed, Color::new(127, 69, 42, 69));
}

#[test]
fn blend_matches_canvas_positions() {
    let mut base = Layer::new(ImageRect::new(0, 0, 4, 1));
    let mut top = Layer::with_color(ImageRect::new(2, 0, 2, 1), Color::transparent());
    top.draw_pixel(0, 0, red());
    top.add_dirty_rect(ImageRect::new(2, 0, 2, 1));
    assert!(base.blend(&top, ImageRect::new(0, 0, 4, 1)));
    assert_eq!(base.get_pixel(2, 0), Some(red()));
    assert_eq!(base.get_pixel(3, 0), Some(Color::white()));
    assert_eq!(base.get_pixel(0, 0), Some(Color::white()));
}
