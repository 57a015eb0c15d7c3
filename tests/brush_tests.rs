use pixel_editor::{Color, ImageRect, Layer};

fn red() -> Color {
    Color::new(255, 0, 0, 255)
}

#[test]
fn brush_dab_paints_a_disc() {
    let mut l = Layer::with_color(ImageRect::new(0, 0, 30, 30), Color::transparent());
    l.paint_brush(15, 15, 15, 15, red());
    for y in 0..30 {
        for x in 0..30 {
            let (dx, dy) = (x - 15, y - 15);
            let want = if dx * dx + dy * dy < 100 { red() } else { Color::transparent() };
            assert_eq!(l.get_pixel(x, y), Some(want), "pixel {} {}", x, y);
        }
    }
    assert_eq!((l.dirty_rect.x, l.dirty_rect.y, l.dirty_rect.w, l.dirty_rect.h), (5, 5, 21, 21));
}

#[test]
fn brush_stroke_covers_the_swept_band() {
    let mut l = Layer::with_color(ImageRect::new(0, 0, 40, 30), Color::transparent());
    l.paint_brush(10, 15, 25, 15, red());
    assert_eq!(l.get_pixel(10, 6), Some(red()));
    assert_eq!(l.get_pixel(18, 24), Some(red()));
    assert_eq!(l.get_pixel(34, 15), Some(red()));
    assert_eq!(l.get_pixel(35, 15), Some(Color::transparent()));
    assert_eq!(l.get_pixel(18, 25), Some(Color::transparent()));
    assert_eq!((l.dirty_rect.x, l.dirty_rect.y, l.dirty_rect.w, l.dirty_rect.h), (0, 5, 36, 21));
}

#[test]
fn spray_paints_offsets_inside_the_disc() {
    let mut l = Layer::with_color(ImageRect::new(0, 0, 100, 100), Color::transparent());
    let offsets = vec![(0, 0), (60, 0), (3, -4), (49, 0), (50, 0), (-200, 5)];
    l.spray(10, 10, &offsets, red());
    let painted: Vec<(i32, i32)> = (0..10000)
        .map(|k| (k % 100, k / 100))
        .filter(|&(x, y)| l.get_pixel(x, y) == Some(red()))
        .collect();
    assert_eq!(painted, vec![(13, 6), (10, 10), (59, 10)]);
    assert_eq!((l.dirty_rect.x, l.dirty_rect.y, l.dirty_rect.w, l.dirty_rect.h), (-41, -41, 102, 102));
}
