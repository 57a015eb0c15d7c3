use pixel_editor::{Color, Image, ImageHistory};

fn marked(v: u8) -> Image {
    let mut img = Image::new(1, 1);
    img.layers[0].draw_pixel(0, 0, Color::new(v, v, v, 255));
    img
}

fn mark(img: &Image) -> u8 {
    img.layers[0].get_pixel(0, 0).unwrap().r
}

#[test]
fn history_round_trip() {
    let mut h = ImageHistory::new();
    assert_eq!(h.cursor(), -1);
    let mut current = marked(1);
    for v in 1..=4u8 {
        current = marked(v);
        current.take_snapshot(&mut h);
    }
    assert_eq!(h.snapshot_count(), 4);
    assert_eq!(h.cursor(), 3);
    for _ in 0..3 {
        current.undo(&mut h);
    }
    assert_eq!(mark(&current), 1);
    assert!(!h.can_undo());
    current.undo(&mut h);
    assert_eq!(mark(&current), 1);
    assert_eq!(h.cursor(), 0);
    for _ in 0..3 {
        current.redo(&mut h);
    }
    assert_eq!(mark(&current), 4);
    assert!(!h.can_redo());
    current.redo(&mut h);
    assert_eq!(mark(&current), 4);
    assert_eq!(h.cursor(), 3);
}

#[test]
fn undo_at_start_returns_current() {
    let mut h = ImageHistory::new();
    let current = marked(9);
    let back = h.undo(&current);
    assert_eq!(mark(&back), 9);
    let fwd = h.redo(&current);
    assert_eq!(mark(&fwd), 9);
    assert_eq!(h.cursor(), -1);
}

#[test]
fn new_snapshot_discards_redo_branch() {
    let mut h = ImageHistory::new();
    for v in 1..=4u8 {
        h.take_snapshot(&marked(v));
    }
    let mut current = marked(4);
    current.undo(&mut h);
    current.undo(&mut h);
    assert_eq!(mark(&current), 2);
    let edited = marked(7);
    edited.take_snapshot(&mut h);
    assert_eq!(h.snapshot_count(), 3);
    assert!(!h.can_redo());
    let mut now = edited.copy();
    now.redo(&mut h);
    assert_eq!(mark(&now), 7);
    now.redo(&mut h);
    assert_eq!(mark(&now), 7);
    now.undo(&mut h);
    assert_eq!(mark(&now), 2);
}

#[test]
fn snapshots_are_copies() {
    let mut h = ImageHistory::new();
    let mut img = marked(5);
    img.take_snapshot(&mut h);
    img.layers[0].draw_pixel(0, 0, Color::black());
    img.take_snapshot(&mut h);
    let back = h.undo(&img);
    assert_eq!(mark(&back), 5);
}

#[test]
fn reset_keeps_one_snapshot() {
    let mut h = ImageHistory::new();
    for v in 1..=3u8 {
        h.take_snapshot(&marked(v));
    }
    h.reset(&marked(8));
    assert_eq!(h.snapshot_count(), 1);
    assert_eq!(h.cursor(), 0);
    let current = marked(3);
    assert_eq!(mark(&h.undo(&current)), 3);
    assert_eq!(mark(&h.redo(&current)), 3);
}
