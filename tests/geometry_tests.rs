use pixel_editor::{ImageRect, Point, Rect};

fn same(a: ImageRect, b: ImageRect) -> bool {
    a.x == b.x && a.y == b.y && a.w == b.w && a.h == b.h
}

#[test]
fn union_with_empty_is_identity() {
    let r = ImageRect::new(3, -2, 5, 7);
    let empty = ImageRect::new(0, 0, 0, 0);
    assert!(same(r.union(empty), r));
    assert!(same(empty.union(r), r));
    let empty_elsewhere = ImageRect::new(100, 100, 0, 4);
    assert!(same(r.union(empty_elsewhere), r));
}

#[test]
fn union_is_commutative_and_associative() {
    let a = ImageRect::new(0, 0, 2, 2);
    let b = ImageRect::new(5, -3, 1, 4);
    let c = ImageRect::new(-4, 6, 3, 1);
    assert!(same(a.union(b), b.union(a)));
    assert!(same(a.union(b).union(c), a.union(b.union(c))));
    assert!(same(a.union(b), ImageRect::new(0, -3, 6, 5)));
    assert!(same(a.union(b).union(c), ImageRect::new(-4, -3, 10, 10)));
}

#[test]
fn intersection_of_overlapping_rects() {
    let a = ImageRect::new(0, 0, 4, 4);
    let b = ImageRect::new(2, 1, 5, 2);
    assert!(a.has_intersection(b));
    assert!(same(a.intersection(b), ImageRect::new(2, 1, 2, 2)));
}

#[test]
fn intersection_of_disjoint_rects_is_empty_at_origin() {
    let a = ImageRect::new(0, 0, 4, 4);
    let b = ImageRect::new(10, 10, 2, 2);
    assert!(!a.has_intersection(b));
    assert!(same(a.intersection(b), ImageRect::new(0, 0, 0, 0)));
    let touching = ImageRect::new(4, 0, 2, 2);
    assert!(a.has_intersection(touching));
    assert!(same(a.intersection(touching), ImageRect::new(0, 0, 0, 0)));
}

#[test]
fn contains_is_half_open() {
    let r = ImageRect::new(-1, 2, 3, 2);
    assert!(r.contains(-1, 2));
    assert!(r.contains(1, 3));
    assert!(!r.contains(2, 3));
    assert!(!r.contains(0, 4));
    assert!(!r.contains(-2, 2));
    assert!(r.is_empty_rect() == false);
    assert!(ImageRect::new(0, 0, 0, 3).is_empty_rect());
}

#[test]
fn rect_behaves_as_image_rect() {
    let a = Rect::new(0, 0, 4, 4);
    let b = Rect::new(2, 2, 4, 4);
    let u = a.union(b);
    assert_eq!((u.x, u.y, u.width, u.height), (0, 0, 6, 6));
    let i = a.intersection(b);
    assert_eq!((i.x, i.y, i.width, i.height), (2, 2, 2, 2));
    assert!(a.has_intersection(b));
    assert!(a.contains_point(3, 3));
    assert!(!a.contains_point(4, 3));
    let far = Rect::new(9, 9, 1, 1);
    let none = a.intersection(far);
    assert_eq!((none.x, none.y, none.width, none.height), (0, 0, 0, 0));
}

#[test]
fn point_keeps_coordinates() {
    let p = Point::new(-3, 8);
    assert_eq!((p.x, p.y), (-3, 8));
}

#[test]
fn touching_rects_count_as_intersecting() {
    let a = ImageRect::new(0, 0, 2, 2);
    let b = ImageRect::new(2, 0, 2, 2);
    assert!(a.has_intersection(b));
    assert!(b.has_intersection(a));
    assert!(ImageRect::new(2, 2, 1, 1).has_intersection(a));
    assert!(!ImageRect::new(3, 0, 1, 1).has_intersection(a));
    assert!(a.intersection(b).is_empty_rect());
    assert!(Rect::new(0, 0, 2, 2).has_intersection(Rect::new(0, 2, 2, 2)));
}

#[test]
fn union_with_empty_far_away() {
    // An empty operand takes no part in the arithmetic, wherever it lies.
    let empty = ImageRect::new(i32::MAX, i32::MAX, 0, 7);
    let r = ImageRect::new(1, 2, 3, 4);
    assert!(same(r.union(empty), r));
    assert!(same(empty.union(r), r));
}
