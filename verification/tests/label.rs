use protomaps2d::label::Collider;

#[test]
fn test_one() {
    let mut c = Collider { bboxes: Vec::new() };
    assert!(c.add((1, 1), (3, 3)));
    assert!(!c.add((2, 2), (4, 4)));
}

#[test]
fn test_no_collision() {
    let mut c = Collider { bboxes: Vec::new() };
    assert!(c.add((3, 3), (4, 4)));

    // to the left
    assert!(c.add((1, 3), (2, 4)));

    // to the right
    assert!(c.add((5, 3), (6, 4)));

    // to the top
    assert!(c.add((3, 1), (4, 2)));

    // to the bottom
    assert!(c.add((3, 5), (4, 6)));
}

#[test]
fn refused_box_leaves_collider_unchanged() {
    let mut c = Collider { bboxes: Vec::new() };
    assert!(c.add((0, 0), (10, 10)));
    assert!(!c.add((5, 5), (20, 20)));
    assert_eq!(c.bboxes, vec![((0, 0), (10, 10))]);
}

#[test]
fn touching_edges_collide() {
    let mut c = Collider { bboxes: Vec::new() };
    assert!(c.add((0, 0), (10, 10)));
    // shares the right edge
    assert!(!c.add((10, 0), (20, 10)));
    // shares only the bottom-right corner
    assert!(!c.add((10, 10), (20, 20)));
    // one unit to the right is clear
    assert!(c.add((11, 0), (20, 10)));
    assert_eq!(c.bboxes.len(), 2);
}

#[test]
fn accepted_box_is_refused_again() {
    let mut c = Collider { bboxes: Vec::new() };
    assert!(c.add((-5, -5), (5, 5)));
    assert!(!c.add((-5, -5), (5, 5)));
    // a box containing the accepted one is refused too
    assert!(!c.add((-100, -100), (100, 100)));
}

#[test]
fn empty_collider_accepts_anything() {
    let mut c = Collider { bboxes: Vec::new() };
    assert!(c.add((i64::MIN, i64::MIN), (i64::MAX, i64::MAX)));
    assert_eq!(c.bboxes.len(), 1);
}
