use spatial_hash::geometry::{
    intersect_aabb_aabb, intersect_aabb_circle, intersect_circle_circle, intersects, AabbShape,
    CircleShape, Point, Shape,
};

fn pt(x: i32, y: i32) -> Point {
    Point { x, y }
}

fn circle(x: i32, y: i32, radius: i32) -> CircleShape {
    CircleShape { center: pt(x, y), radius }
}

fn aabb(x0: i32, y0: i32, x1: i32, y1: i32) -> AabbShape {
    AabbShape { min: pt(x0, y0), max: pt(x1, y1) }
}

#[test]
fn circle_bounding_rect_spans_radius() {
    let r = circle(3, -4, 2).bounding_rect();
    assert_eq!(r, aabb(1, -6, 5, -2));
}

#[test]
fn shape_bounding_rect_of_box_is_itself() {
    let b = aabb(-1, 2, 7, 9);
    assert_eq!(Shape::Aabb(b).bounding_rect(), b);
    assert_eq!(Shape::Circle(circle(0, 0, 5)).bounding_rect(), aabb(-5, -5, 5, 5));
}

#[test]
fn as_circle_and_as_aabb_return_the_held_shape() {
    let c = circle(1, 1, 1);
    let b = aabb(0, 0, 1, 1);
    assert_eq!(*Shape::Circle(c).as_circle(), c);
    assert_eq!(*Shape::Aabb(b).as_aabb(), b);
}

#[test]
fn circles_touching_meet_and_apart_do_not() {
    // centres 5 apart, radii 2 and 3: touching
    assert!(intersect_circle_circle(&circle(0, 0, 2), &circle(3, 4, 3)));
    assert!(!intersect_circle_circle(&circle(0, 0, 2), &circle(3, 4, 2)));
}

#[test]
fn boxes_meet_on_shared_border_only_when_overlapping_on_both_axes() {
    assert!(intersect_aabb_aabb(&aabb(0, 0, 2, 2), &aabb(2, 2, 4, 4)));
    assert!(!intersect_aabb_aabb(&aabb(0, 0, 2, 2), &aabb(3, 0, 4, 2)));
    assert!(!intersect_aabb_aabb(&aabb(0, 0, 2, 2), &aabb(0, 3, 2, 4)));
    assert!(intersect_aabb_aabb(&aabb(-5, -5, 5, 5), &aabb(-1, -1, 1, 1)));
}

#[test]
fn box_and_circle_use_the_nearest_point_of_the_box() {
    // nearest corner (2, 2) is at distance sqrt(8) from (4, 4)
    assert!(!intersect_aabb_circle(&aabb(0, 0, 2, 2), &circle(4, 4, 2)));
    assert!(intersect_aabb_circle(&aabb(0, 0, 2, 2), &circle(4, 4, 3)));
    // centre inside the box
    assert!(intersect_aabb_circle(&aabb(0, 0, 10, 10), &circle(5, 5, 0)));
    // touching a side
    assert!(intersect_aabb_circle(&aabb(0, 0, 2, 2), &circle(5, 1, 3)));
}

#[test]
fn extreme_coordinates_do_not_overflow() {
    let a = circle(i32::MIN + 10, i32::MIN + 10, 10);
    let b = circle(i32::MAX - 10, i32::MAX - 10, 10);
    assert!(!intersect_circle_circle(&a, &b));
    assert!(!intersect_aabb_circle(&aabb(i32::MIN, i32::MIN, i32::MIN, i32::MIN), &b));
}

#[test]
fn intersection_is_symmetric_on_samples() {
    let shapes = [
        Shape::Circle(circle(0, 0, 2)),
        Shape::Circle(circle(3, 3, 2)),
        Shape::Aabb(aabb(1, 1, 4, 4)),
        Shape::Aabb(aabb(10, 10, 12, 12)),
        Shape::Circle(circle(13, 13, 1)),
    ];
    for a in shapes.iter() {
        for b in shapes.iter() {
            assert_eq!(intersects(a, b), intersects(b, a));
        }
    }
    assert!(intersects(&shapes[1], &shapes[2]));
    assert!(!intersects(&shapes[0], &shapes[3]));
}
