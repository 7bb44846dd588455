use fxhash::FxHashSet;
use spatial_hash::geometry::{AabbShape, CircleShape, Point, Shape};
use spatial_hash::grid::{SpatialHash, SpatialQuery, SpatialUserData};

fn circle(x: i32, y: i32, radius: i32) -> Shape {
    Shape::Circle(CircleShape { center: Point { x, y }, radius })
}

fn aabb(x0: i32, y0: i32, x1: i32, y1: i32) -> Shape {
    Shape::Aabb(AabbShape { min: Point { x: x0, y: y0 }, max: Point { x: x1, y: y1 } })
}

fn tag(entity_type: u32, entity_id: u32) -> SpatialUserData {
    SpatialUserData { entity_type, entity_id }
}

fn run(grid: &SpatialHash, shape: Shape) -> FxHashSet<u32> {
    let mut out = FxHashSet::default();
    grid.query(SpatialQuery::ShapeQuery(shape), &mut out);
    out
}

fn ids(items: &[SpatialUserData]) -> FxHashSet<u32> {
    items.iter().map(|d| d.linearize()).collect()
}

#[test]
fn scenario_two_shapes_default_cell_size() {
    let mut grid = SpatialHash::new();
    grid.add_shape(circle(0, 0, 2), tag(1, 7));
    grid.add_shape(aabb(100, 100, 104, 104), tag(1, 8));
    assert_eq!(run(&grid, circle(0, 0, 2)), ids(&[tag(1, 7)]));
    assert_eq!(run(&grid, aabb(99, 99, 105, 105)), ids(&[tag(1, 8)]));
    assert!(run(&grid, circle(1000, 1000, 1)).is_empty());
}

#[test]
fn straddling_shape_found_from_either_side_once() {
    let mut grid = SpatialHash::new();
    // spans cells x = 0 and x = 1 (border at 15)
    grid.add_shape(aabb(13, 2, 17, 4), tag(2, 1));
    let left = run(&grid, circle(13, 3, 1));
    let right = run(&grid, aabb(16, 3, 20, 5));
    assert_eq!(left, ids(&[tag(2, 1)]));
    assert_eq!(right, ids(&[tag(2, 1)]));
}

#[test]
fn shape_over_many_cells_reported_once() {
    let mut grid = SpatialHash::new();
    // a circle covering 3 x 3 cells around the origin
    grid.add_shape(circle(0, 0, 20), tag(3, 9));
    let out = run(&grid, aabb(-40, -40, 40, 40));
    assert_eq!(out.len(), 1);
    assert!(out.contains(&tag(3, 9).linearize()));
}

#[test]
fn empty_grid_reports_nothing() {
    let grid = SpatialHash::new();
    assert!(run(&grid, circle(0, 0, 100)).is_empty());
    assert!(run(&grid, aabb(-1000, -1000, 1000, 1000)).is_empty());
}

#[test]
fn clear_resets_to_fresh_state() {
    let mut grid = SpatialHash::new();
    for i in 0..20u32 {
        grid.add_shape(circle(i as i32 * 3 - 30, 5, 2), tag(1, i));
    }
    assert_eq!(run(&grid, aabb(-100, -100, 100, 100)).len(), 20);
    grid.clear();
    assert!(run(&grid, aabb(-100, -100, 100, 100)).is_empty());
    grid.add_shape(aabb(0, 0, 1, 1), tag(4, 4));
    assert_eq!(run(&grid, aabb(0, 0, 1, 1)), ids(&[tag(4, 4)]));
}

#[test]
fn query_clears_previous_output() {
    let mut grid = SpatialHash::new();
    grid.add_shape(circle(0, 0, 2), tag(1, 1));
    let mut out = FxHashSet::default();
    out.insert(12345u32);
    grid.query(SpatialQuery::ShapeQuery(circle(500, 500, 1)), &mut out);
    assert!(out.is_empty());
    grid.query(SpatialQuery::ShapeQuery(circle(1, 1, 1)), &mut out);
    assert_eq!(out, ids(&[tag(1, 1)]));
}

#[test]
fn candidates_in_cell_but_not_touching_are_dropped() {
    let mut grid = SpatialHash::new();
    grid.add_shape(circle(1, 1, 1), tag(1, 1));
    grid.add_shape(aabb(10, 10, 12, 12), tag(1, 2));
    // same cell (0, 0) as both, touching neither
    assert!(run(&grid, circle(6, 6, 1)).is_empty());
    assert_eq!(run(&grid, circle(9, 9, 2)), ids(&[tag(1, 2)]));
}

#[test]
fn negative_coordinates_use_floor_cells() {
    let mut grid = SpatialHash::new();
    // cells x in [-2, -1): floor(-20 / 15) = -2, ceil(-16 / 15) = -1
    grid.add_shape(aabb(-20, -20, -16, -16), tag(5, 5));
    assert_eq!(run(&grid, circle(-17, -17, 1)), ids(&[tag(5, 5)]));
    assert!(run(&grid, circle(-10, -10, 1)).is_empty());
}

#[test]
fn point_box_on_cell_border_takes_no_cell() {
    let mut grid = SpatialHash::new();
    // min and max both at 15: floor 1, ceil 1, an empty cell range
    grid.add_shape(aabb(15, 15, 15, 15), tag(6, 6));
    assert!(run(&grid, aabb(0, 0, 30, 30)).is_empty());
}

#[test]
fn many_payloads_deduplicated_across_cells() {
    let mut grid = SpatialHash::new();
    grid.add_shape(aabb(-16, -16, 16, 16), tag(1, 1));
    grid.add_shape(circle(0, 0, 16), tag(1, 2));
    grid.add_shape(circle(0, 0, 16), tag(1, 2));
    let out = run(&grid, aabb(-30, -30, 30, 30));
    assert_eq!(out, ids(&[tag(1, 1), tag(1, 2)]));
}

#[test]
fn linearize_packs_type_above_id() {
    assert_eq!(tag(1, 7).linearize(), 65543);
    assert_eq!(tag(0, 0xFFFF).linearize(), 0xFFFF);
    assert_eq!(tag(3, 2).linearize(), 3 * 65536 + 2);
}

#[test]
fn from_linearized_splits_halves() {
    assert_eq!(SpatialUserData::from_linearized(65543), tag(1, 7));
    assert_eq!(SpatialUserData::from_linearized(0xFFFF_FFFF), tag(0xFFFF, 0xFFFF));
    let d = tag(42, 4242);
    assert_eq!(SpatialUserData::from_linearized(d.linearize()), d);
}
