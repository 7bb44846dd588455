//! Shapes and their exact intersection predicates.
use vstd::prelude::*;

verus! {

/// A point of the plane with integer coordinates.
#[derive(Clone, Copy, Debug, PartialEq, Eq, Structural)]
pub struct Point {
    pub x: i32,
    pub y: i32,
}

/// An axis-aligned box; well formed when `min` lies below and left of `max`.
#[derive(Clone, Copy, Debug, PartialEq, Eq, Structural)]
pub struct AabbShape {
    pub min: Point,
    pub max: Point,
}

/// A closed disc.
#[derive(Clone, Copy, Debug, PartialEq, Eq, Structural)]
pub struct CircleShape {
    pub center: Point,
    pub radius: i32,
}

/// A shape that the index can store or be queried with.
#[derive(Clone, Copy, Debug, PartialEq, Eq, Structural)]
pub enum Shape {
    Circle(CircleShape),
    Aabb(AabbShape),
}

pub open spec fn sq(v: int) -> int {
    v * v
}

pub open spec fn clamp(v: int, lo: int, hi: int) -> int {
    if v > hi {
        if lo > hi { lo } else { hi }
    } else if v < lo {
        lo
    } else {
        v
    }
}

impl AabbShape {
    pub open spec fn wf(self) -> bool {
        self.min.x <= self.max.x && self.min.y <= self.max.y
    }
}

impl CircleShape {
    /// The radius is not negative and the bounding box fits the coordinate type.
    pub open spec fn wf(self) -> bool {
        &&& 0 <= self.radius
        &&& i32::MIN <= self.center.x - self.radius
        &&& self.center.x + self.radius <= i32::MAX
        &&& i32::MIN <= self.center.y - self.radius
        &&& self.center.y + self.radius <= i32::MAX
    }

    pub open spec fn spec_bounding_rect(self) -> AabbShape {
        AabbShape {
            min: Point {
                x: (self.center.x - self.radius) as i32,
                y: (self.center.y - self.radius) as i32,
            },
            max: Point {
                x: (self.center.x + self.radius) as i32,
                y: (self.center.y + self.radius) as i32,
            },
        }
    }

    /// The box that encloses the circle.
    pub fn bounding_rect(&self) -> (r: AabbShape)
        requires
            self.wf(),
        ensures
            r == self.spec_bounding_rect(),
            r.wf(),
    {
        let min = Point { x: self.center.x - self.radius, y: self.center.y - self.radius };
        let max = Point { x: self.center.x + self.radius, y: self.center.y + self.radius };
        AabbShape { min, max }
    }
}

impl Shape {
    pub open spec fn wf(self) -> bool {
        match self {
            Shape::Circle(c) => c.wf(),
            Shape::Aabb(b) => b.wf(),
        }
    }

    pub open spec fn spec_bounding_rect(self) -> AabbShape {
        match self {
            Shape::Circle(c) => c.spec_bounding_rect(),
            Shape::Aabb(b) => b,
        }
    }

    /// The box that encloses the shape: a box encloses itself.
    pub fn bounding_rect(&self) -> (r: AabbShape)
        requires
            self.wf(),
        ensures
            r == self.spec_bounding_rect(),
            r.wf(),
    {
        match self {
            Shape::Circle(circle) => circle.bounding_rect(),
            Shape::Aabb(aabb) => *aabb,
        }
    }

    /// The circle held by a shape that is one.
    pub fn as_circle(&self) -> (r: &CircleShape)
        requires
            self is Circle,
        ensures
            *r == self->Circle_0,
    {
        match self {
            Shape::Circle(circle) => circle,
            Shape::Aabb(_) => vstd::pervasive::unreached(),
        }
    }

    /// The box held by a shape that is one.
    pub fn as_aabb(&self) -> (r: &AabbShape)
        requires
            self is Aabb,
        ensures
            *r == self->Aabb_0,
    {
        match self {
            Shape::Aabb(aabb) => aabb,
            Shape::Circle(_) => vstd::pervasive::unreached(),
        }
    }
}

/// A box and a circle meet when the point of the box nearest to the centre
/// lies within the radius.
pub open spec fn aabb_circle_hit(b: AabbShape, c: CircleShape) -> bool {
    sq(c.center.x - clamp(c.center.x as int, b.min.x as int, b.max.x as int))
        + sq(c.center.y - clamp(c.center.y as int, b.min.y as int, b.max.y as int))
        <= sq(c.radius as int)
}

/// Two boxes meet when they overlap, borders included, on both axes.
pub open spec fn aabb_aabb_hit(a: AabbShape, b: AabbShape) -> bool {
    &&& a.min.x <= b.max.x
    &&& a.max.x >= b.min.x
    &&& a.min.y <= b.max.y
    &&& a.max.y >= b.min.y
}

/// Two circles meet when their centres are no further apart than the sum of the radii.
pub open spec fn circle_circle_hit(a: CircleShape, b: CircleShape) -> bool {
    sq(a.center.x - b.center.x) + sq(a.center.y - b.center.y) <= sq(a.radius + b.radius)
}

pub open spec fn shapes_hit(a: Shape, b: Shape) -> bool {
    match (a, b) {
        (Shape::Circle(c), Shape::Circle(d)) => circle_circle_hit(c, d),
        (Shape::Circle(c), Shape::Aabb(d)) => aabb_circle_hit(d, c),
        (Shape::Aabb(c), Shape::Circle(d)) => aabb_circle_hit(c, d),
        (Shape::Aabb(c), Shape::Aabb(d)) => aabb_aabb_hit(c, d),
    }
}

fn clamp_coord(v: i32, lo: i32, hi: i32) -> (r: i32)
    ensures
        r == clamp(v as int, lo as int, hi as int),
{
    if v > hi {
        if lo > hi { lo } else { hi }
    } else if v < lo {
        lo
    } else {
        v
    }
}

proof fn lemma_square_bound(v: int)
    requires
        -0x1_0000_0000 <= v <= 0x1_0000_0000,
    ensures
        0 <= sq(v) <= 0x1_0000_0000_0000_0000,
{
    assert(0 <= v * v <= 0x1_0000_0000 * 0x1_0000_0000) by (nonlinear_arith)
        requires
            -0x1_0000_0000 <= v <= 0x1_0000_0000,
    ;
}

fn square(v: i128) -> (r: i128)
    requires
        -0x1_0000_0000 <= v <= 0x1_0000_0000,
    ensures
        r == sq(v as int),
        0 <= r <= 0x1_0000_0000_0000_0000,
{
    proof {
        lemma_square_bound(v as int);
    }
    v * v
}

/// Whether a box and a circle meet, decided exactly.
pub fn intersect_aabb_circle(aabb: &AabbShape, circle: &CircleShape) -> (r: bool)
    ensures
        r == aabb_circle_hit(*aabb, *circle),
{
    let cx = clamp_coord(circle.center.x, aabb.min.x, aabb.max.x);
    let cy = clamp_coord(circle.center.y, aabb.min.y, aabb.max.y);
    let dx = square(circle.center.x as i128 - cx as i128);
    let dy = square(circle.center.y as i128 - cy as i128);
    let rr = square(circle.radius as i128);
    dx + dy <= rr
}

/// Whether two boxes meet, decided exactly.
pub fn intersect_aabb_aabb(a_left: &AabbShape, a_right: &AabbShape) -> (r: bool)
    ensures
        r == aabb_aabb_hit(*a_left, *a_right),
{
    a_left.min.x <= a_right.max.x && a_left.min.y <= a_right.max.y && a_left.max.x
        >= a_right.min.x && a_left.max.y >= a_right.min.y
}

/// Whether two circles meet, decided exactly.
pub fn intersect_circle_circle(c_left: &CircleShape, c_right: &CircleShape) -> (r: bool)
    ensures
        r == circle_circle_hit(*c_left, *c_right),
{
    let dx = square(c_left.center.x as i128 - c_right.center.x as i128);
    let dy = square(c_left.center.y as i128 - c_right.center.y as i128);
    let both = square(c_left.radius as i128 + c_right.radius as i128);
    dx + dy <= both
}

/// Whether two shapes meet, whatever their kinds.
pub fn intersects(a: &Shape, b: &Shape) -> (r: bool)
    ensures
        r == shapes_hit(*a, *b),
{
    match (a, b) {
        (Shape::Circle(c), Shape::Circle(d)) => intersect_circle_circle(c, d),
        (Shape::Circle(c), Shape::Aabb(d)) => intersect_aabb_circle(d, c),
        (Shape::Aabb(c), Shape::Circle(d)) => intersect_aabb_circle(c, d),
        (Shape::Aabb(c), Shape::Aabb(d)) => intersect_aabb_aabb(c, d),
    }
}

/// Intersection does not depend on the order of its arguments.
pub proof fn lemma_intersects_symmetric(a: Shape, b: Shape)
    ensures
        shapes_hit(a, b) == shapes_hit(b, a),
{
    match (a, b) {
        (Shape::Circle(c), Shape::Circle(d)) => {
            assert(sq(c.center.x - d.center.x) == sq(d.center.x - c.center.x)) by (nonlinear_arith);
            assert(sq(c.center.y - d.center.y) == sq(d.center.y - c.center.y)) by (nonlinear_arith);
        },
        _ => {},
    }
}

} // verus!
