//! Points, axis-aligned boxes and per-triangle bounds on an integer grid.
use vstd::prelude::*;

verus! {

/// One of the three coordinate axes.
#[derive(Clone, Copy, Debug, PartialEq, Eq, Structural)]
pub enum Axis {
    X,
    Y,
    Z,
}

/// A point on the integer grid.
#[derive(Clone, Copy, Debug, PartialEq, Eq, Structural)]
pub struct Point3 {
    pub x: i32,
    pub y: i32,
    pub z: i32,
}

/// An axis-aligned box given by its two extreme corners.
#[derive(Clone, Copy, Debug, PartialEq, Eq, Structural)]
pub struct Aabb {
    pub min_corner: Point3,
    pub max_corner: Point3,
}

/// The sum of a triangle's three vertices: three times its centroid,
/// kept whole so that no precision is lost.
#[derive(Clone, Copy, Debug, PartialEq, Eq, Structural)]
pub struct Centroid {
    pub x: i64,
    pub y: i64,
    pub z: i64,
}

/// What the builder knows of one triangle: its box and its centroid.
#[derive(Clone, Copy, Debug, PartialEq, Eq, Structural)]
pub struct TriangleBounds {
    pub min_corner: Point3,
    pub max_corner: Point3,
    pub centroid: Centroid,
}

pub open spec fn min_int(a: int, b: int) -> int {
    if a <= b { a } else { b }
}

pub open spec fn max_int(a: int, b: int) -> int {
    if a >= b { a } else { b }
}

fn min_i32(a: i32, b: i32) -> (r: i32)
    ensures
        r == min_int(a as int, b as int),
{
    if a <= b { a } else { b }
}

fn max_i32(a: i32, b: i32) -> (r: i32)
    ensures
        r == max_int(a as int, b as int),
{
    if a >= b { a } else { b }
}

/// The coordinate of a point along an axis.
pub open spec fn coord(p: Point3, a: Axis) -> int {
    match a {
        Axis::X => p.x as int,
        Axis::Y => p.y as int,
        Axis::Z => p.z as int,
    }
}

/// The coordinate of a centroid (times three) along an axis.
pub open spec fn centroid_coord(c: Centroid, a: Axis) -> int {
    match a {
        Axis::X => c.x as int,
        Axis::Y => c.y as int,
        Axis::Z => c.z as int,
    }
}

pub open spec fn point_min(p: Point3, q: Point3) -> Point3 {
    Point3 {
        x: min_int(p.x as int, q.x as int) as i32,
        y: min_int(p.y as int, q.y as int) as i32,
        z: min_int(p.z as int, q.z as int) as i32,
    }
}

pub open spec fn point_max(p: Point3, q: Point3) -> Point3 {
    Point3 {
        x: max_int(p.x as int, q.x as int) as i32,
        y: max_int(p.y as int, q.y as int) as i32,
        z: max_int(p.z as int, q.z as int) as i32,
    }
}

/// `p` is componentwise at most `q`.
pub open spec fn point_le(p: Point3, q: Point3) -> bool {
    p.x <= q.x && p.y <= q.y && p.z <= q.z
}

/// The smallest box that holds both boxes.
pub open spec fn union_spec(a: Aabb, b: Aabb) -> Aabb {
    Aabb { min_corner: point_min(a.min_corner, b.min_corner), max_corner: point_max(a.max_corner, b.max_corner) }
}

/// `outer` holds all of `inner`.
pub open spec fn contains_spec(outer: Aabb, inner: Aabb) -> bool {
    point_le(outer.min_corner, inner.min_corner) && point_le(inner.max_corner, outer.max_corner)
}

/// Half the surface area of a box whose corners are ordered.
pub open spec fn half_area_spec(b: Aabb) -> int {
    let dx = b.max_corner.x - b.min_corner.x;
    let dy = b.max_corner.y - b.min_corner.y;
    let dz = b.max_corner.z - b.min_corner.z;
    dx * dy + dy * dz + dz * dx
}

/// The corners are ordered on every axis.
pub open spec fn aabb_valid(b: Aabb) -> bool {
    point_le(b.min_corner, b.max_corner)
}

/// The box of a triangle's bounds record.
pub open spec fn tri_box(t: TriangleBounds) -> Aabb {
    Aabb { min_corner: t.min_corner, max_corner: t.max_corner }
}

impl Point3 {
    /// The coordinate along `axis`.
    pub fn get(&self, axis: Axis) -> (r: i32)
        ensures
            r == coord(*self, axis),
    {
        match axis {
            Axis::X => self.x,
            Axis::Y => self.y,
            Axis::Z => self.z,
        }
    }

    /// Componentwise minimum.
    pub fn min(&self, o: &Point3) -> (r: Point3)
        ensures
            r == point_min(*self, *o),
    {
        Point3 { x: min_i32(self.x, o.x), y: min_i32(self.y, o.y), z: min_i32(self.z, o.z) }
    }

    /// Componentwise maximum.
    pub fn max(&self, o: &Point3) -> (r: Point3)
        ensures
            r == point_max(*self, *o),
    {
        Point3 { x: max_i32(self.x, o.x), y: max_i32(self.y, o.y), z: max_i32(self.z, o.z) }
    }
}

impl Centroid {
    /// The coordinate along `axis`.
    pub fn get(&self, axis: Axis) -> (r: i64)
        ensures
            r == centroid_coord(*self, axis),
    {
        match axis {
            Axis::X => self.x,
            Axis::Y => self.y,
            Axis::Z => self.z,
        }
    }
}

impl TriangleBounds {
    /// The triangle's box.
    pub fn aabb(&self) -> (r: Aabb)
        ensures
            r == tri_box(*self),
    {
        Aabb { min_corner: self.min_corner, max_corner: self.max_corner }
    }
}

impl Aabb {
    /// The smallest box that holds `self` and `o`.
    pub fn union(&self, o: &Aabb) -> (r: Aabb)
        ensures
            r == union_spec(*self, *o),
            contains_spec(r, *self),
            contains_spec(r, *o),
    {
        Aabb { min_corner: self.min_corner.min(&o.min_corner), max_corner: self.max_corner.max(&o.max_corner) }
    }

    /// Whether `self` holds all of `inner`.
    pub fn contains(&self, inner: &Aabb) -> (r: bool)
        ensures
            r == contains_spec(*self, *inner),
    {
        self.min_corner.x <= inner.min_corner.x && self.min_corner.y <= inner.min_corner.y
            && self.min_corner.z <= inner.min_corner.z && inner.max_corner.x <= self.max_corner.x
            && inner.max_corner.y <= self.max_corner.y && inner.max_corner.z <= self.max_corner.z
    }

    /// Half the surface area: the cost weight of a box in the split heuristic.
    pub fn half_area(&self) -> (r: u128)
        requires
            aabb_valid(*self),
        ensures
            r == half_area_spec(*self),
            r <= 3 * 0xffff_ffff * 0xffff_ffff,
    {
        let dx = (self.max_corner.x as i64 - self.min_corner.x as i64) as u128;
        let dy = (self.max_corner.y as i64 - self.min_corner.y as i64) as u128;
        let dz = (self.max_corner.z as i64 - self.min_corner.z as i64) as u128;
        assert(dx * dy <= 0xffff_ffff * 0xffff_ffff) by (nonlinear_arith)
            requires dx <= 0xffff_ffff, dy <= 0xffff_ffff;
        assert(dy * dz <= 0xffff_ffff * 0xffff_ffff) by (nonlinear_arith)
            requires dz <= 0xffff_ffff, dy <= 0xffff_ffff;
        assert(dz * dx <= 0xffff_ffff * 0xffff_ffff) by (nonlinear_arith)
            requires dx <= 0xffff_ffff, dz <= 0xffff_ffff;
        dx * dy + dy * dz + dz * dx
    }
}

} // verus!
