//! The data attached to entities.

use crate::geometry::Pt;
use vstd::prelude::*;

verus! {

/// Where an entity is. Only integration moves it.
#[derive(Clone, Copy, Debug, PartialEq, Eq, Structural)]
pub struct Pos(pub Pt);

impl Pos {
    pub fn new(v: Pt) -> (p: Pos)
        ensures
            p == Pos(v),
    {
        Pos(v)
    }
}

/// The movement an entity has collected during the running tick and not yet
/// made.
#[derive(Clone, Copy, Debug, PartialEq, Eq, Structural)]
pub struct Transform(pub Pt);

impl Transform {
    /// No pending movement.
    pub fn new() -> (t: Transform)
        ensures
            t == Transform(Pt { x: 0, y: 0 }),
    {
        Transform(Pt { x: 0, y: 0 })
    }
}

/// The shape by which an entity collides. Sizes are in coordinate steps.
#[derive(Clone, Copy, Debug, PartialEq, Eq, Structural)]
pub enum Collider {
    Circle { radius: u32 },
    Rectangle { w: u32, h: u32 },
}

/// The axis along which intervals are swept.
#[derive(Clone, Copy, Debug, PartialEq, Eq, Structural)]
pub enum Axis {
    X,
    Y,
}

/// The coordinate of `p` on `axis`.
pub open spec fn along(p: Pt, axis: Axis) -> int {
    match axis {
        Axis::X => p.x as int,
        Axis::Y => p.y as int,
    }
}

/// Half of the extent of `c` on `axis`, rounded down for a rectangle.
pub open spec fn half_extent(c: Collider, axis: Axis) -> int {
    match c {
        Collider::Circle { radius } => radius as int,
        Collider::Rectangle { w, h } => match axis {
            Axis::X => w as int / 2,
            Axis::Y => h as int / 2,
        },
    }
}

impl Collider {
    /// Whether this is a circle.
    pub fn is_circle(&self) -> (b: bool)
        ensures
            b == (*self is Circle),
    {
        match self {
            Collider::Circle { .. } => true,
            Collider::Rectangle { .. } => false,
        }
    }
}

} // verus!
