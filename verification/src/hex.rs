//! Hexagonal board geometry: cube coordinates, adjacency, and the
//! classification of cells into interior, edge and corner cells.
//!
//! A cell is an axial coordinate `(x, y)` standing for the cube coordinate
//! `(x, y, z)` with `x + y + z == 0`. The board of radius `R` is the set of
//! cells whose cube coordinates all lie in `[-R, R]`.

use vstd::prelude::*;

verus! {

/// Largest radius the engine accepts; keeps every coordinate computation,
/// cell index and cell count comfortably inside `i32`/`usize` range.
pub const MAX_RADIUS: usize = 10000;

/// An axial hex coordinate; the third cube component is `-x - y`.
#[derive(Clone, Copy, Debug, PartialEq, Eq, Structural)]
pub struct Hex {
    pub x: i32,
    pub y: i32,
}

/// The radii the engine accepts.
pub open spec fn radius_ok(radius: int) -> bool {
    1 <= radius <= MAX_RADIUS
}

impl Hex {
    /// The third cube coordinate.
    pub open spec fn z(self) -> int {
        -(self.x as int) - (self.y as int)
    }

    /// Whether the cell lies on the board of the given radius.
    pub open spec fn in_bounds(self, radius: int) -> bool {
        &&& -radius <= self.x as int <= radius
        &&& -radius <= self.y as int <= radius
        &&& -radius <= self.z() <= radius
    }
}

/// `x` component of the unit offset of direction `d`, for `d` in `0..6`.
/// Directions are numbered in rotational order: adjacent numbers are 60
/// degrees apart, and direction `(d + 1) % 6` is the clockwise neighbor.
pub open spec fn dir_dx(d: int) -> int {
    if d == 0 {
        1
    } else if d == 1 {
        0
    } else if d == 2 {
        -1
    } else if d == 3 {
        -1
    } else if d == 4 {
        0
    } else {
        1
    }
}

/// `y` component of the unit offset of direction `d`, for `d` in `0..6`.
pub open spec fn dir_dy(d: int) -> int {
    if d == 0 {
        0
    } else if d == 1 {
        1
    } else if d == 2 {
        1
    } else if d == 3 {
        0
    } else if d == 4 {
        -1
    } else {
        -1
    }
}

/// Whether `b` is one of the six neighbors of `a`.
pub open spec fn adjacent(a: Hex, b: Hex) -> bool {
    exists|d: int|
        0 <= d < 6 && b.x as int == a.x as int + dir_dx(d) && b.y as int == a.y as int + dir_dy(d)
}

/// The unit offset of direction `d`.
pub fn dir_offset(d: usize) -> (r: (i32, i32))
    requires
        d < 6,
    ensures
        r.0 as int == dir_dx(d as int),
        r.1 as int == dir_dy(d as int),
{
    if d == 0 {
        (1, 0)
    } else if d == 1 {
        (0, 1)
    } else if d == 2 {
        (-1, 1)
    } else if d == 3 {
        (-1, 0)
    } else if d == 4 {
        (0, -1)
    } else {
        (1, -1)
    }
}

/// Whether `h` lies on the board of radius `radius`.
pub fn in_bounds(h: Hex, radius: usize) -> (r: bool)
    requires
        radius_ok(radius as int),
    ensures
        r == h.in_bounds(radius as int),
{
    let x: i64 = h.x as i64;
    let y: i64 = h.y as i64;
    let z: i64 = -x - y;
    let rad: i64 = radius as i64;
    -rad <= x && x <= rad && -rad <= y && y <= rad && -rad <= z && z <= rad
}

/// What a cell is to the win conditions: an inner cell, one of the six board
/// edges, or one of the six board corners. Edge and corner numbers run in a
/// fixed rotational order around the board, consistent with each other.
#[derive(Clone, Copy, Debug, PartialEq, Eq, Structural)]
pub enum CellKind {
    Interior,
    Edge(u8),
    Corner(u8),
}

/// Classification of an in-bounds cell, decided by which cube coordinates
/// sit on the rim (equal `radius` or `-radius`): none for interior cells,
/// one for edges, two for corners.
pub open spec fn spec_classify(h: Hex, radius: int) -> CellKind {
    let dx = if h.x as int == radius {
        1int
    } else if h.x as int == -radius {
        -1int
    } else {
        0int
    };
    let dy = if h.y as int == radius {
        1int
    } else if h.y as int == -radius {
        -1int
    } else {
        0int
    };
    let dz = if h.z() == radius {
        1int
    } else if h.z() == -radius {
        -1int
    } else {
        0int
    };
    if dx == 0 && dy == 0 && dz == 0 {
        CellKind::Interior
    } else if dx == 0 && dy > 0 && dz == 0 {
        CellKind::Edge(0)
    } else if dx < 0 && dy == 0 && dz == 0 {
        CellKind::Edge(1)
    } else if dx == 0 && dy == 0 && dz > 0 {
        CellKind::Edge(2)
    } else if dx == 0 && dz == 0 {
        CellKind::Edge(3)
    } else if dy == 0 && dz == 0 {
        CellKind::Edge(4)
    } else if dx == 0 && dy == 0 {
        CellKind::Edge(5)
    } else if dx < 0 && dz == 0 {
        CellKind::Corner(0)
    } else if dx < 0 && dy == 0 {
        CellKind::Corner(1)
    } else if dx == 0 && dy < 0 {
        CellKind::Corner(2)
    } else if dz == 0 {
        CellKind::Corner(3)
    } else if dy == 0 {
        CellKind::Corner(4)
    } else {
        CellKind::Corner(5)
    }
}

/// Classify an in-bounds cell as interior, edge or corner.
pub fn classify(h: Hex, radius: usize) -> (r: CellKind)
    requires
        radius_ok(radius as int),
        h.in_bounds(radius as int),
    ensures
        r == spec_classify(h, radius as int),
{
    let rad: i64 = radius as i64;
    let x: i64 = h.x as i64;
    let y: i64 = h.y as i64;
    let z: i64 = -x - y;
    let dx: i64 = if x == rad {
        1
    } else if x == -rad {
        -1
    } else {
        0
    };
    let dy: i64 = if y == rad {
        1
    } else if y == -rad {
        -1
    } else {
        0
    };
    let dz: i64 = if z == rad {
        1
    } else if z == -rad {
        -1
    } else {
        0
    };
    if dx == 0 && dy == 0 && dz == 0 {
        CellKind::Interior
    } else if dx == 0 && dy > 0 && dz == 0 {
        CellKind::Edge(0)
    } else if dx < 0 && dy == 0 && dz == 0 {
        CellKind::Edge(1)
    } else if dx == 0 && dy == 0 && dz > 0 {
        CellKind::Edge(2)
    } else if dx == 0 && dz == 0 {
        CellKind::Edge(3)
    } else if dy == 0 && dz == 0 {
        CellKind::Edge(4)
    } else if dx == 0 && dy == 0 {
        CellKind::Edge(5)
    } else if dx < 0 && dz == 0 {
        CellKind::Corner(0)
    } else if dx < 0 && dy == 0 {
        CellKind::Corner(1)
    } else if dx == 0 && dy < 0 {
        CellKind::Corner(2)
    } else if dz == 0 {
        CellKind::Corner(3)
    } else if dy == 0 {
        CellKind::Corner(4)
    } else {
        CellKind::Corner(5)
    }
}

} // verus!
