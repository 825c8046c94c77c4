//! Points, octants and axis-aligned bounding cubes.
//!
//! Lengths are integers in a fixed world unit chosen by the caller (for
//! example millimetres), so that every comparison and every halving or
//! doubling performed by the spatial index is exact.
use vstd::prelude::*;

verus! {

/// The largest coordinate magnitude, and the largest half-edge, that the
/// spatial index accepts for the cubes it is given.
pub const WORLD_LIMIT: i64 = 1_099_511_627_776;

/// A point or a displacement in 3D space.
#[derive(Clone, Copy, Debug, PartialEq, Eq, Structural)]
pub struct Vec3 {
    pub x: i64,
    pub y: i64,
    pub z: i64,
}

/// The sign of one axis of an octant: `+1` on the positive side, `-1` on the negative side.
pub open spec fn axis_sign(positive: bool) -> int {
    if positive {
        1
    } else {
        -1
    }
}

pub open spec fn in_i64(v: int) -> bool {
    i64::MIN <= v <= i64::MAX
}

proof fn lemma_product_bound(a: int, b: int)
    requires
        in_i64(a),
        in_i64(b),
    ensures
        -0x4000_0000_0000_0000_0000_0000_0000_0000 <= a * b <= 0x4000_0000_0000_0000_0000_0000_0000_0000,
{
    assert(-0x4000_0000_0000_0000_0000_0000_0000_0000 <= a * b <= 0x4000_0000_0000_0000_0000_0000_0000_0000) by (nonlinear_arith)
        requires
            -0x8000_0000_0000_0000 <= a <= 0x7fff_ffff_ffff_ffff,
            -0x8000_0000_0000_0000 <= b <= 0x7fff_ffff_ffff_ffff,
    ;
}

impl Vec3 {
    pub open spec fn spec_dot(self, rhs: Vec3) -> int {
        self.x * rhs.x + self.y * rhs.y + self.z * rhs.z
    }

    /// Return a zero vector.
    pub fn zero() -> (r: Vec3)
        ensures
            r.x == 0 && r.y == 0 && r.z == 0,
    {
        Vec3 { x: 0, y: 0, z: 0 }
    }

    /// Compute the dot product of two vectors.
    pub fn dot(self, rhs: Vec3) -> (r: i64)
        requires
            in_i64(self.spec_dot(rhs)),
        ensures
            r == self.spec_dot(rhs),
    {
        proof {
            lemma_product_bound(self.x as int, rhs.x as int);
            lemma_product_bound(self.y as int, rhs.y as int);
            lemma_product_bound(self.z as int, rhs.z as int);
        }
        let px = (self.x as i128) * (rhs.x as i128);
        let py = (self.y as i128) * (rhs.y as i128);
        let pz = (self.z as i128) * (rhs.z as i128);
        // The total fits in i64, and each partial sum fits in i128.
        let partial = px + py;
        (partial + pz) as i64
    }

    /// Return a vector whose components are those of `self`, scaled by a factor of `s`.
    pub fn scaled(self, s: i64) -> (r: Vec3)
        requires
            in_i64(self.x * s),
            in_i64(self.y * s),
            in_i64(self.z * s),
        ensures
            r.x == self.x * s,
            r.y == self.y * s,
            r.z == self.z * s,
    {
        Vec3 { x: self.x * s, y: self.y * s, z: self.z * s }
    }

    /// Add two vectors component-wise.
    pub fn plus(self, rhs: Vec3) -> (r: Vec3)
        requires
            in_i64(self.x + rhs.x),
            in_i64(self.y + rhs.y),
            in_i64(self.z + rhs.z),
        ensures
            r.x == self.x + rhs.x,
            r.y == self.y + rhs.y,
            r.z == self.z + rhs.z,
    {
        Vec3 { x: self.x + rhs.x, y: self.y + rhs.y, z: self.z + rhs.z }
    }

    /// Subtract `rhs` from `self` component-wise.
    pub fn minus(self, rhs: Vec3) -> (r: Vec3)
        requires
            in_i64(self.x - rhs.x),
            in_i64(self.y - rhs.y),
            in_i64(self.z - rhs.z),
        ensures
            r.x == self.x - rhs.x,
            r.y == self.y - rhs.y,
            r.z == self.z - rhs.z,
    {
        Vec3 { x: self.x - rhs.x, y: self.y - rhs.y, z: self.z - rhs.z }
    }
}

/// One of the eight sub-regions of a cube, given by the side of the centre
/// on which it lies along each axis (`true` for the positive side).
#[derive(Clone, Copy, Debug, PartialEq, Eq, Structural)]
pub struct Octant {
    pub x: bool,
    pub y: bool,
    pub z: bool,
}

/// The bit of an octant's index that stands for the positive X side.
pub const SX: u8 = 1;

/// The bit of an octant's index that stands for the positive Y side.
pub const SY: u8 = 2;

/// The bit of an octant's index that stands for the positive Z side.
pub const SZ: u8 = 4;

impl Octant {
    pub open spec fn spec_bits(self) -> int {
        (if self.x {
            1int
        } else {
            0
        }) + (if self.y {
            2int
        } else {
            0
        }) + (if self.z {
            4int
        } else {
            0
        })
    }

    /// The index of this octant among the eight: one bit per axis (`SX`, `SY`, `SZ`).
    pub fn bits(self) -> (r: u8)
        ensures
            r == self.spec_bits(),
            r < 8,
    {
        let mut b: u8 = 0;
        if self.x {
            b = b + SX;
        }
        if self.y {
            b = b + SY;
        }
        if self.z {
            b = b + SZ;
        }
        b
    }

    /// The octant whose index is `bits`, if `bits` names one of the eight.
    pub fn from_bits(bits: u8) -> (r: Option<Octant>)
        ensures
            bits < 8 ==> r is Some && r->0.spec_bits() == bits,
            bits >= 8 ==> r is None,
    {
        if bits >= 8 {
            None
        } else {
            let x = bits % 2 == 1;
            let y = (bits / 2) % 2 == 1;
            let z = bits / 4 == 1;
            Some(Octant { x, y, z })
        }
    }

    /// The corner of the unit cube (centred at the origin, half-edge one) that
    /// lies in this octant: `+1` on each axis whose side is positive, `-1` on the others.
    pub fn as_vector(self) -> (r: Vec3)
        ensures
            r.x == axis_sign(self.x),
            r.y == axis_sign(self.y),
            r.z == axis_sign(self.z),
    {
        Vec3 {
            x: if self.x {
                1
            } else {
                -1
            },
            y: if self.y {
                1
            } else {
                -1
            },
            z: if self.z {
                1
            } else {
                -1
            },
        }
    }
}

/// An axis-aligned cube: a centre and half the length of an edge.
#[derive(Clone, Copy, Debug, PartialEq, Eq, Structural)]
pub struct BoundingCube {
    /// The centre of the cube.
    pub center: Vec3,
    /// Half of the length of a side of the cube.
    pub half_edge: i64,
}

/// How one cube is bounded by another.
#[derive(Clone, Copy, Debug, PartialEq, Eq, Structural)]
pub enum Boundedness {
    /// The inner cube is not bounded by the other.
    Unbounded,
    /// The inner cube is bounded by the other, but by none of its octants.
    Minimal,
    /// The inner cube is bounded by this octant of the other.
    Octant(Octant),
}

/// Where `p` lies along one axis of a cube with centre `c` and half-edge `h`:
/// `None` beyond the bound, otherwise whether it is strictly on the positive side.
pub open spec fn axis_side(c: int, h: int, p: int) -> Option<bool> {
    if p - c > h || c - p > h {
        None
    } else {
        Some(p - c > 0)
    }
}

/// The octant of a cube with centre `(cx, cy, cz)` and half-edge `h` that
/// holds the point `(px, py, pz)`, or `None` when the point is outside the cube.
/// Points on a boundary plane between octants go to the negative side.
pub open spec fn octant_at(cx: int, cy: int, cz: int, h: int, px: int, py: int, pz: int) -> Option<
    Octant,
> {
    match (axis_side(cx, h, px), axis_side(cy, h, py), axis_side(cz, h, pz)) {
        (Some(x), Some(y), Some(z)) => Some(Octant { x, y, z }),
        _ => None,
    }
}

pub open spec fn strictly_inside(c: int, h: int, p: int) -> bool {
    c - h < p < c + h
}

impl BoundingCube {
    /// A cube that the spatial index accepts: positive half-edge, all within `WORLD_LIMIT`.
    pub open spec fn valid(self) -> bool {
        0 < self.half_edge <= WORLD_LIMIT && -WORLD_LIMIT <= self.center.x <= WORLD_LIMIT
            && -WORLD_LIMIT <= self.center.y <= WORLD_LIMIT && -WORLD_LIMIT <= self.center.z
            <= WORLD_LIMIT
    }

    pub open spec fn spec_octant_of(self, px: int, py: int, pz: int) -> Option<Octant> {
        octant_at(
            self.center.x as int,
            self.center.y as int,
            self.center.z as int,
            self.half_edge as int,
            px,
            py,
            pz,
        )
    }

    pub open spec fn spec_octant(self, v: Vec3) -> Option<Octant> {
        self.spec_octant_of(v.x as int, v.y as int, v.z as int)
    }

    pub open spec fn spec_contains_at(self, px: int, py: int, pz: int) -> bool {
        strictly_inside(self.center.x as int, self.half_edge as int, px) && strictly_inside(
            self.center.y as int,
            self.half_edge as int,
            py,
        ) && strictly_inside(self.center.z as int, self.half_edge as int, pz)
    }

    pub open spec fn spec_contains(self, v: Vec3) -> bool {
        self.spec_contains_at(v.x as int, v.y as int, v.z as int)
    }

    /// Both extreme corners of `other` lie strictly inside `self`.
    pub open spec fn spec_contains_bcube(self, other: BoundingCube) -> bool {
        let h = other.half_edge as int;
        self.spec_contains_at(
            other.center.x + h,
            other.center.y + h,
            other.center.z + h,
        ) && self.spec_contains_at(other.center.x - h, other.center.y - h, other.center.z - h)
    }

    pub open spec fn spec_boundedness(self, other: BoundingCube) -> Boundedness {
        let h = other.half_edge as int;
        let near = self.spec_octant_of(
            other.center.x - h,
            other.center.y - h,
            other.center.z - h,
        );
        let far = self.spec_octant_of(other.center.x + h, other.center.y + h, other.center.z + h);
        match (near, far) {
            (Some(n), Some(f)) => if n == f {
                Boundedness::Octant(f)
            } else {
                Boundedness::Minimal
            },
            _ => Boundedness::Unbounded,
        }
    }

    /// The side of this cube's centre on which `p` lies along one axis, if within the bound.
    fn axis_side_of(c: i64, h: i64, p: i128) -> (r: Option<bool>)
        requires
            -0x1_0000_0000_0000_0000 <= p <= 0x1_0000_0000_0000_0000,
        ensures
            r == axis_side(c as int, h as int, p as int),
    {
        let d = p - c as i128;
        if d > h as i128 || -d > h as i128 {
            None
        } else {
            Some(d > 0)
        }
    }

    fn octant_of_point(&self, px: i128, py: i128, pz: i128) -> (r: Option<Octant>)
        requires
            -0x1_0000_0000_0000_0000 <= px <= 0x1_0000_0000_0000_0000,
            -0x1_0000_0000_0000_0000 <= py <= 0x1_0000_0000_0000_0000,
            -0x1_0000_0000_0000_0000 <= pz <= 0x1_0000_0000_0000_0000,
        ensures
            r == self.spec_octant_of(px as int, py as int, pz as int),
    {
        let sx = Self::axis_side_of(self.center.x, self.half_edge, px);
        let sy = Self::axis_side_of(self.center.y, self.half_edge, py);
        let sz = Self::axis_side_of(self.center.z, self.half_edge, pz);
        match (sx, sy, sz) {
            (Some(x), Some(y), Some(z)) => Some(Octant { x, y, z }),
            _ => None,
        }
    }

    /// Return the octant containing `v`, if any. A point on the boundary
    /// between two octants goes to the negative side.
    pub fn octant(&self, v: Vec3) -> (r: Option<Octant>)
        ensures
            r == self.spec_octant(v),
    {
        self.octant_of_point(v.x as i128, v.y as i128, v.z as i128)
    }

    fn contains_point(&self, px: i128, py: i128, pz: i128) -> (r: bool)
        requires
            -0x1_0000_0000_0000_0000 <= px <= 0x1_0000_0000_0000_0000,
            -0x1_0000_0000_0000_0000 <= py <= 0x1_0000_0000_0000_0000,
            -0x1_0000_0000_0000_0000 <= pz <= 0x1_0000_0000_0000_0000,
        ensures
            r == self.spec_contains_at(px as int, py as int, pz as int),
    {
        let h = self.half_edge as i128;
        let dx = px - self.center.x as i128;
        let dy = py - self.center.y as i128;
        let dz = pz - self.center.z as i128;
        -h < dx && dx < h && -h < dy && dy < h && -h < dz && dz < h
    }

    /// Return true if `v` is strictly within this cube.
    pub fn contains(&self, v: Vec3) -> (r: bool)
        ensures
            r == self.spec_contains(v),
    {
        self.contains_point(v.x as i128, v.y as i128, v.z as i128)
    }

    /// Specify how (if at all) `other` is bounded by `self`.
    pub fn boundedness(&self, other: &BoundingCube) -> (r: Boundedness)
        ensures
            r == self.spec_boundedness(*other),
    {
        let h = other.half_edge as i128;
        let near = self.octant_of_point(
            other.center.x as i128 - h,
            other.center.y as i128 - h,
            other.center.z as i128 - h,
        );
        let far = self.octant_of_point(
            other.center.x as i128 + h,
            other.center.y as i128 + h,
            other.center.z as i128 + h,
        );
        match (near, far) {
            (Some(n), Some(f)) => if n == f {
                Boundedness::Octant(f)
            } else {
                Boundedness::Minimal
            },
            _ => Boundedness::Unbounded,
        }
    }

    /// Specify whether `other` is contained within `self`.
    pub fn contains_bcube(&self, other: &BoundingCube) -> (r: bool)
        ensures
            r == self.spec_contains_bcube(*other),
    {
        let h = other.half_edge as i128;
        self.contains_point(
            other.center.x as i128 + h,
            other.center.y as i128 + h,
            other.center.z as i128 + h,
        ) && self.contains_point(
            other.center.x as i128 - h,
            other.center.y as i128 - h,
            other.center.z as i128 - h,
        )
    }
}

} // verus!
