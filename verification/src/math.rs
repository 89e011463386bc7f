//! Saturating signed 64-bit scalar arithmetic and column-major 4x4 matrices.

use vstd::prelude::*;

verus! {

/// Clamp a mathematical integer into the `i64` range.
pub open spec fn sat(x: int) -> i64 {
    if x > i64::MAX as int {
        i64::MAX
    } else if x < i64::MIN as int {
        i64::MIN
    } else {
        x as i64
    }
}

/// Saturating addition: the exact sum clamped into the `i64` range.
pub fn sat_add(a: i64, b: i64) -> (r: i64)
    ensures
        r == sat(a + b),
{
    match a.checked_add(b) {
        Some(v) => v,
        None => {
            if a < 0 {
                i64::MIN
            } else {
                i64::MAX
            }
        },
    }
}

/// Saturating subtraction: the exact difference clamped into the `i64` range.
pub fn sat_sub(a: i64, b: i64) -> (r: i64)
    ensures
        r == sat(a - b),
{
    match a.checked_sub(b) {
        Some(v) => v,
        None => {
            if a < 0 {
                i64::MIN
            } else {
                i64::MAX
            }
        },
    }
}

/// Saturating multiplication: the exact product clamped into the `i64` range.
pub fn sat_mul(a: i64, b: i64) -> (r: i64)
    ensures
        r == sat(a * b),
{
    match a.checked_mul(b) {
        Some(v) => v,
        None => {
            if (a < 0) == (b < 0) {
                proof {
                    assert(a * b > i64::MAX as int) by (nonlinear_arith)
                        requires
                            (a < 0) == (b < 0),
                            !(i64::MIN <= a * b <= i64::MAX),
                            i64::MIN as int == -0x8000_0000_0000_0000,
                            i64::MAX as int == 0x7fff_ffff_ffff_ffff,
                    ;
                }
                i64::MAX
            } else {
                proof {
                    assert(a * b < i64::MIN as int) by (nonlinear_arith)
                        requires
                            (a < 0) != (b < 0),
                            !(i64::MIN <= a * b <= i64::MAX),
                    ;
                }
                i64::MIN
            }
        },
    }
}

/// One column of a 4x4 matrix; fields are the rows, top to bottom.
#[derive(Clone, Copy, PartialEq, Eq, Structural, Debug)]
pub struct Vector4 {
    pub x: i64,
    pub y: i64,
    pub z: i64,
    pub w: i64,
}

/// A 4x4 matrix in column-major convention: `x`, `y`, `z`, `w` are the
/// four columns, each a [`Vector4`] of rows.
#[derive(Clone, Copy, PartialEq, Eq, Structural, Debug)]
pub struct Matrix4 {
    pub x: Vector4,
    pub y: Vector4,
    pub z: Vector4,
    pub w: Vector4,
}

/// Saturating four-term dot product, summed left to right.
pub open spec fn spec_dot4(a0: i64, a1: i64, a2: i64, a3: i64, b0: i64, b1: i64, b2: i64, b3: i64) -> i64 {
    sat(sat(sat(sat(a0 * b0) + sat(a1 * b1)) + sat(a2 * b2)) + sat(a3 * b3))
}

fn dot4(a0: i64, a1: i64, a2: i64, a3: i64, b0: i64, b1: i64, b2: i64, b3: i64) -> (r: i64)
    ensures
        r == spec_dot4(a0, a1, a2, a3, b0, b1, b2, b3),
{
    sat_add(sat_add(sat_add(sat_mul(a0, b0), sat_mul(a1, b1)), sat_mul(a2, b2)), sat_mul(a3, b3))
}

/// One column of the product `a * b`: `a` applied to the column `c` of `b`.
pub open spec fn spec_mul_column(a: Matrix4, c: Vector4) -> Vector4 {
    Vector4 {
        x: spec_dot4(a.x.x, a.y.x, a.z.x, a.w.x, c.x, c.y, c.z, c.w),
        y: spec_dot4(a.x.y, a.y.y, a.z.y, a.w.y, c.x, c.y, c.z, c.w),
        z: spec_dot4(a.x.z, a.y.z, a.z.z, a.w.z, c.x, c.y, c.z, c.w),
        w: spec_dot4(a.x.w, a.y.w, a.z.w, a.w.w, c.x, c.y, c.z, c.w),
    }
}

/// The matrix product `a * b`: entry `(i, j)` is the saturating dot product
/// of row `i` of `a` with column `j` of `b`.
pub open spec fn spec_mat_mul(a: Matrix4, b: Matrix4) -> Matrix4 {
    Matrix4 {
        x: spec_mul_column(a, b.x),
        y: spec_mul_column(a, b.y),
        z: spec_mul_column(a, b.z),
        w: spec_mul_column(a, b.w),
    }
}

fn mul_column(a: &Matrix4, c: &Vector4) -> (r: Vector4)
    ensures
        r == spec_mul_column(*a, *c),
{
    Vector4 {
        x: dot4(a.x.x, a.y.x, a.z.x, a.w.x, c.x, c.y, c.z, c.w),
        y: dot4(a.x.y, a.y.y, a.z.y, a.w.y, c.x, c.y, c.z, c.w),
        z: dot4(a.x.z, a.y.z, a.z.z, a.w.z, c.x, c.y, c.z, c.w),
        w: dot4(a.x.w, a.y.w, a.z.w, a.w.w, c.x, c.y, c.z, c.w),
    }
}

/// The identity matrix.
pub open spec fn spec_identity() -> Matrix4 {
    Matrix4 {
        x: Vector4 { x: 1, y: 0, z: 0, w: 0 },
        y: Vector4 { x: 0, y: 1, z: 0, w: 0 },
        z: Vector4 { x: 0, y: 0, z: 1, w: 0 },
        w: Vector4 { x: 0, y: 0, z: 0, w: 1 },
    }
}

impl Matrix4 {
    /// The identity matrix.
    pub fn identity() -> (m: Matrix4)
        ensures
            m == spec_identity(),
    {
        Matrix4 {
            x: Vector4 { x: 1, y: 0, z: 0, w: 0 },
            y: Vector4 { x: 0, y: 1, z: 0, w: 0 },
            z: Vector4 { x: 0, y: 0, z: 1, w: 0 },
            w: Vector4 { x: 0, y: 0, z: 0, w: 1 },
        }
    }

    /// Multiply `self` by `other` on the right.
    pub fn mul(&self, other: &Matrix4) -> (m: Matrix4)
        ensures
            m == spec_mat_mul(*self, *other),
    {
        Matrix4 {
            x: mul_column(self, &other.x),
            y: mul_column(self, &other.y),
            z: mul_column(self, &other.z),
            w: mul_column(self, &other.w),
        }
    }
}

} // verus!
