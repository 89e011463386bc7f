//! Local and world transform components.

use vstd::prelude::*;
use crate::math::Matrix4;
use crate::math::Vector4;
use crate::math::sat;
use crate::math::sat_add;
use crate::math::sat_mul;
use crate::math::sat_sub;
use crate::math::spec_identity;

verus! {

/// A translation or scale vector, one named field per axis.
#[derive(Clone, Copy, PartialEq, Eq, Structural, Debug)]
pub struct Vector3 {
    pub x: i64,
    pub y: i64,
    pub z: i64,
}

/// A rotation quaternion: `s` is the scalar part (often written `w`),
/// `x`, `y`, `z` the vector part. Expected normalized; a non-unit
/// quaternion is propagated as-is and yields a degenerate matrix.
#[derive(Clone, Copy, PartialEq, Eq, Structural, Debug)]
pub struct Quaternion {
    pub s: i64,
    pub x: i64,
    pub y: i64,
    pub z: i64,
}

/// Local position, rotation, and scale, each in the parent's coordinate
/// frame (or the world frame if the entity has no parent).
#[derive(Clone, Copy, PartialEq, Eq, Structural, Debug)]
pub struct LocalTransform {
    /// Translation/position vector.
    pub translation: Vector3,
    /// Rotation quaternion.
    pub rotation: Quaternion,
    /// Scale vector, applied before the rotation.
    pub scale: Vector3,
}

/// Diagonal rotation-matrix entry `1 - 2*(u^2 + v^2)`, saturating.
pub open spec fn spec_rot_diag(u: i64, v: i64) -> i64 {
    sat(1 - sat(2 * sat(sat(u * u) + sat(v * v))))
}

/// Off-diagonal rotation-matrix entry `2*(a*b + c*d)`, saturating.
pub open spec fn spec_rot_plus(a: i64, b: i64, c: i64, d: i64) -> i64 {
    sat(2 * sat(sat(a * b) + sat(c * d)))
}

/// Off-diagonal rotation-matrix entry `2*(a*b - c*d)`, saturating.
pub open spec fn spec_rot_minus(a: i64, b: i64, c: i64, d: i64) -> i64 {
    sat(2 * sat(sat(a * b) - sat(c * d)))
}

fn rot_diag(u: i64, v: i64) -> (r: i64)
    ensures
        r == spec_rot_diag(u, v),
{
    sat_sub(1, sat_mul(2, sat_add(sat_mul(u, u), sat_mul(v, v))))
}

fn rot_plus(a: i64, b: i64, c: i64, d: i64) -> (r: i64)
    ensures
        r == spec_rot_plus(a, b, c, d),
{
    sat_mul(2, sat_add(sat_mul(a, b), sat_mul(c, d)))
}

fn rot_minus(a: i64, b: i64, c: i64, d: i64) -> (r: i64)
    ensures
        r == spec_rot_minus(a, b, c, d),
{
    sat_mul(2, sat_sub(sat_mul(a, b), sat_mul(c, d)))
}

/// The local object matrix of a transform: the rotation matrix built from
/// the quaternion, with each column scaled by the matching scale component
/// (scale applied before rotation), and the translation in the last column.
pub open spec fn spec_local_matrix(t: LocalTransform) -> Matrix4 {
    Matrix4 {
        x: Vector4 {
            x: sat(spec_rot_diag(t.rotation.y, t.rotation.z) * t.scale.x),
            y: sat(spec_rot_plus(t.rotation.x, t.rotation.y, t.rotation.z, t.rotation.s) * t.scale.x),
            z: sat(spec_rot_minus(t.rotation.x, t.rotation.z, t.rotation.y, t.rotation.s) * t.scale.x),
            w: 0,
        },
        y: Vector4 {
            x: sat(spec_rot_minus(t.rotation.x, t.rotation.y, t.rotation.z, t.rotation.s) * t.scale.y),
            y: sat(spec_rot_diag(t.rotation.x, t.rotation.z) * t.scale.y),
            z: sat(spec_rot_plus(t.rotation.y, t.rotation.z, t.rotation.x, t.rotation.s) * t.scale.y),
            w: 0,
        },
        z: Vector4 {
            x: sat(spec_rot_plus(t.rotation.x, t.rotation.z, t.rotation.y, t.rotation.s) * t.scale.z),
            y: sat(spec_rot_minus(t.rotation.y, t.rotation.z, t.rotation.x, t.rotation.s) * t.scale.z),
            z: sat(spec_rot_diag(t.rotation.x, t.rotation.y) * t.scale.z),
            w: 0,
        },
        w: Vector4 { x: t.translation.x, y: t.translation.y, z: t.translation.z, w: 1 },
    }
}

/// The identity local transform: zero translation, identity rotation,
/// unit scale.
pub open spec fn spec_default_local() -> LocalTransform {
    LocalTransform {
        translation: Vector3 { x: 0, y: 0, z: 0 },
        rotation: Quaternion { s: 1, x: 0, y: 0, z: 0 },
        scale: Vector3 { x: 1, y: 1, z: 1 },
    }
}

impl LocalTransform {
    /// Returns the local object matrix for the transform.
    ///
    /// Combined with the parent's world [`Transform`] it gives the world
    /// matrix for the current entity. The order is fixed: scale, then
    /// rotate, then translate.
    pub fn matrix(&self) -> (m: Matrix4)
        ensures
            m == spec_local_matrix(*self),
    {
        let q = self.rotation;
        let s = self.scale;
        Matrix4 {
            x: Vector4 {
                x: sat_mul(rot_diag(q.y, q.z), s.x),
                y: sat_mul(rot_plus(q.x, q.y, q.z, q.s), s.x),
                z: sat_mul(rot_minus(q.x, q.z, q.y, q.s), s.x),
                w: 0,
            },
            y: Vector4 {
                x: sat_mul(rot_minus(q.x, q.y, q.z, q.s), s.y),
                y: sat_mul(rot_diag(q.x, q.z), s.y),
                z: sat_mul(rot_plus(q.y, q.z, q.x, q.s), s.y),
                w: 0,
            },
            z: Vector4 {
                x: sat_mul(rot_plus(q.x, q.z, q.y, q.s), s.z),
                y: sat_mul(rot_minus(q.y, q.z, q.x, q.s), s.z),
                z: sat_mul(rot_diag(q.x, q.y), s.z),
                w: 0,
            },
            w: Vector4 { x: self.translation.x, y: self.translation.y, z: self.translation.z, w: 1 },
        }
    }
}

impl Default for LocalTransform {
    /// The identity transform.
    fn default() -> (t: LocalTransform)
        ensures
            t == spec_default_local(),
    {
        LocalTransform {
            translation: Vector3 { x: 0, y: 0, z: 0 },
            rotation: Quaternion { s: 1, x: 0, y: 0, z: 0 },
            scale: Vector3 { x: 1, y: 1, z: 1 },
        }
    }
}

/// World-space transformation of an entity (transform from the origin):
/// the composition of its local matrix with every ancestor's, written by
/// the propagator and only read by other systems.
#[derive(Clone, Copy, PartialEq, Eq, Structural, Debug)]
pub struct Transform(pub Matrix4);

impl Default for Transform {
    /// The identity world transform.
    fn default() -> (t: Transform)
        ensures
            t == Transform(spec_identity()),
    {
        Transform(Matrix4::identity())
    }
}

impl From<Matrix4> for Transform {
    fn from(matrix: Matrix4) -> (t: Transform) {
        Transform(matrix)
    }
}

impl vstd::std_specs::convert::FromSpecImpl<Matrix4> for Transform {
    open spec fn obeys_from_spec() -> bool {
        true
    }

    open spec fn from_spec(matrix: Matrix4) -> Transform {
        Transform(matrix)
    }
}

} // verus!
