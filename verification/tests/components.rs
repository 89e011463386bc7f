//! Component-level behavior: entity links, local matrices, world transforms.

use transform_hierarchy::entity::Child;
use transform_hierarchy::entity::Entity;
use transform_hierarchy::math::Matrix4;
use transform_hierarchy::math::Vector4;
use transform_hierarchy::transform::LocalTransform;
use transform_hierarchy::transform::Quaternion;
use transform_hierarchy::transform::Transform;
use transform_hierarchy::transform::Vector3;

fn local(tx: i64, ty: i64, tz: i64) -> LocalTransform {
    LocalTransform {
        translation: Vector3 { x: tx, y: ty, z: tz },
        rotation: Quaternion { s: 1, x: 0, y: 0, z: 0 },
        scale: Vector3 { x: 1, y: 1, z: 1 },
    }
}

#[test]
fn child_stores_parent() {
    let a = Entity { id: 7 };
    let b = Entity { id: 9 };
    let mut c = Child::new(a);
    assert_eq!(c.parent(), a);
    c.set_parent(b);
    assert_eq!(c.parent(), b);
}

#[test]
fn default_local_is_identity() {
    let t = LocalTransform::default();
    assert_eq!(t.translation, Vector3 { x: 0, y: 0, z: 0 });
    assert_eq!(t.rotation, Quaternion { s: 1, x: 0, y: 0, z: 0 });
    assert_eq!(t.scale, Vector3 { x: 1, y: 1, z: 1 });
    assert_eq!(t.matrix(), Matrix4::identity());
}

#[test]
fn default_world_is_identity() {
    let t = Transform::default();
    assert_eq!(t.0, Matrix4::identity());
}

#[test]
fn local_matrix_translation_column() {
    let m = local(1, 2, 3).matrix();
    assert_eq!(m.w, Vector4 { x: 1, y: 2, z: 3, w: 1 });
    assert_eq!(m.x, Vector4 { x: 1, y: 0, z: 0, w: 0 });
    assert_eq!(m.y, Vector4 { x: 0, y: 1, z: 0, w: 0 });
    assert_eq!(m.z, Vector4 { x: 0, y: 0, z: 1, w: 0 });
}

#[test]
fn local_matrix_half_turn_about_x() {
    let t = LocalTransform {
        translation: Vector3 { x: 0, y: 0, z: 0 },
        rotation: Quaternion { s: 0, x: 1, y: 0, z: 0 },
        scale: Vector3 { x: 1, y: 1, z: 1 },
    };
    let m = t.matrix();
    assert_eq!(m.x, Vector4 { x: 1, y: 0, z: 0, w: 0 });
    assert_eq!(m.y, Vector4 { x: 0, y: -1, z: 0, w: 0 });
    assert_eq!(m.z, Vector4 { x: 0, y: 0, z: -1, w: 0 });
    assert_eq!(m.w, Vector4 { x: 0, y: 0, z: 0, w: 1 });
}

#[test]
fn local_matrix_scale_applied_before_rotation() {
    let t = LocalTransform {
        translation: Vector3 { x: 0, y: 0, z: 0 },
        rotation: Quaternion { s: 0, x: 1, y: 0, z: 0 },
        scale: Vector3 { x: 2, y: 3, z: 4 },
    };
    let m = t.matrix();
    assert_eq!(m.x, Vector4 { x: 2, y: 0, z: 0, w: 0 });
    assert_eq!(m.y, Vector4 { x: 0, y: -3, z: 0, w: 0 });
    assert_eq!(m.z, Vector4 { x: 0, y: 0, z: -4, w: 0 });
}

#[test]
fn matrix_product_composes_translations() {
    let a = local(1, 0, 0).matrix();
    let b = local(0, 1, 0).matrix();
    let ab = a.mul(&b);
    assert_eq!(ab.w, Vector4 { x: 1, y: 1, z: 0, w: 1 });
}

#[test]
fn matrix_product_saturates() {
    let a = local(i64::MAX, 0, 0).matrix();
    let b = local(1, 0, -1).matrix();
    let ab = a.mul(&b);
    assert_eq!(ab.w.x, i64::MAX);
    assert_eq!(ab.w.z, -1);
}

#[test]
fn zero_scale_gives_degenerate_matrix_unrejected() {
    let t = LocalTransform {
        translation: Vector3 { x: 1, y: 1, z: 1 },
        rotation: Quaternion { s: 1, x: 0, y: 0, z: 0 },
        scale: Vector3 { x: 0, y: 0, z: 0 },
    };
    let m = t.matrix();
    assert_eq!(m.x, Vector4 { x: 0, y: 0, z: 0, w: 0 });
    assert_eq!(m.y, Vector4 { x: 0, y: 0, z: 0, w: 0 });
    assert_eq!(m.z, Vector4 { x: 0, y: 0, z: 0, w: 0 });
    assert_eq!(m.w, Vector4 { x: 1, y: 1, z: 1, w: 1 });
}

#[test]
fn world_transform_from_matrix() {
    let m = local(5, 6, 7).matrix();
    let t = Transform::from(m);
    assert_eq!(t.0, m);
}
