//! Resolution and propagation: ordering, cycles, dangling parents, dirty
//! tracking, and the concrete world matrices the spec demands.

use transform_hierarchy::math::Vector4;
use transform_hierarchy::propagator::TransformPropagator;
use transform_hierarchy::resolver::HierarchyResolver;
use transform_hierarchy::transform::LocalTransform;
use transform_hierarchy::transform::Quaternion;
use transform_hierarchy::transform::Vector3;

fn local(tx: i64, ty: i64, tz: i64) -> LocalTransform {
    LocalTransform {
        translation: Vector3 { x: tx, y: ty, z: tz },
        rotation: Quaternion { s: 1, x: 0, y: 0, z: 0 },
        scale: Vector3 { x: 1, y: 1, z: 1 },
    }
}

fn position(order: &[u64], e: u64) -> usize {
    order.iter().position(|&x| x == e).expect("entity missing from order")
}

#[test]
fn empty_graph_resolves_to_nothing() {
    let links: Vec<(u64, Option<u64>)> = vec![];
    let h = HierarchyResolver::resolve(&links);
    assert_eq!(h.order, Vec::<u64>::new());
    assert_eq!(h.cycles, Vec::<u64>::new());
    let mut prop = TransformPropagator::new();
    let updated = prop.propagate(&h, &links, &vec![], &vec![]);
    assert_eq!(updated, Vec::<u64>::new());
}

#[test]
fn acyclic_graph_is_fully_ordered() {
    // 3 is the root; 2 under 3; 1 and 4 under 2.
    let links: Vec<(u64, Option<u64>)> =
        vec![(1, Some(2)), (4, Some(2)), (2, Some(3)), (3, None)];
    let h = HierarchyResolver::resolve(&links);
    assert_eq!(h.cycles, Vec::<u64>::new());
    assert_eq!(h.order.len(), 4);
    assert!(position(&h.order, 3) < position(&h.order, 2));
    assert!(position(&h.order, 2) < position(&h.order, 1));
    assert!(position(&h.order, 2) < position(&h.order, 4));
}

#[test]
fn resolution_is_reproducible_across_input_orders() {
    let a: Vec<(u64, Option<u64>)> = vec![(1, None), (2, None), (3, Some(1))];
    let b: Vec<(u64, Option<u64>)> = vec![(3, Some(1)), (2, None), (1, None)];
    let ha = HierarchyResolver::resolve(&a);
    let hb = HierarchyResolver::resolve(&b);
    assert_eq!(ha.order, hb.order);
    assert_eq!(ha.order, vec![1, 2, 3]);
}

#[test]
fn cycle_entities_are_reported_not_ordered() {
    // 1 and 2 close a cycle; 3 hangs under the cycle; 4 stands alone.
    let links: Vec<(u64, Option<u64>)> =
        vec![(1, Some(2)), (2, Some(1)), (3, Some(1)), (4, None)];
    let h = HierarchyResolver::resolve(&links);
    assert_eq!(h.order, vec![4]);
    let mut cycles = h.cycles.clone();
    cycles.sort();
    assert_eq!(cycles, vec![1, 2, 3]);
}

#[test]
fn self_cycle_is_reported_and_world_untouched() {
    // First pass: 8 is an ordinary root, so it gets a world transform.
    let free: Vec<(u64, Option<u64>)> = vec![(8, None)];
    let locals = vec![(8, local(2, 0, 0))];
    let h = HierarchyResolver::resolve(&free);
    let mut prop = TransformPropagator::new();
    prop.propagate(&h, &free, &locals, &vec![]);
    let before = prop.world(8).expect("root was propagated");

    // Now 8 is made its own parent: it lands in the cycle set and its
    // stored world transform keeps its prior value.
    let looped: Vec<(u64, Option<u64>)> = vec![(8, Some(8))];
    let h2 = HierarchyResolver::resolve(&looped);
    assert_eq!(h2.order, Vec::<u64>::new());
    assert_eq!(h2.cycles, vec![8]);
    let updated = prop.propagate(&h2, &looped, &locals, &vec![8]);
    assert_eq!(updated, Vec::<u64>::new());
    assert_eq!(prop.world(8), Some(before));
}

#[test]
fn never_propagated_cycle_entity_has_no_world() {
    let looped: Vec<(u64, Option<u64>)> = vec![(9, Some(9))];
    let h = HierarchyResolver::resolve(&looped);
    let mut prop = TransformPropagator::new();
    prop.propagate(&h, &looped, &vec![], &vec![]);
    assert_eq!(prop.world(9), None);
}

#[test]
fn dangling_parent_becomes_root() {
    // 5's parent 6 is not listed: it was destroyed, so 5 counts as a root.
    let links: Vec<(u64, Option<u64>)> = vec![(5, Some(6))];
    let h = HierarchyResolver::resolve(&links);
    assert_eq!(h.order, vec![5]);
    assert_eq!(h.cycles, Vec::<u64>::new());
    let locals = vec![(5, local(3, 0, 0))];
    let mut prop = TransformPropagator::new();
    prop.propagate(&h, &links, &locals, &vec![]);
    let w = prop.world(5).expect("root was propagated");
    assert_eq!(w.0.w, Vector4 { x: 3, y: 0, z: 0, w: 1 });
}

#[test]
fn root_and_child_world_translations() {
    // Root A translates by (1,0,0); child B of A by (0,1,0). A's world
    // matrix translates by (1,0,0) and B's by (1,1,0).
    let links: Vec<(u64, Option<u64>)> = vec![(1, None), (2, Some(1))];
    let locals = vec![(1, local(1, 0, 0)), (2, local(0, 1, 0))];
    let h = HierarchyResolver::resolve(&links);
    let mut prop = TransformPropagator::new();
    let updated = prop.propagate(&h, &links, &locals, &vec![]);
    assert_eq!(updated, vec![1, 2]);
    let wa = prop.world(1).expect("root was propagated");
    let wb = prop.world(2).expect("child was propagated");
    assert_eq!(wa.0.w, Vector4 { x: 1, y: 0, z: 0, w: 1 });
    assert_eq!(wb.0.w, Vector4 { x: 1, y: 1, z: 0, w: 1 });
}

#[test]
fn missing_local_transform_counts_as_identity() {
    let links: Vec<(u64, Option<u64>)> = vec![(1, None), (2, Some(1))];
    let locals = vec![(1, local(4, 5, 6))];
    let h = HierarchyResolver::resolve(&links);
    let mut prop = TransformPropagator::new();
    prop.propagate(&h, &links, &locals, &vec![]);
    let wb = prop.world(2).expect("child was propagated");
    assert_eq!(wb.0.w, Vector4 { x: 4, y: 5, z: 6, w: 1 });
}

#[test]
fn second_pass_with_no_changes_updates_nothing() {
    let links: Vec<(u64, Option<u64>)> = vec![(1, None), (2, Some(1)), (3, Some(2))];
    let locals = vec![(1, local(1, 0, 0)), (2, local(0, 2, 0)), (3, local(0, 0, 3))];
    let h = HierarchyResolver::resolve(&links);
    let mut prop = TransformPropagator::new();
    let first = prop.propagate(&h, &links, &locals, &vec![]);
    assert_eq!(first.len(), 3);
    let worlds: Vec<_> = vec![prop.world(1), prop.world(2), prop.world(3)];
    let second = prop.propagate(&h, &links, &locals, &vec![]);
    assert_eq!(second, Vec::<u64>::new());
    assert_eq!(worlds, vec![prop.world(1), prop.world(2), prop.world(3)]);
}

#[test]
fn dirty_root_updates_descendants_only() {
    // R=1 with children C=2 and grandchild G=3; D=4 is unrelated.
    let links: Vec<(u64, Option<u64>)> =
        vec![(1, None), (2, Some(1)), (3, Some(2)), (4, None)];
    let mut locals =
        vec![(1, local(1, 0, 0)), (2, local(0, 1, 0)), (3, local(0, 0, 1)), (4, local(9, 9, 9))];
    let h = HierarchyResolver::resolve(&links);
    let mut prop = TransformPropagator::new();
    prop.propagate(&h, &links, &locals, &vec![]);
    let d_before = prop.world(4);

    // Only the root's translation changes.
    locals[0] = (1, local(10, 0, 0));
    let updated = prop.propagate(&h, &links, &locals, &vec![1]);
    assert_eq!(updated, vec![1, 2, 3]);
    assert_eq!(prop.world(4), d_before);
    let wg = prop.world(3).expect("grandchild was propagated");
    assert_eq!(wg.0.w, Vector4 { x: 10, y: 1, z: 1, w: 1 });
}

#[test]
fn new_entity_is_computed_without_being_dirty() {
    let links: Vec<(u64, Option<u64>)> = vec![(1, None)];
    let locals = vec![(1, local(1, 2, 3))];
    let h = HierarchyResolver::resolve(&links);
    let mut prop = TransformPropagator::new();
    let updated = prop.propagate(&h, &links, &locals, &vec![]);
    assert_eq!(updated, vec![1]);
}
