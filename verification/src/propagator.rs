//! The transform propagator: converts each resolvable entity's local
//! transform into a world-space matrix by composing it with its parent's
//! world matrix, recomputing only entities whose local transform changed,
//! whose ancestry changed, or which have no world transform yet.

use vstd::prelude::*;
use std::collections::HashMap;
use crate::graph::distinct_ids;
use crate::graph::lemma_map_of_contains;
use crate::graph::lemma_map_of_index;
use crate::graph::map_of;
use crate::graph::parent_of;
use crate::math::Matrix4;
use crate::math::spec_mat_mul;
use crate::resolver::contains_id;
use crate::resolver::contains_key_of;
use crate::resolver::HierarchyOrder;
use crate::transform::LocalTransform;
use crate::transform::spec_default_local;
use crate::transform::spec_local_matrix;
use crate::transform::Transform;

verus! {

broadcast use vstd::std_specs::hash::group_hash_axioms;

/// The local matrix an entity contributes: the matrix of its local
/// transform, or of the identity transform if it carries none.
pub open spec fn local_matrix_of(loc: Map<u64, LocalTransform>, e: u64) -> Matrix4 {
    if loc.contains_key(e) {
        spec_local_matrix(loc[e])
    } else {
        spec_local_matrix(spec_default_local())
    }
}

/// The world-transform store holds `e` in `w1` exactly as it did in `w0`.
pub open spec fn unchanged_at(w0: Map<u64, Transform>, w1: Map<u64, Transform>, e: u64) -> bool {
    w1.contains_key(e) == w0.contains_key(e) && (w0.contains_key(e) ==> w1[e] == w0[e])
}

/// The world transform a recomputed entity receives: its parent's final
/// world matrix composed on the left with its own local matrix, or the
/// local matrix alone for a root.
pub open spec fn recomputed_world(
    m: Map<u64, Option<u64>>,
    loc: Map<u64, LocalTransform>,
    w1: Map<u64, Transform>,
    e: u64,
) -> Transform {
    match parent_of(m, e) {
        Some(p) => Transform(spec_mat_mul(w1[p].0, local_matrix_of(loc, e))),
        None => Transform(local_matrix_of(loc, e)),
    }
}

/// What one propagation pass does, pointwise. `order` is the hierarchy
/// order, `m` the parent map, `loc` the local transforms, `dirty` the
/// entities whose local transform changed since the last pass, `w0` and
/// `w1` the world-transform store before and after, and `upd` the entities
/// the pass recomputed (marked world-dirty).
///
/// An entity outside the order (in particular one with cyclic ancestry) is
/// never recomputed and keeps its stored world transform. An ordered
/// entity is recomputed exactly when it is locally dirty, has no stored
/// world transform yet, or its parent was recomputed this pass; it then
/// receives its parent's world matrix composed with its local matrix.
/// Every other entity keeps its stored value.
pub open spec fn pass_ok(
    order: Seq<u64>,
    m: Map<u64, Option<u64>>,
    loc: Map<u64, LocalTransform>,
    dirty: Set<u64>,
    w0: Map<u64, Transform>,
    w1: Map<u64, Transform>,
    upd: Set<u64>,
) -> bool {
    &&& forall|e: u64|
        !(#[trigger] order.contains(e)) ==> !upd.contains(e) && unchanged_at(w0, w1, e)
    &&& forall|i: int|
        0 <= i < order.len() ==> {
            let e = #[trigger] order[i];
            &&& (upd.contains(e) <==> dirty.contains(e) || !w0.contains_key(e) || (parent_of(
                m,
                e,
            ) is Some && upd.contains(parent_of(m, e).unwrap())))
            &&& (upd.contains(e) ==> w1.contains_key(e) && w1[e] == recomputed_world(
                m,
                loc,
                w1,
                e,
            ))
            &&& (!upd.contains(e) ==> w0.contains_key(e) && unchanged_at(w0, w1, e))
        }
}

/// The position of `e` in an order that holds it exactly once.
pub open spec fn order_position(order: Seq<u64>, e: u64) -> int {
    choose|i: int| 0 <= i < order.len() && order[i] == e
}

/// Looks up the resolved parent of `e`: the linked parent when that parent
/// is itself listed, `None` when `e` has no link or the link dangles.
fn resolved_parent(links: &Vec<(u64, Option<u64>)>, e: u64) -> (r: Option<u64>)
    requires
        distinct_ids(links@),
    ensures
        r == parent_of(map_of(links@), e),
{
    let mut i: usize = 0;
    while i < links.len()
        invariant
            distinct_ids(links@),
            0 <= i <= links@.len(),
            forall|j: int| 0 <= j < i ==> (#[trigger] links@[j]).0 != e,
        decreases links@.len() - i,
    {
        if links[i].0 == e {
            proof {
                lemma_map_of_index(links@, i as int);
            }
            return match links[i].1 {
                Some(p) => {
                    if contains_key_of(links, p) {
                        Some(p)
                    } else {
                        None
                    }
                },
                None => None,
            };
        }
        i += 1;
    }
    proof {
        lemma_map_of_contains(links@, e);
    }
    None
}

/// Looks up the local transform of `e`, or the identity transform if `e`
/// carries none.
fn local_of(locals: &Vec<(u64, LocalTransform)>, e: u64) -> (r: LocalTransform)
    requires
        distinct_ids(locals@),
    ensures
        r == (if map_of(locals@).contains_key(e) {
            map_of(locals@)[e]
        } else {
            spec_default_local()
        }),
{
    let mut i: usize = 0;
    while i < locals.len()
        invariant
            distinct_ids(locals@),
            0 <= i <= locals@.len(),
            forall|j: int| 0 <= j < i ==> (#[trigger] locals@[j]).0 != e,
        decreases locals@.len() - i,
    {
        if locals[i].0 == e {
            proof {
                lemma_map_of_index(locals@, i as int);
            }
            return locals[i].1;
        }
        i += 1;
    }
    proof {
        lemma_map_of_contains(locals@, e);
    }
    LocalTransform::default()
}

/// The control component of a pass: owns the world-transform store, and
/// each update pass recomputes the world transform of every entity whose
/// local transform or ancestry changed, in hierarchy order.
pub struct TransformPropagator {
    worlds: HashMap<u64, Transform>,
}

impl TransformPropagator {
    /// The world-transform store: each entity's current world matrix.
    pub closed spec fn view(&self) -> Map<u64, Transform> {
        self.worlds@
    }

    /// A propagator with an empty world-transform store.
    pub fn new() -> (s: Self)
        ensures
            s@ == Map::<u64, Transform>::empty(),
    {
        TransformPropagator { worlds: HashMap::new() }
    }

    /// The stored world transform of `e`, if one has been computed.
    pub fn world(&self, e: u64) -> (r: Option<Transform>)
        ensures
            r == (if self@.contains_key(e) {
                Some(self@[e])
            } else {
                None::<Transform>
            }),
    {
        match self.worlds.get(&e) {
            Some(t) => Some(*t),
            None => None,
        }
    }

    /// One propagation pass over `h`, which must have been resolved from
    /// `links`. `locals` carries the local transforms (an entity without
    /// one counts as identity) and `dirty` the entities whose local
    /// transform changed since the pass that last consumed it.
    ///
    /// Returns the entities recomputed this pass, in hierarchy order.
    /// Entities in the cycle set are skipped entirely: their stored world
    /// transform is left unchanged.
    #[verifier::rlimit(100)]
    pub fn propagate(
        &mut self,
        h: &HierarchyOrder,
        links: &Vec<(u64, Option<u64>)>,
        locals: &Vec<(u64, LocalTransform)>,
        dirty: &Vec<u64>,
    ) -> (updated: Vec<u64>)
        requires
            distinct_ids(links@),
            distinct_ids(locals@),
            h.wf(map_of(links@)),
        ensures
            pass_ok(
                h.order@,
                map_of(links@),
                map_of(locals@),
                dirty@.to_set(),
                old(self)@,
                final(self)@,
                updated@.to_set(),
            ),
            updated@.no_duplicates(),
            final(self)@.dom() == old(self)@.dom() + updated@.to_set(),
            forall|a: int, b: int|
                0 <= a < b < updated@.len() ==> order_position(h.order@, #[trigger] updated@[a])
                    < order_position(h.order@, #[trigger] updated@[b]),
    {
        let ghost m = map_of(links@);
        let ghost loc = map_of(locals@);
        let ghost w0 = self.worlds@;
        let ghost ord = h.order@;
        let mut updated: Vec<u64> = Vec::new();
        let mut i: usize = 0;
        while i < h.order.len()
            invariant
                distinct_ids(links@),
                distinct_ids(locals@),
                h.wf(m),
                m == map_of(links@),
                loc == map_of(locals@),
                ord == h.order@,
                w0 == old(self)@,
                0 <= i <= ord.len(),
                updated@.no_duplicates(),
                forall|x: u64|
                    #[trigger] updated@.contains(x) ==> ord.subrange(0, i as int).contains(x),
                forall|k: int|
                    0 <= k < updated@.len() ==> 0 <= order_position(ord, #[trigger] updated@[k])
                        < i && ord[order_position(ord, updated@[k])] == updated@[k],
                forall|a: int, b: int|
                    0 <= a < b < updated@.len() ==> order_position(ord, #[trigger] updated@[a])
                        < order_position(ord, #[trigger] updated@[b]),
                forall|e: u64|
                    !ord.subrange(0, i as int).contains(e) ==> !updated@.contains(e)
                        && #[trigger] unchanged_at(w0, self@, e),
                forall|j: int|
                    0 <= j < i ==> self@.contains_key(#[trigger] ord[j]),
                forall|j: int|
                    0 <= j < i ==> {
                        let e = #[trigger] ord[j];
                        &&& (updated@.contains(e) <==> dirty@.contains(e) || !w0.contains_key(e)
                            || (parent_of(m, e) is Some && updated@.contains(
                            parent_of(m, e).unwrap(),
                        )))
                        &&& (updated@.contains(e) ==> self@.contains_key(e) && self@[e]
                            == recomputed_world(m, loc, self@, e))
                        &&& (!updated@.contains(e) ==> w0.contains_key(e) && unchanged_at(
                            w0,
                            self@,
                            e,
                        ))
                    },
                self@.dom() == w0.dom() + updated@.to_set(),
            decreases ord.len() - i,
        {
            let e = h.order[i];
            proof {
                assert(ord[i as int] == e);
                assert(m.contains_key(e));
            }
            let par = resolved_parent(links, e);
            let mut world_dirty = contains_id(dirty, e);
            if !world_dirty && !self.worlds.contains_key(&e) {
                world_dirty = true;
            }
            match par {
                Some(p) => {
                    if contains_id(&updated, p) {
                        world_dirty = true;
                    }
                },
                None => {},
            }
            proof {
                assert(world_dirty == (dirty@.contains(e) || !self@.contains_key(e) || (parent_of(
                    m,
                    e,
                ) is Some && updated@.contains(parent_of(m, e).unwrap()))));
                // The stored state of an unprocessed entity equals its
                // state before the pass.
                assert(!ord.subrange(0, i as int).contains(e)) by {
                    if ord.subrange(0, i as int).contains(e) {
                        let j = choose|j: int| 0 <= j < i && ord.subrange(0, i as int)[j] == e;
                        assert(ord[j] == ord[i as int]);
                    }
                }
                assert(unchanged_at(w0, self@, e));
                assert(!updated@.contains(e));
            }
            let ghost pre = self@;
            let ghost pre_upd = updated@;
            if world_dirty {
                let lm = local_of(locals, e).matrix();
                let w = match par {
                    Some(p) => {
                        proof {
                            // The parent stands earlier in the order, so
                            // its world transform is already stored.
                            assert(parent_of(m, e) == Some(p));
                            assert(ord.subrange(0, i as int).contains(p));
                            let j = choose|j: int|
                                0 <= j < i && ord.subrange(0, i as int)[j] == p;
                            assert(ord[j] == p);
                            assert(self@.contains_key(p));
                        }
                        let pw = self.worlds.get(&p).unwrap();
                        Transform(pw.0.mul(&lm))
                    },
                    None => Transform(lm),
                };
                self.worlds.insert(e, w);
                updated.push(e);
                proof {
                    assert(updated@ == pre_upd.push(e));
                    assert(self@ == pre.insert(e, w));
                    assert(self@[e] == recomputed_world(m, loc, self@, e)) by {
                        if parent_of(m, e) is Some {
                            let p = parent_of(m, e).unwrap();
                            assert(p != e);
                            assert(self@[p] == pre[p]);
                        }
                    }
                }
            }
            proof {
                let prefix = ord.subrange(0, i as int);
                let prefix1 = ord.subrange(0, i as int + 1);
                assert(prefix1 == prefix.push(e));
                if world_dirty {
                    assert(updated@ == pre_upd.push(e));
                    assert forall|y: u64| pre_upd.contains(y) implies updated@.contains(y) by {
                        let k = choose|k: int| 0 <= k < pre_upd.len() && pre_upd[k] == y;
                        assert(updated@[k] == y);
                    }
                    assert forall|y: u64| #[trigger] updated@.contains(y)
                        implies pre_upd.contains(y) || y == e by {
                        let k = choose|k: int| 0 <= k < updated@.len() && updated@[k] == y;
                        if k < pre_upd.len() {
                            assert(pre_upd[k] == y);
                        }
                    }
                    // The recomputed entity's position is the current one,
                    // so positions keep strictly increasing.
                    assert(order_position(ord, e) == i as int) by {
                        assert(ord[i as int] == e);
                        assert(exists|x: int| 0 <= x < ord.len() && ord[x] == e);
                        let x = order_position(ord, e);
                        assert(0 <= x < ord.len() && ord[x] == e);
                        assert(ord.no_duplicates());
                    }
                    assert forall|k: int| 0 <= k < updated@.len() implies 0 <= order_position(
                        ord,
                        #[trigger] updated@[k],
                    ) < i + 1 && ord[order_position(ord, updated@[k])] == updated@[k] by {
                        if k < pre_upd.len() {
                            assert(updated@[k] == pre_upd[k]);
                        } else {
                            assert(updated@[k] == e);
                        }
                    }
                    assert forall|a: int, b: int| 0 <= a < b < updated@.len() implies order_position(
                        ord,
                        #[trigger] updated@[a],
                    ) < order_position(ord, #[trigger] updated@[b]) by {
                        assert(updated@[a] == pre_upd[a]);
                        if b == updated@.len() - 1 {
                            assert(updated@[b] == e);
                            assert(order_position(ord, updated@[a]) < i as int);
                        } else {
                            assert(updated@[b] == pre_upd[b]);
                        }
                    }
                } else {
                    assert(updated@ == pre_upd);
                }
                // Processed entities keep their conditions: the pushed
                // entity is distinct from every earlier one and from
                // every earlier parent.
                assert forall|x: u64| #[trigger] updated@.contains(x)
                    implies prefix1.contains(x) by {
                    if pre_upd.contains(x) {
                        assert(prefix.contains(x));
                        let j = choose|j: int| 0 <= j < prefix.len() && prefix[j] == x;
                        assert(prefix1[j] == x);
                    } else {
                        assert(x == e);
                        assert(prefix1[i as int] == e);
                    }
                }
                assert forall|x: u64| !prefix1.contains(x)
                    implies !updated@.contains(x) && unchanged_at(w0, self@, x) by {
                    assert(!prefix.contains(x)) by {
                        if prefix.contains(x) {
                            let j = choose|j: int| 0 <= j < prefix.len() && prefix[j] == x;
                            assert(prefix1[j] == x);
                        }
                    }
                    assert(x != e) by {
                        assert(prefix1[i as int] == e);
                    }
                    assert(unchanged_at(w0, pre, x));
                }
                assert forall|j: int| 0 <= j < i + 1 implies {
                    let x = #[trigger] ord[j];
                    &&& (updated@.contains(x) <==> dirty@.contains(x) || !w0.contains_key(x) || (
                    parent_of(m, x) is Some && updated@.contains(parent_of(m, x).unwrap())))
                    &&& (updated@.contains(x) ==> self@.contains_key(x) && self@[x]
                        == recomputed_world(m, loc, self@, x))
                    &&& (!updated@.contains(x) ==> w0.contains_key(x) && unchanged_at(
                        w0,
                        self@,
                        x,
                    ))
                } by {
                    let x = ord[j];
                    if j < i {
                        assert(x != e) by {
                            assert(ord[j] == ord[i as int] ==> j == i);
                        }
                        if parent_of(m, x) is Some {
                            let px = parent_of(m, x).unwrap();
                            assert(ord.subrange(0, j).contains(px));
                            let jj = choose|jj: int| 0 <= jj < j && ord.subrange(0, j)[jj] == px;
                            assert(ord[jj] == px);
                            assert(px != e) by {
                                assert(ord[jj] == ord[i as int] ==> jj == i);
                            }
                            assert(updated@.contains(px) == pre_upd.contains(px)) by {
                                if updated@.contains(px) && !pre_upd.contains(px) {
                                    assert(px == e);
                                }
                            }
                        }
                        assert(updated@.contains(x) == pre_upd.contains(x)) by {
                            if updated@.contains(x) && !pre_upd.contains(x) {
                                assert(x == e);
                            }
                        }
                        if pre_upd.contains(x) {
                            assert(pre.contains_key(x) && pre[x] == recomputed_world(
                                m,
                                loc,
                                pre,
                                x,
                            ));
                            assert(self@.contains_key(x) && self@[x] == pre[x]) by {
                                assert(x != e);
                            }
                            if parent_of(m, x) is Some {
                                let px = parent_of(m, x).unwrap();
                                assert(self@[px] == pre[px]) by {
                                    assert(px != e);
                                }
                            }
                        }
                    } else {
                        assert(x == e);
                        assert(unchanged_at(w0, pre, e));
                        if world_dirty {
                            assert(updated@.last() == e);
                            assert(updated@.contains(e));
                        } else {
                            assert(!updated@.contains(e));
                            assert(w0.contains_key(e));
                            assert(unchanged_at(w0, self@, e));
                        }
                        if parent_of(m, e) is Some {
                            let px = parent_of(m, e).unwrap();
                            assert(ord.subrange(0, i as int).contains(px));
                            let jj = choose|jj: int|
                                0 <= jj < i && ord.subrange(0, i as int)[jj] == px;
                            assert(ord[jj] == px);
                            assert(px != e) by {
                                assert(ord[jj] == ord[i as int] ==> jj == i);
                            }
                            assert(updated@.contains(px) == pre_upd.contains(px)) by {
                                if updated@.contains(px) && !pre_upd.contains(px) {
                                    assert(px == e);
                                }
                            }
                        }
                        assert(updated@.contains(e) <==> dirty@.contains(e) || !w0.contains_key(e)
                            || (parent_of(m, e) is Some && updated@.contains(
                            parent_of(m, e).unwrap(),
                        )));
                        if world_dirty {
                            assert(self@.contains_key(e));
                            assert(self@[e] == recomputed_world(m, loc, self@, e));
                        }
                    }
                }
                assert(self@.dom() == w0.dom() + updated@.to_set()) by {
                    if world_dirty {
                        assert(updated@.to_set() == pre_upd.to_set().insert(e)) by {
                            assert forall|y: u64| updated@.to_set().contains(y)
                                <==> pre_upd.to_set().insert(e).contains(y) by {
                                if updated@.contains(y) {
                                    if !pre_upd.contains(y) {
                                        assert(y == e);
                                    }
                                } else {
                                }
                                if pre_upd.contains(y) {
                                    assert(updated@.contains(y));
                                }
                                if y == e {
                                    assert(updated@.contains(e));
                                }
                            }
                            assert(updated@.to_set() =~= pre_upd.to_set().insert(e));
                        }
                        assert(self@.dom() =~= w0.dom() + updated@.to_set());
                    }
                }
            }
            i += 1;
        }
        proof {
            assert(ord.subrange(0, ord.len() as int) == ord);
            assert forall|e: u64| !ord.contains(e)
                implies !updated@.to_set().contains(e) && unchanged_at(w0, self@, e) by {
                assert(!updated@.contains(e));
            }
        }
        updated
    }
}

} // verus!
