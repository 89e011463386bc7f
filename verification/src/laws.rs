//! The laws of resolution and propagation, stated over the spec functions
//! the public contracts use and proved once and for all.

use vstd::prelude::*;
use crate::graph::acyclic;
use crate::graph::ancestor_at;
use crate::graph::has_ancestor;
use crate::graph::lemma_ancestor_compose;
use crate::graph::lemma_ancestor_live;
use crate::graph::lemma_on_cycle_not_resolvable;
use crate::graph::on_cycle;
use crate::graph::parent_of;
use crate::graph::resolvable;
use crate::graph::resolvable_within;
use crate::math::spec_mat_mul;
use crate::propagator::local_matrix_of;
use crate::propagator::pass_ok;
use crate::propagator::unchanged_at;
use crate::resolver::HierarchyOrder;
use crate::resolver::least_ready;
use crate::transform::LocalTransform;
use crate::transform::Transform;

verus! {

/// An order is parent-closed: each ordered entity is live, appears once,
/// and its resolved parent (if any) stands strictly earlier.
pub open spec fn parent_closed(order: Seq<u64>, m: Map<u64, Option<u64>>) -> bool {
    &&& order.no_duplicates()
    &&& forall|i: int| 0 <= i < order.len() ==> m.contains_key(#[trigger] order[i])
    &&& forall|i: int|
        0 <= i < order.len() && parent_of(m, #[trigger] order[i]) is Some ==> order.subrange(
            0,
            i,
        ).contains(parent_of(m, order[i]).unwrap())
}

/// The order produced by a resolution pass holds exactly the resolvable
/// entities, and the cycle set exactly the others.
pub open spec fn resolution_of(h: &HierarchyOrder, m: Map<u64, Option<u64>>) -> bool {
    &&& h.wf(m)
    &&& forall|e: u64| #[trigger] h.order@.contains(e) <==> m.contains_key(e) && resolvable(m, e)
    &&& forall|e: u64| #[trigger] h.cycles@.contains(e) <==> m.contains_key(e) && !resolvable(m, e)
}

/// An order is canonical: each position holds the least entity that was
/// ready once everything before it was placed.
pub open spec fn canonical(order: Seq<u64>, m: Map<u64, Option<u64>>) -> bool {
    forall|i: int|
        0 <= i < order.len() ==> least_ready(m, order.subrange(0, i), #[trigger] order[i])
}

/// Equal-length prefixes of two canonical orders over the same parent map
/// are equal: at each step both pick the least ready entity.
proof fn lemma_canonical_prefix(o1: Seq<u64>, o2: Seq<u64>, m: Map<u64, Option<u64>>, i: int)
    requires
        canonical(o1, m),
        canonical(o2, m),
        0 <= i <= o1.len(),
        i <= o2.len(),
    ensures
        o1.subrange(0, i) =~= o2.subrange(0, i),
    decreases i,
{
    if i > 0 {
        lemma_canonical_prefix(o1, o2, m, i - 1);
        let placed = o1.subrange(0, i - 1);
        assert(o2.subrange(0, i - 1) =~= placed);
        let a = o1[i - 1];
        let b = o2[i - 1];
        assert(least_ready(m, placed, a));
        assert(o2.subrange(0, i - 1) == placed);
        assert(least_ready(m, placed, b));
        assert(a <= b && b <= a);
        assert(o1.subrange(0, i) =~= placed.push(a));
        assert(o2.subrange(0, i) =~= o2.subrange(0, i - 1).push(b));
    }
}

/// Determinism: two resolutions of the same parent map produce the same
/// order, whatever enumeration order the links arrived in.
pub proof fn lemma_resolution_deterministic(
    h1: &HierarchyOrder,
    h2: &HierarchyOrder,
    m: Map<u64, Option<u64>>,
)
    requires
        resolution_of(h1, m),
        resolution_of(h2, m),
        canonical(h1.order@, m),
        canonical(h2.order@, m),
    ensures
        h1.order@ == h2.order@,
{
    let s1 = h1.order@;
    let s2 = h2.order@;
    s1.unique_seq_to_set();
    s2.unique_seq_to_set();
    assert(s1.to_set() =~= s2.to_set());
    assert(s1.len() == s2.len());
    lemma_canonical_prefix(s1, s2, m, s1.len() as int);
    assert(s1.subrange(0, s1.len() as int) =~= s1);
    assert(s2.subrange(0, s2.len() as int) =~= s2);
    assert(s1 =~= s2);
}

/// An unresolvable entity's ancestor chain never ends: it has an ancestor
/// at every depth, each itself unresolvable.
proof fn lemma_unresolvable_chain(m: Map<u64, Option<u64>>, e: u64, k: nat)
    requires
        m.contains_key(e),
        !resolvable(m, e),
    ensures
        ancestor_at(m, e, k) is Some,
        !resolvable(m, ancestor_at(m, e, k).unwrap()),
        m.contains_key(ancestor_at(m, e, k).unwrap()),
    decreases k,
{
    assert(!resolvable_within(m, e, 0));
    let p_opt = parent_of(m, e);
    assert(p_opt is Some);
    let p = p_opt.unwrap();
    assert(m.contains_key(p));
    assert(!resolvable(m, p)) by {
        if resolvable(m, p) {
            let kp = choose|kp: nat| resolvable_within(m, p, kp);
            assert(resolvable_within(m, e, kp + 1));
        }
    }
    if k > 0 {
        lemma_unresolvable_chain(m, p, (k - 1) as nat);
    }
}

/// In a finite acyclic parent graph every live entity resolves: its
/// ancestor chain cannot go on forever without closing a cycle.
pub proof fn lemma_acyclic_resolvable(m: Map<u64, Option<u64>>, e: u64)
    requires
        m.dom().finite(),
        acyclic(m),
        m.contains_key(e),
    ensures
        resolvable(m, e),
{
    if !resolvable(m, e) {
        let n = m.dom().len();
        let chain = Seq::new((n + 1) as nat, |k: int| ancestor_at(m, e, k as nat).unwrap());
        assert forall|k: int| 0 <= k < chain.len() implies m.dom().contains(
            #[trigger] chain[k],
        ) by {
            lemma_unresolvable_chain(m, e, k as nat);
        }
        if chain.no_duplicates() {
            chain.unique_seq_to_set();
            assert(chain.to_set().subset_of(m.dom())) by {
                assert forall|x: u64| chain.to_set().contains(x) implies m.dom().contains(x) by {
                    let k = choose|k: int| 0 <= k < chain.len() && chain[k] == x;
                }
            }
            vstd::set_lib::lemma_len_subset(chain.to_set(), m.dom());
            assert(n + 1 <= n);
        } else {
            let (i, j) = choose|i: int, j: int|
                0 <= i < chain.len() && 0 <= j < chain.len() && i != j && chain[i] == chain[j];
            let (lo, hi) = if i < j {
                (i, j)
            } else {
                (j, i)
            };
            let a = chain[lo];
            lemma_unresolvable_chain(m, e, lo as nat);
            lemma_unresolvable_chain(m, e, hi as nat);
            assert(ancestor_at(m, e, lo as nat) == Some(a));
            assert(ancestor_at(m, e, hi as nat) == Some(a));
            lemma_ancestor_compose(m, e, a, lo as nat, (hi - lo) as nat);
            assert(ancestor_at(m, a, (hi - lo) as nat) == Some(a));
            assert(on_cycle(m, a)) by {
                assert((hi - lo) as nat >= 1 && ancestor_at(m, a, (hi - lo) as nat) == Some(a));
            }
        }
    }
}

/// The converse: when every live entity resolves, the graph has no cycle,
/// so resolvability characterizes acyclicity exactly on finite graphs.
pub proof fn lemma_all_resolvable_acyclic(m: Map<u64, Option<u64>>)
    requires
        forall|e: u64| m.contains_key(e) ==> resolvable(m, e),
    ensures
        acyclic(m),
{
    assert forall|e: u64| !on_cycle(m, e) by {
        if on_cycle(m, e) {
            let k = choose|k: nat| k >= 1 && ancestor_at(m, e, k) == Some(e);
            lemma_ancestor_live(m, e, e, k);
            lemma_on_cycle_not_resolvable(m, e);
        }
    }
}

/// For every acyclic parent graph, the resolved order places each entity
/// strictly after its parent and includes every live entity exactly once.
pub proof fn lemma_acyclic_order_total(h: &HierarchyOrder, m: Map<u64, Option<u64>>)
    requires
        m.dom().finite(),
        acyclic(m),
        resolution_of(h, m),
    ensures
        forall|e: u64| m.contains_key(e) ==> h.order@.contains(e),
        h.order@.no_duplicates(),
        forall|i: int|
            0 <= i < h.order@.len() && parent_of(m, #[trigger] h.order@[i]) is Some
                ==> exists|j: int| 0 <= j < i && h.order@[j] == parent_of(m, h.order@[i]).unwrap(),
{
    assert forall|e: u64| m.contains_key(e) implies h.order@.contains(e) by {
        lemma_acyclic_resolvable(m, e);
    }
    assert forall|i: int|
        0 <= i < h.order@.len() && parent_of(m, #[trigger] h.order@[i]) is Some implies exists|j: int|
        0 <= j < i && h.order@[j] == parent_of(m, h.order@[i]).unwrap() by {
        let p = parent_of(m, h.order@[i]).unwrap();
        assert(h.order@.subrange(0, i).contains(p));
        let j = choose|j: int| 0 <= j < i && h.order@.subrange(0, i)[j] == p;
        assert(h.order@[j] == p);
    }
}

/// For every graph containing a cycle, the cycle's entities appear in the
/// cycle set and nowhere in the order, while every resolvable entity is
/// still ordered.
pub proof fn lemma_cycles_reported(h: &HierarchyOrder, m: Map<u64, Option<u64>>)
    requires
        resolution_of(h, m),
    ensures
        forall|e: u64|
            on_cycle(m, e) ==> #[trigger] h.cycles@.contains(e) && !h.order@.contains(e),
        forall|e: u64| m.contains_key(e) && resolvable(m, e) ==> #[trigger] h.order@.contains(e),
{
    assert forall|e: u64| on_cycle(m, e) implies #[trigger] h.cycles@.contains(e)
        && !h.order@.contains(e) by {
        let k = choose|k: nat| k >= 1 && ancestor_at(m, e, k) == Some(e);
        lemma_ancestor_live(m, e, e, k);
        lemma_on_cycle_not_resolvable(m, e);
    }
}

/// After a pass, every ordered entity has a stored world transform.
proof fn lemma_pass_covers(
    order: Seq<u64>,
    m: Map<u64, Option<u64>>,
    loc: Map<u64, LocalTransform>,
    dirty: Set<u64>,
    w0: Map<u64, Transform>,
    w1: Map<u64, Transform>,
    upd: Set<u64>,
)
    requires
        pass_ok(order, m, loc, dirty, w0, w1, upd),
    ensures
        forall|i: int| 0 <= i < order.len() ==> w1.contains_key(#[trigger] order[i]),
{
    assert forall|i: int| 0 <= i < order.len() implies w1.contains_key(#[trigger] order[i]) by {
        let e = order[i];
        if !upd.contains(e) {
            assert(unchanged_at(w0, w1, e));
        }
    }
}

/// In a pass with nothing locally dirty over a store that already covers
/// the order, no entity at or before position `i` is recomputed.
proof fn lemma_clean_pass_at(
    order: Seq<u64>,
    m: Map<u64, Option<u64>>,
    loc: Map<u64, LocalTransform>,
    w1: Map<u64, Transform>,
    w2: Map<u64, Transform>,
    upd: Set<u64>,
    i: int,
)
    requires
        parent_closed(order, m),
        pass_ok(order, m, loc, Set::empty(), w1, w2, upd),
        forall|j: int| 0 <= j < order.len() ==> w1.contains_key(#[trigger] order[j]),
        0 <= i < order.len(),
    ensures
        !upd.contains(order[i]),
    decreases i,
{
    let e = order[i];
    if parent_of(m, e) is Some {
        let p = parent_of(m, e).unwrap();
        assert(order.subrange(0, i).contains(p));
        let j = choose|j: int| 0 <= j < i && order.subrange(0, i)[j] == p;
        assert(order[j] == p);
        lemma_clean_pass_at(order, m, loc, w1, w2, upd, j);
    }
}

/// Idempotence: running the propagator twice with no intervening changes
/// recomputes nothing on the second pass and leaves every stored world
/// transform identical.
pub proof fn lemma_pass_idempotent(
    order: Seq<u64>,
    m: Map<u64, Option<u64>>,
    loc: Map<u64, LocalTransform>,
    dirty: Set<u64>,
    w0: Map<u64, Transform>,
    w1: Map<u64, Transform>,
    u1: Set<u64>,
    w2: Map<u64, Transform>,
    u2: Set<u64>,
)
    requires
        parent_closed(order, m),
        pass_ok(order, m, loc, dirty, w0, w1, u1),
        pass_ok(order, m, loc, Set::empty(), w1, w2, u2),
    ensures
        u2 == Set::<u64>::empty(),
        w2 == w1,
{
    lemma_pass_covers(order, m, loc, dirty, w0, w1, u1);
    assert forall|e: u64| !(#[trigger] u2.contains(e)) by {
        if order.contains(e) {
            let i = choose|i: int| 0 <= i < order.len() && order[i] == e;
            lemma_clean_pass_at(order, m, loc, w1, w2, u2, i);
        } else {
            assert(!u2.contains(e) && unchanged_at(w1, w2, e));
        }
    }
    assert(u2 =~= Set::<u64>::empty());
    assert forall|e: u64| #[trigger] unchanged_at(w1, w2, e) by {
        if order.contains(e) {
            let i = choose|i: int| 0 <= i < order.len() && order[i] == e;
            assert(!u2.contains(order[i]));
        }
    }
    assert(w2 =~= w1) by {
        assert forall|e: u64| w1.contains_key(e) == w2.contains_key(e) by {
            assert(unchanged_at(w1, w2, e));
        }
        assert forall|e: u64| #[trigger] w1.contains_key(e) implies w2[e] == w1[e] by {
            assert(unchanged_at(w1, w2, e));
        }
    }
}

/// Composition: after a pass over an empty store, a root's world transform
/// is its local matrix, and the world transform of a child of that root is
/// the root's local matrix composed with the child's.
pub proof fn lemma_root_child_composition(
    order: Seq<u64>,
    m: Map<u64, Option<u64>>,
    loc: Map<u64, LocalTransform>,
    dirty: Set<u64>,
    w1: Map<u64, Transform>,
    upd: Set<u64>,
    r: u64,
    c: u64,
)
    requires
        pass_ok(order, m, loc, dirty, Map::empty(), w1, upd),
        order.contains(r),
        order.contains(c),
        parent_of(m, r) is None,
        parent_of(m, c) == Some(r),
    ensures
        w1.contains_key(r),
        w1[r] == Transform(local_matrix_of(loc, r)),
        w1.contains_key(c),
        w1[c] == Transform(spec_mat_mul(local_matrix_of(loc, r), local_matrix_of(loc, c))),
{
    let i = choose|i: int| 0 <= i < order.len() && order[i] == r;
    assert(!Map::<u64, Transform>::empty().contains_key(r));
    assert(upd.contains(r));
    let j = choose|j: int| 0 <= j < order.len() && order[j] == c;
    assert(!Map::<u64, Transform>::empty().contains_key(c));
    assert(upd.contains(c));
}

/// One index of the dirty-propagation law, by induction along the order.
proof fn lemma_dirty_at(
    order: Seq<u64>,
    m: Map<u64, Option<u64>>,
    loc: Map<u64, LocalTransform>,
    w0: Map<u64, Transform>,
    w1: Map<u64, Transform>,
    upd: Set<u64>,
    r: u64,
    i: int,
)
    requires
        parent_closed(order, m),
        pass_ok(order, m, loc, Set::empty().insert(r), w0, w1, upd),
        forall|j: int| 0 <= j < order.len() ==> w0.contains_key(#[trigger] order[j]),
        0 <= i < order.len(),
    ensures
        upd.contains(order[i]) <==> has_ancestor(m, order[i], r),
    decreases i,
{
    let e = order[i];
    assert(m.contains_key(e));
    if e == r {
        assert(Set::empty().insert(r).contains(e));
        assert(upd.contains(e));
        assert(ancestor_at(m, e, 0) == Some(r));
        assert(has_ancestor(m, e, r));
    } else {
        assert(!Set::empty().insert(r).contains(e));
        match parent_of(m, e) {
            None => {
                assert(!upd.contains(e));
                assert(!has_ancestor(m, e, r)) by {
                    if has_ancestor(m, e, r) {
                        let k = choose|k: nat| ancestor_at(m, e, k) == Some(r);
                        if k == 0 {
                            assert(e == r);
                        } else {
                            assert(ancestor_at(m, e, k) is None);
                        }
                    }
                }
            },
            Some(p) => {
                assert(order.subrange(0, i).contains(p));
                let j = choose|j: int| 0 <= j < i && order.subrange(0, i)[j] == p;
                assert(order[j] == p);
                lemma_dirty_at(order, m, loc, w0, w1, upd, r, j);
                assert(upd.contains(e) <==> upd.contains(p));
                assert(has_ancestor(m, e, r) <==> has_ancestor(m, p, r)) by {
                    if has_ancestor(m, p, r) {
                        let k = choose|k: nat| ancestor_at(m, p, k) == Some(r);
                        assert(ancestor_at(m, e, k + 1) == ancestor_at(m, p, k));
                    }
                    if has_ancestor(m, e, r) {
                        let k = choose|k: nat| ancestor_at(m, e, k) == Some(r);
                        if k == 0 {
                            assert(e == r);
                        } else {
                            assert(ancestor_at(m, e, k) == ancestor_at(m, p, (k - 1) as nat));
                        }
                    }
                }
            },
        }
    }
}

/// Dirty propagation: when only `r`'s local transform changed and every
/// ordered entity already has a stored world transform, the pass recomputes
/// exactly `r` and its descendants, and every other entity's stored world
/// transform is untouched.
pub proof fn lemma_dirty_propagation(
    order: Seq<u64>,
    m: Map<u64, Option<u64>>,
    loc: Map<u64, LocalTransform>,
    w0: Map<u64, Transform>,
    w1: Map<u64, Transform>,
    upd: Set<u64>,
    r: u64,
)
    requires
        parent_closed(order, m),
        pass_ok(order, m, loc, Set::empty().insert(r), w0, w1, upd),
        forall|j: int| 0 <= j < order.len() ==> w0.contains_key(#[trigger] order[j]),
    ensures
        forall|i: int|
            0 <= i < order.len() ==> (upd.contains(#[trigger] order[i]) <==> has_ancestor(
                m,
                order[i],
                r,
            )),
        forall|e: u64| !upd.contains(e) ==> #[trigger] unchanged_at(w0, w1, e),
{
    assert forall|i: int| 0 <= i < order.len() implies (upd.contains(#[trigger] order[i])
        <==> has_ancestor(m, order[i], r)) by {
        lemma_dirty_at(order, m, loc, w0, w1, upd, r, i);
    }
    assert forall|e: u64| !upd.contains(e) implies #[trigger] unchanged_at(w0, w1, e) by {
        if order.contains(e) {
            let i = choose|i: int| 0 <= i < order.len() && order[i] == e;
        }
    }
}

} // verus!
