//! The parent graph: a finite map from each entity to its optional parent,
//! with resolvability (the ancestor chain reaches a root) and cyclic
//! ancestry defined over it.

use vstd::prelude::*;

verus! {

/// The identifiers in a sequence of `(entity, value)` pairs are pairwise
/// distinct: an entity carries at most one component of a kind.
pub open spec fn distinct_ids<V>(s: Seq<(u64, V)>) -> bool {
    forall|i: int, j: int| 0 <= i < j < s.len() ==> (#[trigger] s[i]).0 != (#[trigger] s[j]).0
}

/// The finite map a sequence of `(entity, value)` pairs denotes.
pub open spec fn map_of<V>(s: Seq<(u64, V)>) -> Map<u64, V>
    decreases s.len(),
{
    if s.len() == 0 {
        Map::empty()
    } else {
        map_of(s.drop_last()).insert(s.last().0, s.last().1)
    }
}

/// A key is in the map exactly when some pair carries it.
pub proof fn lemma_map_of_contains<V>(s: Seq<(u64, V)>, e: u64)
    ensures
        map_of(s).contains_key(e) <==> exists|i: int| 0 <= i < s.len() && (#[trigger] s[i]).0 == e,
    decreases s.len(),
{
    if s.len() > 0 {
        lemma_map_of_contains(s.drop_last(), e);
        if s.last().0 == e {
            assert(s[s.len() - 1].0 == e);
        } else if map_of(s).contains_key(e) {
            let i = choose|i: int| 0 <= i < s.drop_last().len() && (#[trigger] s.drop_last()[i]).0 == e;
            assert(s[i].0 == e);
        } else {
            assert forall|i: int| 0 <= i < s.len() implies (#[trigger] s[i]).0 != e by {
                if i < s.len() - 1 {
                    assert(s.drop_last()[i].0 == s[i].0);
                }
            }
        }
    }
}

/// With distinct identifiers, each pair gives its key's value in the map.
pub proof fn lemma_map_of_index<V>(s: Seq<(u64, V)>, i: int)
    requires
        distinct_ids(s),
        0 <= i < s.len(),
    ensures
        map_of(s).contains_key(s[i].0),
        map_of(s)[s[i].0] == s[i].1,
    decreases s.len(),
{
    if i == s.len() - 1 {
        assert(s[i] == s.last());
    } else {
        assert(distinct_ids(s.drop_last())) by {
            assert(forall|k: int| 0 <= k < s.len() - 1 ==> (#[trigger] s.drop_last()[k]) == s[k]);
        }
        lemma_map_of_index(s.drop_last(), i);
        assert(s.drop_last()[i] == s[i]);
        assert(s.last().0 != s[i].0);
    }
}

/// The map of a pair sequence has a finite domain.
pub proof fn lemma_map_of_finite<V>(s: Seq<(u64, V)>)
    ensures
        map_of(s).dom().finite(),
    decreases s.len(),
{
    if s.len() > 0 {
        lemma_map_of_finite(s.drop_last());
    }
}

/// The resolved parent of `e` under the parent map `m`: the linked parent
/// when it exists (is a key of `m`), and `None` when `e` has no link or the
/// link dangles (points to a destroyed entity), which makes `e` a root.
pub open spec fn parent_of(m: Map<u64, Option<u64>>, e: u64) -> Option<u64> {
    if m.contains_key(e) {
        match m[e] {
            Some(p) => if m.contains_key(p) {
                Some(p)
            } else {
                None
            },
            None => None,
        }
    } else {
        None
    }
}

/// The ancestor chain from `e` reaches a root within `k` parent steps.
pub open spec fn resolvable_within(m: Map<u64, Option<u64>>, e: u64, k: nat) -> bool
    decreases k,
{
    m.contains_key(e) && match parent_of(m, e) {
        None => true,
        Some(p) => k > 0 && resolvable_within(m, p, (k - 1) as nat),
    }
}

/// The ancestor chain from `e` reaches a root: `e` can be placed in a
/// hierarchy order. Its negation is cyclic or unresolved ancestry.
pub open spec fn resolvable(m: Map<u64, Option<u64>>, e: u64) -> bool {
    exists|k: nat| resolvable_within(m, e, k)
}

/// The `k`-th ancestor of `e`, stepping through resolved parents;
/// `None` once the chain has ended before `k` steps.
pub open spec fn ancestor_at(m: Map<u64, Option<u64>>, e: u64, k: nat) -> Option<u64>
    decreases k,
{
    if !m.contains_key(e) {
        None
    } else if k == 0 {
        Some(e)
    } else {
        match parent_of(m, e) {
            Some(p) => ancestor_at(m, p, (k - 1) as nat),
            None => None,
        }
    }
}

/// Some positive number of parent steps leads from `e` back to `e`.
pub open spec fn on_cycle(m: Map<u64, Option<u64>>, e: u64) -> bool {
    exists|k: nat| k >= 1 && ancestor_at(m, e, k) == Some(e)
}

/// `a` is `e` itself or one of its ancestors.
pub open spec fn has_ancestor(m: Map<u64, Option<u64>>, e: u64, a: u64) -> bool {
    exists|k: nat| ancestor_at(m, e, k) == Some(a)
}

/// Every parent graph has no entity on a cycle.
pub open spec fn acyclic(m: Map<u64, Option<u64>>) -> bool {
    forall|e: u64| !on_cycle(m, e)
}

/// Chains compose: the `j`-th ancestor of the `i`-th ancestor of `e` is
/// the `(i + j)`-th ancestor of `e`.
pub proof fn lemma_ancestor_compose(m: Map<u64, Option<u64>>, e: u64, a: u64, i: nat, j: nat)
    requires
        ancestor_at(m, e, i) == Some(a),
    ensures
        ancestor_at(m, e, (i + j) as nat) == ancestor_at(m, a, j),
    decreases i,
{
    if i == 0 {
        assert(a == e);
    } else {
        let p = parent_of(m, e).unwrap();
        lemma_ancestor_compose(m, p, a, (i - 1) as nat, j);
    }
}

/// An ancestor is a key of the map.
pub proof fn lemma_ancestor_live(m: Map<u64, Option<u64>>, e: u64, a: u64, k: nat)
    requires
        ancestor_at(m, e, k) == Some(a),
    ensures
        m.contains_key(e),
        m.contains_key(a),
    decreases k,
{
    if k > 0 {
        let p = parent_of(m, e).unwrap();
        lemma_ancestor_live(m, p, a, (k - 1) as nat);
    }
}

/// The parent of an entity on a cycle is on the same cycle.
pub proof fn lemma_cycle_parent(m: Map<u64, Option<u64>>, e: u64)
    requires
        on_cycle(m, e),
    ensures
        parent_of(m, e) is Some,
        on_cycle(m, parent_of(m, e).unwrap()),
{
    let k = choose|k: nat| k >= 1 && ancestor_at(m, e, k) == Some(e);
    lemma_ancestor_live(m, e, e, k);
    assert(parent_of(m, e) is Some) by {
        assert(ancestor_at(m, e, k) == Some(e));
    }
    let p = parent_of(m, e).unwrap();
    assert(m.contains_key(p));
    assert(ancestor_at(m, e, k) == ancestor_at(m, p, (k - 1) as nat));
    lemma_ancestor_compose(m, p, e, (k - 1) as nat, 1);
    assert(ancestor_at(m, e, 1) == ancestor_at(m, p, 0));
    assert(ancestor_at(m, p, 0) == Some(p));
    assert(ancestor_at(m, p, ((k - 1) + 1) as nat) == Some(p));
}

/// An entity on a cycle never resolves: no number of parent steps from it
/// reaches a root.
pub proof fn lemma_cycle_not_within(m: Map<u64, Option<u64>>, e: u64, k: nat)
    requires
        on_cycle(m, e),
    ensures
        !resolvable_within(m, e, k),
    decreases k,
{
    lemma_cycle_parent(m, e);
    if k > 0 {
        lemma_cycle_not_within(m, parent_of(m, e).unwrap(), (k - 1) as nat);
    }
}

/// Cyclic ancestry is unresolvable: an entity on a cycle is excluded from
/// every hierarchy order.
pub proof fn lemma_on_cycle_not_resolvable(m: Map<u64, Option<u64>>, e: u64)
    requires
        on_cycle(m, e),
    ensures
        !resolvable(m, e),
{
    assert forall|k: nat| !resolvable_within(m, e, k) by {
        lemma_cycle_not_within(m, e, k);
    }
}

} // verus!
