//! The hierarchy resolver: orders entities so every parent precedes its
//! children and reports entities whose ancestry is cyclic or unresolved.

use vstd::prelude::*;
use crate::graph::distinct_ids;
use crate::graph::lemma_map_of_contains;
use crate::graph::lemma_map_of_index;
use crate::graph::map_of;
use crate::graph::parent_of;
use crate::graph::resolvable;
use crate::graph::resolvable_within;

verus! {

/// The result of a resolution pass: a processing order in which ancestors
/// stand strictly before their descendants, and the set of entities whose
/// ancestor chain is cyclic or unresolved, excluded from the order.
pub struct HierarchyOrder {
    /// Entities in processing order, every parent before its children.
    pub order: Vec<u64>,
    /// Entities excluded from the order: their ancestor chain never
    /// reaches a root.
    pub cycles: Vec<u64>,
}

impl HierarchyOrder {
    /// The order is sound for the parent map `m`: it names live entities
    /// once each, and whenever an ordered entity has a resolved parent,
    /// that parent stands strictly earlier in the order.
    pub open spec fn wf(&self, m: Map<u64, Option<u64>>) -> bool {
        &&& self.order@.no_duplicates()
        &&& forall|i: int|
            0 <= i < self.order@.len() ==> m.contains_key(#[trigger] self.order@[i])
        &&& forall|i: int|
            0 <= i < self.order@.len() && parent_of(m, #[trigger] self.order@[i]) is Some
                ==> self.order@.subrange(0, i).contains(parent_of(m, self.order@[i]).unwrap())
    }
}

/// An unplaced entity is ready to be placed: it is live and its resolved
/// parent, if any, is already placed.
pub open spec fn ready_at(m: Map<u64, Option<u64>>, placed: Seq<u64>, e: u64) -> bool {
    m.contains_key(e) && match parent_of(m, e) {
        None => true,
        Some(p) => placed.contains(p),
    }
}

/// `e` is the least ready unplaced entity: the tie-break that makes the
/// order reproducible across runs with identical input.
pub open spec fn least_ready(m: Map<u64, Option<u64>>, placed: Seq<u64>, e: u64) -> bool {
    &&& m.contains_key(e)
    &&& !placed.contains(e)
    &&& ready_at(m, placed, e)
    &&& forall|x: u64|
        m.contains_key(x) && !placed.contains(x) && #[trigger] ready_at(m, placed, x) ==> e <= x
}

/// When no unplaced entity is ready, no unplaced entity resolves within
/// any number of parent steps.
proof fn lemma_stalled_not_within(m: Map<u64, Option<u64>>, placed: Seq<u64>, e: u64, k: nat)
    requires
        forall|x: u64|
            m.contains_key(x) && !placed.contains(x) ==> !#[trigger] ready_at(m, placed, x),
        m.contains_key(e),
        !placed.contains(e),
    ensures
        !resolvable_within(m, e, k),
    decreases k,
{
    assert(!ready_at(m, placed, e));
    if k > 0 && parent_of(m, e) is Some {
        let p = parent_of(m, e).unwrap();
        lemma_stalled_not_within(m, placed, p, (k - 1) as nat);
    }
}

/// `true` exactly when `v` holds `e`.
pub(crate) fn contains_id(v: &Vec<u64>, e: u64) -> (r: bool)
    ensures
        r == v@.contains(e),
{
    let mut i: usize = 0;
    while i < v.len()
        invariant
            0 <= i <= v@.len(),
            forall|j: int| 0 <= j < i ==> v@[j] != e,
        decreases v@.len() - i,
    {
        if v[i] == e {
            return true;
        }
        i += 1;
    }
    false
}

/// `true` exactly when some pair of `links` carries the identifier `e`.
pub(crate) fn contains_key_of(links: &Vec<(u64, Option<u64>)>, e: u64) -> (r: bool)
    ensures
        r == map_of(links@).contains_key(e),
{
    let mut i: usize = 0;
    let mut found = false;
    while i < links.len()
        invariant
            0 <= i <= links@.len(),
            found == exists|j: int| 0 <= j < i && (#[trigger] links@[j]).0 == e,
        decreases links@.len() - i,
    {
        if links[i].0 == e {
            found = true;
        }
        i += 1;
    }
    proof {
        lemma_map_of_contains(links@, e);
    }
    found
}

/// Computes a deterministic topological processing order over the current
/// set of parent links, roots first and descendants after ancestors, and
/// flags entities whose ancestor chain is cyclic or unresolved.
pub struct HierarchyResolver;

impl HierarchyResolver {
    /// Resolve the parent graph given by `links`: each pair is an entity
    /// and its optional parent. A parent that is not itself listed has
    /// been destroyed; such a link dangles and its child counts as a root.
    ///
    /// The order holds exactly the entities whose ancestor chain reaches
    /// a root, each after its parent; ties between ready entities are
    /// broken by ascending identifier, so the result is reproducible.
    /// All remaining entities are reported in `cycles`, never dropped.
    pub fn resolve(links: &Vec<(u64, Option<u64>)>) -> (h: HierarchyOrder)
        requires
            distinct_ids(links@),
        ensures
            h.wf(map_of(links@)),
            forall|e: u64|
                #[trigger] h.order@.contains(e)
                    <==> map_of(links@).contains_key(e) && resolvable(map_of(links@), e),
            forall|e: u64|
                #[trigger] h.cycles@.contains(e)
                    <==> map_of(links@).contains_key(e) && !resolvable(map_of(links@), e),
            h.cycles@.no_duplicates(),
            forall|i: int|
                0 <= i < h.order@.len() ==> least_ready(
                    map_of(links@),
                    h.order@.subrange(0, i),
                    #[trigger] h.order@[i],
                ),
    {
        let ghost m = map_of(links@);
        let mut order: Vec<u64> = Vec::new();
        loop
            invariant
                distinct_ids(links@),
                m == map_of(links@),
                order@.no_duplicates(),
                forall|i: int|
                    0 <= i < order@.len()
                        ==> m.contains_key(#[trigger] order@[i]) && resolvable(m, order@[i]),
                forall|i: int|
                    0 <= i < order@.len() && parent_of(m, #[trigger] order@[i]) is Some
                        ==> order@.subrange(0, i).contains(parent_of(m, order@[i]).unwrap()),
                forall|i: int|
                    0 <= i < order@.len() ==> least_ready(
                        m,
                        order@.subrange(0, i),
                        #[trigger] order@[i],
                    ),
                order@.len() <= links@.len(),
            ensures
                order@.no_duplicates(),
                forall|i: int|
                    0 <= i < order@.len()
                        ==> m.contains_key(#[trigger] order@[i]) && resolvable(m, order@[i]),
                forall|i: int|
                    0 <= i < order@.len() && parent_of(m, #[trigger] order@[i]) is Some
                        ==> order@.subrange(0, i).contains(parent_of(m, order@[i]).unwrap()),
                forall|i: int|
                    0 <= i < order@.len() ==> least_ready(
                        m,
                        order@.subrange(0, i),
                        #[trigger] order@[i],
                    ),
                forall|x: u64|
                    m.contains_key(x) && !order@.contains(x)
                        ==> !#[trigger] ready_at(m, order@, x),
            decreases links@.len() - order@.len(),
        {
            let mut best: Option<u64> = None;
            let mut idx: usize = 0;
            while idx < links.len()
                invariant
                    distinct_ids(links@),
                    m == map_of(links@),
                    0 <= idx <= links@.len(),
                    match best {
                        Some(b) => {
                            &&& m.contains_key(b)
                            &&& !order@.contains(b)
                            &&& ready_at(m, order@, b)
                            &&& forall|j: int|
                                0 <= j < idx && !order@.contains((#[trigger] links@[j]).0)
                                    && ready_at(m, order@, links@[j].0) ==> b <= links@[j].0
                        },
                        None => forall|j: int|
                            0 <= j < idx
                                ==> order@.contains((#[trigger] links@[j]).0)
                                    || !ready_at(m, order@, links@[j].0),
                    },
                decreases links@.len() - idx,
            {
                let (e, po) = links[idx];
                proof {
                    lemma_map_of_index(links@, idx as int);
                }
                if !contains_id(&order, e) {
                    let ready = match po {
                        None => true,
                        Some(p) => {
                            if contains_key_of(links, p) {
                                contains_id(&order, p)
                            } else {
                                true
                            }
                        },
                    };
                    if ready {
                        best = match best {
                            None => Some(e),
                            Some(b) => if e < b {
                                Some(e)
                            } else {
                                Some(b)
                            },
                        };
                    }
                }
                idx += 1;
            }
            match best {
                Some(e) => {
                    proof {
                        let ghost old_order = order@;
                        assert(least_ready(m, order@, e)) by {
                            assert forall|x: u64|
                                m.contains_key(x) && !order@.contains(x) && #[trigger] ready_at(
                                    m,
                                    order@,
                                    x,
                                ) implies e <= x by {
                                lemma_map_of_contains(links@, x);
                                let j = choose|j: int|
                                    0 <= j < links@.len() && (#[trigger] links@[j]).0 == x;
                            }
                        }
                        if parent_of(m, e) is Some {
                            let p = parent_of(m, e).unwrap();
                            let k = choose|k: nat| resolvable_within(m, p, k);
                            let i = choose|i: int| 0 <= i < old_order.len() && old_order[i] == p;
                            assert(resolvable_within(m, e, k + 1));
                        } else {
                            assert(resolvable_within(m, e, 0));
                        }
                        crate::graph::lemma_map_of_finite(links@);
                        order@.unique_seq_to_set();
                        assert(order@.to_set().insert(e).subset_of(m.dom())) by {
                            assert forall|x: u64| order@.to_set().insert(e).contains(x)
                                implies m.dom().contains(x) by {
                                if x != e {
                                    let i = choose|i: int|
                                        0 <= i < order@.len() && order@[i] == x;
                                }
                            }
                        }
                        assert(m.dom().len() <= links@.len()) by {
                            lemma_map_of_dom_size(links@);
                        }
                        vstd::set_lib::lemma_len_subset(order@.to_set().insert(e), m.dom());
                        assert(order@.to_set().insert(e).len() <= links@.len());
                        assert(!order@.to_set().contains(e));
                        assert(order@.to_set().insert(e).len() == order@.to_set().len() + 1);
                    }
                    let ghost old_order = order@;
                    order.push(e);
                    proof {
                        assert(order@ == old_order.push(e));
                        assert forall|i: int|
                            0 <= i < order@.len() && parent_of(m, #[trigger] order@[i]) is Some
                            implies order@.subrange(0, i).contains(
                                parent_of(m, order@[i]).unwrap(),
                        ) by {
                            if i < old_order.len() {
                                assert(old_order.subrange(0, i)
                                    == order@.subrange(0, i));
                            } else {
                                assert(order@[i] == e);
                                let p = parent_of(m, e).unwrap();
                                let j = choose|j: int|
                                    0 <= j < old_order.len() && old_order[j] == p;
                                assert(order@.subrange(0, i)[j] == p);
                            }
                        }
                        assert forall|i: int| 0 <= i < order@.len() implies least_ready(
                            m,
                            order@.subrange(0, i),
                            #[trigger] order@[i],
                        ) by {
                            if i < old_order.len() {
                                assert(old_order.subrange(0, i) == order@.subrange(0, i));
                                assert(least_ready(m, old_order.subrange(0, i), old_order[i]));
                                assert(order@[i] == old_order[i]);
                            } else {
                                assert(order@.subrange(0, i) =~= old_order);
                                assert(order@[i] == e);
                                assert(least_ready(m, old_order, e));
                            }
                        }
                    }
                },
                None => {
                    proof {
                        assert forall|x: u64| m.contains_key(x) && !order@.contains(x)
                            implies !ready_at(m, order@, x) by {
                            lemma_map_of_contains(links@, x);
                            let j = choose|j: int|
                                0 <= j < links@.len() && (#[trigger] links@[j]).0 == x;
                        }
                    }
                    break;
                },
            }
        }
        proof {
            assert forall|e: u64| m.contains_key(e) && !order@.contains(e)
                implies !resolvable(m, e) by {
                assert forall|k: nat| !resolvable_within(m, e, k) by {
                    lemma_stalled_not_within(m, order@, e, k);
                }
            }
            assert forall|e: u64| #[trigger] order@.contains(e)
                implies m.contains_key(e) && resolvable(m, e) by {
                let i = choose|i: int| 0 <= i < order@.len() && order@[i] == e;
            }
        }
        let mut cycles: Vec<u64> = Vec::new();
        let mut idx: usize = 0;
        while idx < links.len()
            invariant
                distinct_ids(links@),
                m == map_of(links@),
                0 <= idx <= links@.len(),
                forall|e: u64| #[trigger] order@.contains(e) <==> m.contains_key(e) && resolvable(m, e),
                cycles@.no_duplicates(),
                forall|e: u64|
                    #[trigger] cycles@.contains(e)
                        <==> exists|j: int|
                            0 <= j < idx && (#[trigger] links@[j]).0 == e && !order@.contains(e),
            decreases links@.len() - idx,
        {
            let (e, _) = links[idx];
            proof {
                lemma_map_of_index(links@, idx as int);
            }
            if !contains_id(&order, e) {
                proof {
                    if cycles@.contains(e) {
                        let j = choose|j: int|
                            0 <= j < idx && (#[trigger] links@[j]).0 == e && !order@.contains(e);
                        assert(false);
                    }
                }
                let ghost old_cycles = cycles@;
                cycles.push(e);
                proof {
                    assert forall|x: u64| #[trigger] cycles@.contains(x)
                        implies exists|j: int|
                            0 <= j < idx + 1 && (#[trigger] links@[j]).0 == x && !order@.contains(x) by {
                        if old_cycles.contains(x) {
                            let j = choose|j: int|
                                0 <= j < idx && (#[trigger] links@[j]).0 == x && !order@.contains(x);
                        } else {
                            assert(cycles@.last() == e);
                            assert(x == e);
                            assert(links@[idx as int].0 == e);
                        }
                    }
                    assert forall|x: u64| (exists|j: int|
                        0 <= j < idx + 1 && (#[trigger] links@[j]).0 == x && !order@.contains(x))
                        implies #[trigger] cycles@.contains(x) by {
                        let j = choose|j: int|
                            0 <= j < idx + 1 && (#[trigger] links@[j]).0 == x && !order@.contains(x);
                        if j < idx {
                            assert(old_cycles.contains(x));
                            assert(cycles@[choose|i: int|
                                0 <= i < old_cycles.len() && old_cycles[i] == x] == x);
                        } else {
                            assert(x == e);
                            assert(cycles@.last() == e);
                        }
                    }
                }
            } else {
                proof {
                    assert forall|x: u64| (exists|j: int|
                        0 <= j < idx + 1 && (#[trigger] links@[j]).0 == x && !order@.contains(x))
                        implies #[trigger] cycles@.contains(x) by {
                        let j = choose|j: int|
                            0 <= j < idx + 1 && (#[trigger] links@[j]).0 == x && !order@.contains(x);
                        if j == idx {
                            assert(x == e);
                            assert(false);
                        }
                    }
                }
            }
            idx += 1;
        }
        proof {
            assert forall|e: u64| #[trigger] cycles@.contains(e)
                implies m.contains_key(e) && !resolvable(m, e) by {
                let j = choose|j: int|
                    0 <= j < links@.len() && (#[trigger] links@[j]).0 == e && !order@.contains(e);
                lemma_map_of_index(links@, j);
            }
            assert forall|e: u64| m.contains_key(e) && !resolvable(m, e)
                implies #[trigger] cycles@.contains(e) by {
                lemma_map_of_contains(links@, e);
                let j = choose|j: int| 0 <= j < links@.len() && (#[trigger] links@[j]).0 == e;
            }
        }
        HierarchyOrder { order, cycles }
    }
}

/// The domain of the map of a pair sequence is no larger than the sequence.
proof fn lemma_map_of_dom_size<V>(s: Seq<(u64, V)>)
    ensures
        map_of(s).dom().finite(),
        map_of(s).dom().len() <= s.len(),
    decreases s.len(),
{
    if s.len() > 0 {
        lemma_map_of_dom_size(s.drop_last());
    }
}

} // verus!
