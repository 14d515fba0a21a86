use vstd::prelude::*;
use crate::clique::CliqueView;
use crate::collection::CollectionView;
use crate::meta::{MetaView, expand, leaves, preds_each};

verus! {

/// Every identifier that some class holds has exactly one lookup entry, naming
/// the one class that holds it; and every lookup entry names a class that holds
/// its identifier.
pub proof fn lemma_lookup_bijection(v: CollectionView)
    requires
        v.wf(),
    ensures
        forall|id: u32| v.knows(id) <==> exists|i: int| 0 <= i < v.classes.len() && #[trigger] v.has(i, id),
        forall|id: u32| #[trigger] v.knows(id) ==> v.class_of(id) < v.classes.len() && v.has(v.class_of(id) as int, id),
        forall|i: int, id: u32| 0 <= i < v.classes.len() && #[trigger] v.has(i, id) ==> v.knows(id) && v.class_of(id) == i,
{
    assert forall|id: u32| v.knows(id) implies exists|i: int| 0 <= i < v.classes.len() && #[trigger] v.has(i, id) by {
        assert(v.has(v.lookup[id] as int, id));
    }
}

/// Merging the class of `b` into the class of `a` leaves in `a`'s slot exactly
/// the union of the two node sets, which were disjoint, and every identifier of
/// either class then resolves to `a`'s slot.
pub proof fn lemma_merge_union(v: CollectionView, a: u32, b: u32)
    requires
        v.wf(),
        v.knows(a),
        v.knows(b),
        v.class_of(a) != v.class_of(b),
        v.class_of(a) != 0,
        v.class_of(b) != 0,
    ensures
        ({
            let (ia, ib) = (v.class_of(a), v.class_of(b));
            let w = v.merged(ia, ib);
            &&& w.classes[ia as int].nodes.to_set() == v.classes[ia as int].nodes.to_set().union(v.classes[ib as int].nodes.to_set())
            &&& v.classes[ia as int].nodes.to_set().disjoint(v.classes[ib as int].nodes.to_set())
            &&& forall|id: u32| v.has(ia as int, id) || v.has(ib as int, id) ==> #[trigger] w.lookup[id] == ia && w.knows(id)
        }),
{
    let ia = v.class_of(a);
    let ib = v.class_of(b);
    let na = v.classes[ia as int].nodes;
    let nb = v.classes[ib as int].nodes;
    let w = v.merged(ia, ib);
    assert(v.has(ia as int, a));
    assert(v.has(ib as int, b));
    assert forall|x: u32| #[trigger] (na + nb).contains(x) <==> na.contains(x) || nb.contains(x) by {
        if (na + nb).contains(x) {
            let k = choose|k: int| 0 <= k < (na + nb).len() && (na + nb)[k] == x;
            if k >= na.len() {
                assert(nb[k - na.len()] == x);
            }
        }
        if na.contains(x) {
            let k = choose|k: int| 0 <= k < na.len() && na[k] == x;
            assert((na + nb)[k] == x);
        }
        if nb.contains(x) {
            let k = choose|k: int| 0 <= k < nb.len() && nb[k] == x;
            assert((na + nb)[k + na.len()] == x);
        }
    }
    assert(w.classes[ia as int].nodes.to_set() =~= na.to_set().union(nb.to_set()));
    assert forall|x: u32| !(na.to_set().contains(x) && nb.to_set().contains(x)) by {
        if na.contains(x) && nb.contains(x) {
            assert(v.has(ia as int, x));
            assert(v.has(ib as int, x));
        }
    }
    assert forall|id: u32| v.has(ia as int, id) || v.has(ib as int, id) implies #[trigger] w.lookup[id] == ia && w.knows(id) by {
        if v.has(ia as int, id) {
        } else {
            assert(v.has(ib as int, id));
        }
    }
}

/// A new class placed in a reclaimed slot takes that slot: the slot holds exactly
/// the new class, the identifiers that resolve to it are exactly the new class's,
/// the slot has left the queue, and the collection stays well formed.
pub proof fn lemma_recycled_slot(v: CollectionView, preds: Seq<u32>, nodes: Seq<u32>)
    requires
        v.wf(),
        v.free.len() > 0,
        forall|id: u32| preds.contains(id) ==> !v.knows(id),
        forall|id: u32| nodes.contains(id) ==> !v.knows(id),
    ensures
        ({
            let i = v.free[0];
            let w = v.with_class(preds, nodes);
            &&& w.wf()
            &&& w.classes[i as int] == (CliqueView { preds, nodes })
            &&& forall|id: u32| #[trigger] w.knows(id) && w.lookup[id] == i <==> (preds.contains(id) || nodes.contains(id))
            &&& !w.free.contains(i)
        }),
{
    let i = v.free[0];
    let w = v.with_class(preds, nodes);
    crate::collection::lemma_with_class_wf(v, preds, nodes);
    assert forall|id: u32| #[trigger] w.knows(id) && w.lookup[id] == i implies (preds.contains(id) || nodes.contains(id)) by {
        if !preds.contains(id) && !nodes.contains(id) {
            assert(v.knows(id));
            assert(v.has(v.lookup[id] as int, id));
            assert(v.free.contains(i));
            let k = 0int;
            assert(v.classes[v.free[k] as int] == crate::collection::empty_class());
        }
    }
    if w.free.contains(i) {
        let k = choose|k: int| 0 <= k < w.free.len() && w.free[k] == i;
        assert(v.free[k + 1] == v.free[0]);
    }
}

pub proof fn lemma_leaves_append(m: MetaView, a: Seq<u32>, b: Seq<u32>)
    ensures
        leaves(m, a + b) == leaves(m, a) + leaves(m, b),
    decreases b.len(),
{
    if b.len() == 0 {
        assert(a + b =~= a);
        assert(leaves(m, a) + leaves(m, b) =~= leaves(m, a));
    } else {
        lemma_leaves_append(m, a, b.drop_last());
        assert((a + b).drop_last() =~= a + b.drop_last());
        assert((a + b).last() == b.last());
        assert(leaves(m, a) + leaves(m, b) =~= leaves(m, a) + leaves(m, b.drop_last()) + expand(m, b.last()));
    }
}

pub proof fn lemma_leaves_plain(m: MetaView, ns: Seq<u32>)
    requires
        forall|k: int| 0 <= k < ns.len() ==> !m.groups.contains_key(#[trigger] ns[k]),
    ensures
        leaves(m, ns) == ns,
    decreases ns.len(),
{
    if ns.len() > 0 {
        assert(!m.groups.contains_key(ns[ns.len() - 1]));
        lemma_leaves_plain(m, ns.drop_last());
        assert(ns.drop_last() + seq![ns.last()] =~= ns);
    }
}

/// Expanding a sequence of nodes that holds the supernode `s` gives the same
/// leaves, and the same predicates per leaf, as expanding it with `s` replaced by
/// its members, as long as no member is itself a supernode.
pub proof fn lemma_expansion_round_trip(m: MetaView, before: Seq<u32>, s: u32, after: Seq<u32>, is_source: bool)
    requires
        m.groups.contains_key(s),
        forall|k: int| 0 <= k < m.groups[s].len() ==> !m.groups.contains_key(#[trigger] m.groups[s][k]),
    ensures
        leaves(m, before + seq![s] + after) == leaves(m, before + m.groups[s] + after),
        preds_each(m, leaves(m, before + seq![s] + after), is_source) == preds_each(m, leaves(m, before + m.groups[s] + after), is_source),
{
    let g = m.groups[s];
    lemma_leaves_append(m, before + seq![s], after);
    lemma_leaves_append(m, before, seq![s]);
    lemma_leaves_append(m, before + g, after);
    lemma_leaves_append(m, before, g);
    lemma_leaves_plain(m, g);
    assert(seq![s].drop_last() =~= Seq::<u32>::empty());
    assert(seq![s].last() == s);
    assert(leaves(m, Seq::<u32>::empty()) == Seq::<u32>::empty());
    assert(leaves(m, seq![s]) == leaves(m, Seq::<u32>::empty()) + expand(m, s));
    assert(leaves(m, seq![s]) =~= g);
}

} // verus!
