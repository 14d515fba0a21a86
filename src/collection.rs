use std::collections::{HashMap, VecDeque};
use vstd::prelude::*;
use crate::clique::{Clique, CliqueView, copy_ids, drop_id, pointed, lemma_drop_id_contains, lemma_push_contains, lemma_last_contains};
use crate::meta::{Meta, leaves, met_groups, preds_each};

verus! {

broadcast use vstd::std_specs::hash::group_hash_axioms;

/// The mathematical content of a clique collection: the classes by slot, the
/// queue of reclaimed slots, and the lookup from identifier to slot.
pub struct CollectionView {
    pub classes: Seq<CliqueView>,
    pub free: Seq<usize>,
    pub lookup: Map<u32, usize>,
}

/// A class with no predicate and no node.
pub open spec fn empty_class() -> CliqueView {
    CliqueView { preds: Seq::empty(), nodes: Seq::empty() }
}

impl CollectionView {
    /// Slot `i` holds `id`, as a predicate or as a node.
    pub open spec fn has(self, i: int, id: u32) -> bool {
        self.classes[i].preds.contains(id) || self.classes[i].nodes.contains(id)
    }

    pub open spec fn knows(self, id: u32) -> bool {
        self.lookup.contains_key(id)
    }

    pub open spec fn class_of(self, id: u32) -> usize {
        self.lookup[id]
    }

    /// The lookup and the classes agree both ways, slot 0 has no predicates, and
    /// the reclaimed slots are distinct, empty, and never slot 0.
    pub open spec fn wf(self) -> bool {
        &&& 1 <= self.classes.len() <= usize::MAX
        &&& self.classes[0].preds.len() == 0
        &&& forall|i: int, id: u32|
            0 <= i < self.classes.len() && #[trigger] self.has(i, id) ==> self.lookup.contains_key(id)
                && self.lookup[id] == i
        &&& forall|id: u32| #[trigger]
            self.lookup.contains_key(id) ==> self.lookup[id] < self.classes.len() && self.has(
                self.lookup[id] as int,
                id,
            )
        &&& forall|k: int|
            0 <= k < self.free.len() ==> 0 < #[trigger] self.free[k] < self.classes.len()
                && self.classes[self.free[k] as int] == empty_class()
        &&& self.free.no_duplicates()
    }

    /// The slot that the next new class takes: the oldest reclaimed one, else a fresh one.
    pub open spec fn next_slot(self) -> usize {
        if self.free.len() > 0 {
            self.free[0]
        } else {
            self.classes.len() as usize
        }
    }

    /// A new class of `preds` and `nodes` in the next slot.
    pub open spec fn with_class(self, preds: Seq<u32>, nodes: Seq<u32>) -> Self {
        let i = self.next_slot();
        let c = CliqueView { preds, nodes };
        CollectionView {
            classes: if self.free.len() > 0 {
                self.classes.update(i as int, c)
            } else {
                self.classes.push(c)
            },
            free: if self.free.len() > 0 {
                self.free.drop_first()
            } else {
                self.free
            },
            lookup: pointed(pointed(self.lookup, preds, i), nodes, i),
        }
    }

    /// `node` appended to the members of slot `i`.
    pub open spec fn with_node(self, node: u32, i: usize) -> Self {
        let c = self.classes[i as int];
        CollectionView {
            classes: self.classes.update(i as int, CliqueView { preds: c.preds, nodes: c.nodes.push(node) }),
            free: self.free,
            lookup: self.lookup.insert(node, i),
        }
    }

    /// `pred` appended to the predicates of slot `i`.
    pub open spec fn with_pred(self, pred: u32, i: usize) -> Self {
        let c = self.classes[i as int];
        CollectionView {
            classes: self.classes.update(i as int, CliqueView { preds: c.preds.push(pred), nodes: c.nodes }),
            free: self.free,
            lookup: self.lookup.insert(pred, i),
        }
    }

    /// Slot `b` merged into slot `a`: `a` gets both contents, `b` is emptied and
    /// reclaimed, and whatever named `b` now names `a`.
    pub open spec fn merged(self, a: usize, b: usize) -> Self {
        let ca = self.classes[a as int];
        let cb = self.classes[b as int];
        CollectionView {
            classes: self.classes.update(
                a as int,
                CliqueView { preds: ca.preds + cb.preds, nodes: ca.nodes + cb.nodes },
            ).update(b as int, empty_class()),
            free: self.free.push(b),
            lookup: Map::new(
                |id: u32| self.lookup.contains_key(id),
                |id: u32|
                    if self.lookup[id] == b {
                        a
                    } else {
                        self.lookup[id]
                    },
            ),
        }
    }

    /// `node` taken out of its class and out of the lookup; a non-reserved slot
    /// left with nothing in it is reclaimed.
    pub open spec fn without_node(self, node: u32) -> Self {
        let i = self.class_of(node);
        let c = CliqueView {
            preds: self.classes[i as int].preds,
            nodes: drop_id(self.classes[i as int].nodes, node),
        };
        CollectionView {
            classes: self.classes.update(i as int, c),
            free: if i != 0 && c == empty_class() {
                self.free.push(i)
            } else {
                self.free
            },
            lookup: self.lookup.remove(node),
        }
    }

    /// The nodes of `ns` appended, in order, to slot `i`.
    pub open spec fn with_nodes(self, ns: Seq<u32>, i: usize) -> Self
        decreases ns.len(),
    {
        if ns.len() == 0 {
            self
        } else {
            self.with_nodes(ns.drop_last(), i).with_node(ns.last(), i)
        }
    }

    /// The nodes of `ns` taken out, in order.
    pub open spec fn without_nodes(self, ns: Seq<u32>) -> Self
        decreases ns.len(),
    {
        if ns.len() == 0 {
            self
        } else {
            self.without_nodes(ns.drop_last()).without_node(ns.last())
        }
    }

    /// Slot `i` emptied, every identifier it held forgotten, and the slot reclaimed
    /// unless it is the reserved one.
    pub open spec fn cleared(self, i: usize) -> Self {
        CollectionView {
            classes: self.classes.update(i as int, empty_class()),
            free: if i != 0 {
                self.free.push(i)
            } else {
                self.free
            },
            lookup: Map::new(
                |id: u32| self.lookup.contains_key(id) && self.lookup[id] != i,
                |id: u32| self.lookup[id],
            ),
        }
    }
}

pub proof fn lemma_with_class_wf(v: CollectionView, preds: Seq<u32>, nodes: Seq<u32>)
    requires
        v.wf(),
        forall|id: u32| preds.contains(id) ==> !v.knows(id),
        forall|id: u32| nodes.contains(id) ==> !v.knows(id),
        v.free.len() > 0 || v.classes.len() < usize::MAX,
    ensures
        v.with_class(preds, nodes).wf(),
{
    let w = v.with_class(preds, nodes);
    let i = v.next_slot();
    if v.free.len() > 0 {
        assert(v.free.contains(v.free[0]));
        assert forall|k: int| 0 <= k < w.free.len() implies 0 < #[trigger] w.free[k] < w.classes.len()
            && w.classes[w.free[k] as int] == empty_class() by {
            assert(w.free[k] == v.free[k + 1]);
        }
    }
    assert forall|j: int, id: u32| 0 <= j < w.classes.len() && #[trigger] w.has(j, id) implies w.lookup.contains_key(id)
        && w.lookup[id] == j by {
        if j != i as int {
            assert(v.has(j, id));
        }
    }
    assert forall|id: u32| #[trigger] w.lookup.contains_key(id) implies w.lookup[id] < w.classes.len()
        && w.has(w.lookup[id] as int, id) by {
        if !preds.contains(id) && !nodes.contains(id) {
            assert(v.lookup.contains_key(id));
            let j = v.lookup[id] as int;
            if j == i as int && v.free.len() > 0 {
                assert(v.has(j, id));
                assert(v.classes[j] == empty_class());
                assert(v.classes[j].preds.len() == 0);
                assert(v.classes[j].nodes.len() == 0);
            }
            assert(v.has(j, id));
        }
    }
}

pub proof fn lemma_with_node_wf(v: CollectionView, node: u32, i: usize)
    requires
        v.wf(),
        i < v.classes.len(),
        !v.free.contains(i),
        !v.knows(node),
    ensures
        v.with_node(node, i).wf(),
{
    let w = v.with_node(node, i);
    assert forall|k: int| 0 <= k < w.free.len() implies 0 < #[trigger] w.free[k] < w.classes.len()
        && w.classes[w.free[k] as int] == empty_class() by {
        assert(v.free.contains(v.free[k]));
    }
    assert forall|j: int, id: u32| 0 <= j < w.classes.len() && #[trigger] w.has(j, id) implies w.lookup.contains_key(id)
        && w.lookup[id] == j by {
        if j != i as int {
            assert(v.has(j, id));
        } else {
            lemma_push_contains(v.classes[i as int].nodes, node, id);
            if id != node {
                assert(v.has(j, id));
            }
        }
    }
    assert forall|id: u32| #[trigger] w.lookup.contains_key(id) implies w.lookup[id] < w.classes.len()
        && w.has(w.lookup[id] as int, id) by {
        lemma_push_contains(v.classes[i as int].nodes, node, id);
        if id != node {
            assert(v.lookup.contains_key(id));
            assert(v.has(v.lookup[id] as int, id));
        }
    }
}

pub proof fn lemma_with_pred_wf(v: CollectionView, pred: u32, i: usize)
    requires
        v.wf(),
        0 < i < v.classes.len(),
        !v.free.contains(i),
        !v.knows(pred),
    ensures
        v.with_pred(pred, i).wf(),
{
    let w = v.with_pred(pred, i);
    assert forall|k: int| 0 <= k < w.free.len() implies 0 < #[trigger] w.free[k] < w.classes.len()
        && w.classes[w.free[k] as int] == empty_class() by {
        assert(v.free.contains(v.free[k]));
    }
    assert forall|j: int, id: u32| 0 <= j < w.classes.len() && #[trigger] w.has(j, id) implies w.lookup.contains_key(id)
        && w.lookup[id] == j by {
        if j != i as int {
            assert(v.has(j, id));
        } else {
            lemma_push_contains(v.classes[i as int].preds, pred, id);
            if id != pred {
                assert(v.has(j, id));
            }
        }
    }
    assert forall|id: u32| #[trigger] w.lookup.contains_key(id) implies w.lookup[id] < w.classes.len()
        && w.has(w.lookup[id] as int, id) by {
        lemma_push_contains(v.classes[i as int].preds, pred, id);
        if id != pred {
            assert(v.lookup.contains_key(id));
            assert(v.has(v.lookup[id] as int, id));
        }
    }
}

/// A slot that holds something is not waiting for reuse.
pub proof fn lemma_occupied_not_free(v: CollectionView, id: u32)
    requires
        v.wf(),
        v.knows(id),
    ensures
        !v.free.contains(v.lookup[id]),
{
    if v.free.contains(v.lookup[id]) {
        let k = choose|k: int| 0 <= k < v.free.len() && v.free[k] == v.lookup[id];
        assert(v.has(v.lookup[id] as int, id));
    }
}

pub proof fn lemma_merged_wf(v: CollectionView, a: usize, b: usize)
    requires
        v.wf(),
        0 < a < v.classes.len(),
        0 < b < v.classes.len(),
        a != b,
        !v.free.contains(a),
        !v.free.contains(b),
    ensures
        v.merged(a, b).wf(),
{
    let w = v.merged(a, b);
    let ca = v.classes[a as int];
    let cb = v.classes[b as int];
    assert forall|k: int| 0 <= k < w.free.len() implies 0 < #[trigger] w.free[k] < w.classes.len()
        && w.classes[w.free[k] as int] == empty_class() by {
        if k < v.free.len() {
            assert(v.free.contains(v.free[k]));
        }
    }
    assert forall|j: int, id: u32| 0 <= j < w.classes.len() && #[trigger] w.has(j, id) implies w.lookup.contains_key(id)
        && w.lookup[id] == j by {
        if j == a as int {
            assert((ca.preds + cb.preds).contains(id) ==> ca.preds.contains(id) || cb.preds.contains(id)) by {
                if (ca.preds + cb.preds).contains(id) {
                    let k = choose|k: int| 0 <= k < (ca.preds + cb.preds).len() && (ca.preds + cb.preds)[k] == id;
                    if k >= ca.preds.len() {
                        assert(cb.preds[k - ca.preds.len()] == id);
                    }
                }
            }
            assert((ca.nodes + cb.nodes).contains(id) ==> ca.nodes.contains(id) || cb.nodes.contains(id)) by {
                if (ca.nodes + cb.nodes).contains(id) {
                    let k = choose|k: int| 0 <= k < (ca.nodes + cb.nodes).len() && (ca.nodes + cb.nodes)[k] == id;
                    if k >= ca.nodes.len() {
                        assert(cb.nodes[k - ca.nodes.len()] == id);
                    }
                }
            }
            if v.has(a as int, id) {
            } else {
                assert(v.has(b as int, id));
            }
        } else if j != b as int {
            assert(v.has(j, id));
        }
    }
    assert forall|id: u32| #[trigger] w.lookup.contains_key(id) implies w.lookup[id] < w.classes.len()
        && w.has(w.lookup[id] as int, id) by {
        let j = v.lookup[id] as int;
        assert(v.has(j, id));
        if j == b as int || j == a as int {
            if ca.preds.contains(id) {
                let k = choose|k: int| 0 <= k < ca.preds.len() && ca.preds[k] == id;
                assert((ca.preds + cb.preds)[k] == id);
            }
            if ca.nodes.contains(id) {
                let k = choose|k: int| 0 <= k < ca.nodes.len() && ca.nodes[k] == id;
                assert((ca.nodes + cb.nodes)[k] == id);
            }
            if j == b as int && cb.preds.contains(id) {
                let k = choose|k: int| 0 <= k < cb.preds.len() && cb.preds[k] == id;
                assert((ca.preds + cb.preds)[k + ca.preds.len()] == id);
            }
            if j == b as int && cb.nodes.contains(id) {
                let k = choose|k: int| 0 <= k < cb.nodes.len() && cb.nodes[k] == id;
                assert((ca.nodes + cb.nodes)[k + ca.nodes.len()] == id);
            }
        }
    }
    assert forall|i: int, k: int| 0 <= i < w.free.len() && 0 <= k < w.free.len() && i != k implies w.free[i] != w.free[k] by {
        if i < v.free.len() && k < v.free.len() {
        } else if i < v.free.len() {
            assert(v.free.contains(v.free[i]));
        } else {
            assert(v.free.contains(v.free[k]));
        }
    }
}

pub proof fn lemma_without_node_wf(v: CollectionView, node: u32)
    requires
        v.wf(),
        v.knows(node),
        !v.classes[v.class_of(node) as int].preds.contains(node),
    ensures
        v.without_node(node).wf(),
{
    let w = v.without_node(node);
    let i = v.class_of(node);
    lemma_occupied_not_free(v, node);
    assert forall|k: int| 0 <= k < w.free.len() implies 0 < #[trigger] w.free[k] < w.classes.len()
        && w.classes[w.free[k] as int] == empty_class() by {
        if k < v.free.len() {
            assert(v.free.contains(v.free[k]));
        }
    }
    assert forall|j: int, id: u32| 0 <= j < w.classes.len() && #[trigger] w.has(j, id) implies w.lookup.contains_key(id)
        && w.lookup[id] == j by {
        lemma_drop_id_contains(v.classes[i as int].nodes, node, id);
        if j != i as int {
            assert(v.has(j, id));
        } else {
            assert(v.has(j, id));
        }
    }
    assert forall|id: u32| #[trigger] w.lookup.contains_key(id) implies w.lookup[id] < w.classes.len()
        && w.has(w.lookup[id] as int, id) by {
        lemma_drop_id_contains(v.classes[i as int].nodes, node, id);
        assert(v.lookup.contains_key(id));
        assert(v.has(v.lookup[id] as int, id));
    }
    assert forall|a: int, k: int| 0 <= a < w.free.len() && 0 <= k < w.free.len() && a != k implies w.free[a] != w.free[k] by {
        if a < v.free.len() && k < v.free.len() {
        } else if a < v.free.len() {
            assert(v.free.contains(v.free[a]));
        } else {
            assert(v.free.contains(v.free[k]));
        }
    }
}

pub proof fn lemma_cleared_wf(v: CollectionView, i: usize)
    requires
        v.wf(),
        i < v.classes.len(),
        !v.free.contains(i),
    ensures
        v.cleared(i).wf(),
{
    let w = v.cleared(i);
    assert forall|k: int| 0 <= k < w.free.len() implies 0 < #[trigger] w.free[k] < w.classes.len()
        && w.classes[w.free[k] as int] == empty_class() by {
        if k < v.free.len() {
            assert(v.free.contains(v.free[k]));
        }
    }
    assert forall|j: int, id: u32| 0 <= j < w.classes.len() && #[trigger] w.has(j, id) implies w.lookup.contains_key(id)
        && w.lookup[id] == j by {
        assert(v.has(j, id));
    }
    assert forall|id: u32| #[trigger] w.lookup.contains_key(id) implies w.lookup[id] < w.classes.len()
        && w.has(w.lookup[id] as int, id) by {
        assert(v.has(v.lookup[id] as int, id));
    }
    assert forall|a: int, k: int| 0 <= a < w.free.len() && 0 <= k < w.free.len() && a != k implies w.free[a] != w.free[k] by {
        if a < v.free.len() && k < v.free.len() {
        } else if a < v.free.len() {
            assert(v.free.contains(v.free[a]));
        } else {
            assert(v.free.contains(v.free[k]));
        }
    }
}

pub proof fn lemma_with_nodes(v: CollectionView, ns: Seq<u32>, i: usize)
    requires
        v.wf(),
        i < v.classes.len(),
        !v.free.contains(i),
        ns.no_duplicates(),
        forall|k: int| 0 <= k < ns.len() ==> !v.knows(#[trigger] ns[k]),
    ensures
        v.with_nodes(ns, i).wf(),
        v.with_nodes(ns, i).classes.len() == v.classes.len(),
        v.with_nodes(ns, i).free == v.free,
        forall|x: u32| #[trigger] v.with_nodes(ns, i).knows(x) <==> (v.knows(x) || ns.contains(x)),
        forall|x: u32| v.knows(x) ==> #[trigger] v.with_nodes(ns, i).lookup[x] == v.lookup[x],
        forall|j: int| 0 <= j < v.classes.len() ==> #[trigger] v.with_nodes(ns, i).classes[j].preds == v.classes[j].preds,
    decreases ns.len(),
{
    if ns.len() > 0 {
        let pre = ns.drop_last();
        assert forall|k: int| 0 <= k < pre.len() implies !v.knows(#[trigger] pre[k]) by {
            assert(pre[k] == ns[k]);
        }
        lemma_with_nodes(v, pre, i);
        let w = v.with_nodes(pre, i);
        assert(!pre.contains(ns.last())) by {
            if pre.contains(ns.last()) {
                let k = choose|k: int| 0 <= k < pre.len() && pre[k] == ns.last();
                assert(ns[k] == ns[ns.len() - 1]);
            }
        }
        assert(!v.knows(ns[ns.len() - 1]));
        lemma_with_node_wf(w, ns.last(), i);
        assert forall|x: u32| #[trigger] v.with_nodes(ns, i).knows(x) <==> (v.knows(x) || ns.contains(x)) by {
            lemma_last_contains(ns, x);
            assert(w.knows(x) <==> (v.knows(x) || pre.contains(x)));
        }
        assert forall|x: u32| v.knows(x) implies #[trigger] v.with_nodes(ns, i).lookup[x] == v.lookup[x] by {
            assert(w.lookup[x] == v.lookup[x]);
        }
    }
}

pub proof fn lemma_without_nodes(v: CollectionView, ns: Seq<u32>)
    requires
        v.wf(),
        ns.no_duplicates(),
        forall|k: int| 0 <= k < ns.len() ==> v.knows(#[trigger] ns[k]),
        forall|k: int| 0 <= k < ns.len() ==> !v.classes[v.class_of(#[trigger] ns[k]) as int].preds.contains(ns[k]),
    ensures
        v.without_nodes(ns).wf(),
        v.without_nodes(ns).classes.len() == v.classes.len(),
        forall|x: u32| #[trigger] v.without_nodes(ns).knows(x) <==> (v.knows(x) && !ns.contains(x)),
        forall|x: u32| v.knows(x) && !ns.contains(x) ==> #[trigger] v.without_nodes(ns).lookup[x] == v.lookup[x],
        forall|j: int| 0 <= j < v.classes.len() ==> #[trigger] v.without_nodes(ns).classes[j].preds == v.classes[j].preds,
    decreases ns.len(),
{
    if ns.len() > 0 {
        let pre = ns.drop_last();
        assert forall|k: int| 0 <= k < pre.len() implies v.knows(#[trigger] pre[k]) && !v.classes[v.class_of(pre[k]) as int].preds.contains(pre[k]) by {
            assert(pre[k] == ns[k]);
        }
        lemma_without_nodes(v, pre);
        let w = v.without_nodes(pre);
        let x = ns.last();
        assert(!pre.contains(x)) by {
            if pre.contains(x) {
                let k = choose|k: int| 0 <= k < pre.len() && pre[k] == x;
                assert(ns[k] == ns[ns.len() - 1]);
            }
        }
        assert(v.knows(ns[ns.len() - 1]));
        assert(!v.classes[v.class_of(ns[ns.len() - 1]) as int].preds.contains(ns[ns.len() - 1]));
        assert(w.knows(x));
        assert(w.lookup[x] == v.lookup[x]);
        assert(v.has(v.lookup[x] as int, x));
        lemma_without_node_wf(w, x);
        assert forall|y: u32| #[trigger] v.without_nodes(ns).knows(y) <==> (v.knows(y) && !ns.contains(y)) by {
            lemma_last_contains(ns, y);
            assert(w.knows(y) <==> (v.knows(y) && !pre.contains(y)));
        }
        assert forall|y: u32| v.knows(y) && !ns.contains(y) implies #[trigger] v.without_nodes(ns).lookup[y] == v.lookup[y] by {
            lemma_last_contains(ns, y);
            assert(w.lookup[y] == v.lookup[y]);
        }
    }
}

/// `m` without the identifiers of `ids`.
pub open spec fn unpointed(m: Map<u32, usize>, ids: Seq<u32>) -> Map<u32, usize> {
    Map::new(|id: u32| m.contains_key(id) && !ids.contains(id), |id: u32| m[id])
}

/// The index of all cliques of one side: classes in stable slots, a queue of
/// reclaimed slots reused oldest first, and the slot of every known identifier.
/// Slot 0 is the empty clique, where nodes without a predicate wait.
pub struct CliqueCollection {
    cliques: Vec<Clique>,
    queue: VecDeque<usize>,
    index_map: HashMap<u32, usize>,
}

impl View for CliqueCollection {
    type V = CollectionView;

    closed spec fn view(&self) -> CollectionView {
        CollectionView {
            classes: self.cliques@.map_values(|c: Clique| c@),
            free: self.queue@,
            lookup: self.index_map@,
        }
    }
}

impl CliqueCollection {
    pub open spec fn wf(&self) -> bool {
        self@.wf()
    }

    /// A collection that holds only the empty clique.
    pub fn new() -> (r: Self)
        ensures
            r.wf(),
            r@.classes == seq![empty_class()],
            r@.free == Seq::<usize>::empty(),
            r@.lookup == Map::<u32, usize>::empty(),
    {
        let mut cliques: Vec<Clique> = Vec::new();
        cliques.push(Clique { preds: Vec::new(), nodes: Vec::new() });
        let r = CliqueCollection { cliques, queue: VecDeque::new(), index_map: HashMap::new() };
        assert(r@.classes =~= seq![empty_class()]);
        assert(r@.classes[0].preds =~= Seq::<u32>::empty());
        r
    }

    /// Sends every identifier of `preds` and `nodes` to slot `index`.
    fn set_index(&mut self, preds: &Vec<u32>, nodes: &Vec<u32>, index: usize)
        ensures
            final(self).cliques@ == old(self).cliques@,
            final(self).queue@ == old(self).queue@,
            final(self).index_map@ == pointed(pointed(old(self).index_map@, preds@, index), nodes@, index),
    {
        let ghost m0 = self.index_map@;
        let mut i: usize = 0;
        while i < preds.len()
            invariant
                i <= preds.len(),
                self.cliques@ == old(self).cliques@,
                self.queue@ == old(self).queue@,
                self.index_map@ == pointed(m0, preds@.subrange(0, i as int), index),
            decreases preds.len() - i,
        {
            proof {
                assert(preds@.subrange(0, i + 1) =~= preds@.subrange(0, i as int).push(preds@[i as int]));
                assert forall|id: u32| true implies preds@.subrange(0, i + 1).contains(id) <==> (preds@.subrange(0, i as int).contains(id) || id == preds@[i as int]) by {
                    lemma_push_contains(preds@.subrange(0, i as int), preds@[i as int], id);
                }
            }
            self.index_map.insert(preds[i], index);
            i = i + 1;
            assert(self.index_map@ =~= pointed(m0, preds@.subrange(0, i as int), index));
        }
        assert(preds@.subrange(0, i as int) =~= preds@);
        let ghost m1 = self.index_map@;
        let mut j: usize = 0;
        while j < nodes.len()
            invariant
                j <= nodes.len(),
                self.cliques@ == old(self).cliques@,
                self.queue@ == old(self).queue@,
                self.index_map@ == pointed(m1, nodes@.subrange(0, j as int), index),
            decreases nodes.len() - j,
        {
            proof {
                assert(nodes@.subrange(0, j + 1) =~= nodes@.subrange(0, j as int).push(nodes@[j as int]));
                assert forall|id: u32| true implies nodes@.subrange(0, j + 1).contains(id) <==> (nodes@.subrange(0, j as int).contains(id) || id == nodes@[j as int]) by {
                    lemma_push_contains(nodes@.subrange(0, j as int), nodes@[j as int], id);
                }
            }
            self.index_map.insert(nodes[j], index);
            j = j + 1;
            assert(self.index_map@ =~= pointed(m1, nodes@.subrange(0, j as int), index));
        }
        assert(nodes@.subrange(0, j as int) =~= nodes@);
    }

    /// Adds a class of `preds` and `nodes`, in the oldest reclaimed slot if there
    /// is one, else in a new slot.
    pub fn new_clique(&mut self, preds: &Vec<u32>, nodes: &Vec<u32>)
        requires
            old(self).wf(),
            forall|id: u32| preds@.contains(id) ==> !old(self)@.knows(id),
            forall|id: u32| nodes@.contains(id) ==> !old(self)@.knows(id),
        ensures
            final(self).wf(),
            final(self)@ == old(self)@.with_class(preds@, nodes@),
    {
        let ghost v = self@;
        let c = Clique::new(preds, nodes);
        match self.queue.pop_front() {
            Some(index) => {
                self.cliques.set(index, c);
                self.set_index(preds, nodes, index);
            },
            None => {
                self.cliques.push(c);
                let n = self.cliques.len();
                self.set_index(preds, nodes, n - 1);
            },
        }
        proof {
            assert(self@.classes =~= v.with_class(preds@, nodes@).classes);
            assert(self@.free =~= v.with_class(preds@, nodes@).free);
            lemma_with_class_wf(v, preds@, nodes@);
        }
    }

    /// Appends `node` to the class that holds `target`.
    fn add_node_to_clique(&mut self, node: &u32, target: &u32)
        requires
            old(self).wf(),
            old(self)@.knows(*target),
            !old(self)@.knows(*node),
        ensures
            final(self).wf(),
            final(self)@ == old(self)@.with_node(*node, old(self)@.class_of(*target)),
    {
        let ghost v = self@;
        let index = self.get_index(target);
        self.cliques[index].nodes.push(*node);
        self.index_map.insert(*node, index);
        proof {
            assert(self@.classes =~= v.with_node(*node, index).classes);
            lemma_occupied_not_free(v, *target);
            lemma_with_node_wf(v, *node, index);
        }
    }

    /// Appends `pred` to the class that holds `node`, which must not be the
    /// empty clique.
    fn add_pred_to_clique(&mut self, node: &u32, pred: &u32)
        requires
            old(self).wf(),
            old(self)@.knows(*node),
            old(self)@.class_of(*node) != 0,
            !old(self)@.knows(*pred),
        ensures
            final(self).wf(),
            final(self)@ == old(self)@.with_pred(*pred, old(self)@.class_of(*node)),
    {
        let ghost v = self@;
        let index = self.get_index(node);
        self.cliques[index].preds.push(*pred);
        self.index_map.insert(*pred, index);
        proof {
            assert(self@.classes =~= v.with_pred(*pred, index).classes);
            lemma_occupied_not_free(v, *node);
            lemma_with_pred_wf(v, *pred, index);
        }
    }

    /// Puts a new node into the empty clique.
    pub fn add_node_to_empty_clique(&mut self, node: &u32)
        requires
            old(self).wf(),
            !old(self)@.knows(*node),
        ensures
            final(self).wf(),
            final(self)@ == old(self)@.with_node(*node, 0),
            final(self)@.class_of(*node) == 0,
    {
        let ghost v = self@;
        self.cliques[0].nodes.push(*node);
        self.index_map.insert(*node, 0);
        proof {
            assert(self@.classes =~= v.with_node(*node, 0).classes);
            if v.free.contains(0) {
                let k = choose|k: int| 0 <= k < v.free.len() && v.free[k] == 0;
            }
            lemma_with_node_wf(v, *node, 0);
        }
    }

    /// Whether `pred` is known to the collection.
    pub fn contains_pred(&self, pred: &u32) -> (r: bool)
        ensures
            r == self@.knows(*pred),
    {
        self.index_map.contains_key(pred)
    }

    /// Whether `node` is known to the collection.
    pub fn contains_node(&self, node: &u32) -> (r: bool)
        ensures
            r == self@.knows(*node),
    {
        self.index_map.contains_key(node)
    }

    /// The slot of the class that holds `id`.
    pub fn get_index(&self, id: &u32) -> (r: usize)
        requires
            self@.knows(*id),
        ensures
            r == self@.class_of(*id),
    {
        match self.index_map.get(id) {
            Some(i) => *i,
            None => 0,
        }
    }
    /// Adds a class that holds the new predicate `pred` and no node.
    pub fn new_pred(&mut self, pred: &u32)
        requires
            old(self).wf(),
            !old(self)@.knows(*pred),
        ensures
            final(self).wf(),
            final(self)@ == old(self)@.with_class(seq![*pred], Seq::empty()),
    {
        let mut preds: Vec<u32> = Vec::new();
        preds.push(*pred);
        let nodes: Vec<u32> = Vec::new();
        proof {
            assert(preds@ =~= seq![*pred]);
            assert(nodes@ =~= Seq::<u32>::empty());
            assert forall|id: u32| preds@.contains(id) implies !self@.knows(id) by {
                assert(preds@[0] == *pred);
            }
        }
        self.new_clique(&preds, &nodes);
    }

    /// Whether `a` and `b` sit in one class.
    pub fn in_same_clique(&self, a: &u32, b: &u32) -> (r: bool)
        requires
            self@.knows(*a),
            self@.knows(*b),
        ensures
            r == (self@.class_of(*a) == self@.class_of(*b)),
    {
        self.get_index(a) == self.get_index(b)
    }

    /// Whether `node` sits in the empty clique.
    pub fn in_empty_clique(&self, node: &u32) -> (r: bool)
        requires
            self@.knows(*node),
        ensures
            r == (self@.class_of(*node) == 0),
    {
        self.get_index(node) == 0
    }

    /// A copy of the nodes of slot `index`.
    pub fn get_nodes(&self, index: usize) -> (r: Vec<u32>)
        requires
            index < self@.classes.len(),
        ensures
            r@ == self@.classes[index as int].nodes,
    {
        copy_ids(&self.cliques[index].nodes)
    }

    /// A copy of the class that holds `id`.
    pub fn get_clique_by_node(&self, id: &u32) -> (r: Clique)
        requires
            self.wf(),
            self@.knows(*id),
        ensures
            r@ == self@.classes[self@.class_of(*id) as int],
    {
        let index = self.get_index(id);
        self.cliques[index].copy()
    }

    /// A copy of the class in slot `index`.
    pub fn get_clique_by_index(&self, index: usize) -> (r: Clique)
        requires
            index < self@.classes.len(),
        ensures
            r@ == self@.classes[index as int],
    {
        self.cliques[index].copy()
    }

    /// The number of nodes in slot `index`.
    pub fn clique_len(&self, index: usize) -> (r: usize)
        requires
            index < self@.classes.len(),
        ensures
            r == self@.classes[index as int].nodes.len(),
    {
        self.cliques[index].nodes.len()
    }

    /// Merges the class of `b` into the class of `a`; the slot of `b` is emptied
    /// and reclaimed.
    pub fn merge_cliques(&mut self, a: &u32, b: &u32)
        requires
            old(self).wf(),
            old(self)@.knows(*a),
            old(self)@.knows(*b),
            old(self)@.class_of(*a) != old(self)@.class_of(*b),
            old(self)@.class_of(*a) != 0,
            old(self)@.class_of(*b) != 0,
        ensures
            final(self).wf(),
            final(self)@ == old(self)@.merged(old(self)@.class_of(*a), old(self)@.class_of(*b)),
    {
        let ghost v = self@;
        let a_index = self.get_index(a);
        let b_index = self.get_index(b);
        let b_clique = self.cliques[b_index].copy();
        self.set_index(&b_clique.preds, &b_clique.nodes, a_index);
        self.cliques[a_index].merge(&b_clique);
        self.cliques.set(b_index, Clique { preds: Vec::new(), nodes: Vec::new() });
        self.queue.push_back(b_index);
        proof {
            let w = v.merged(a_index, b_index);
            assert(v.classes[b_index as int] == b_clique@);
            assert(self@.classes[b_index as int].preds =~= Seq::<u32>::empty());
            assert(self@.classes[b_index as int].nodes =~= Seq::<u32>::empty());
            assert(self@.classes =~= w.classes);
            let m1 = pointed(v.lookup, b_clique.preds@, a_index);
            assert(self@.lookup == pointed(m1, b_clique.nodes@, a_index));
            assert forall|id: u32| #[trigger] w.lookup.contains_key(id) implies self@.lookup.contains_key(id)
                && self@.lookup[id] == w.lookup[id] by {
                assert(v.has(v.lookup[id] as int, id));
                if v.lookup[id] == b_index {
                    assert(b_clique.preds@.contains(id) || b_clique.nodes@.contains(id));
                } else {
                    assert(!v.has(b_index as int, id));
                    assert(m1[id] == v.lookup[id]);
                }
            }
            assert forall|id: u32| #[trigger] self@.lookup.contains_key(id) implies w.lookup.contains_key(id) by {
                if b_clique.preds@.contains(id) || b_clique.nodes@.contains(id) {
                    assert(v.has(b_index as int, id));
                }
            }
            assert(self@.lookup =~= w.lookup);
            lemma_occupied_not_free(v, *a);
            lemma_occupied_not_free(v, *b);
            lemma_merged_wf(v, a_index, b_index);
        }
    }

    /// Empties slot `index`, forgets every identifier it held, and reclaims the
    /// slot unless it is the empty clique's.
    pub fn remove_clique_by_index(&mut self, index: usize)
        requires
            old(self).wf(),
            index < old(self)@.classes.len(),
            !old(self)@.free.contains(index),
        ensures
            final(self).wf(),
            final(self)@ == old(self)@.cleared(index),
    {
        let ghost v = self@;
        let c = self.cliques[index].copy();
        let ghost m0 = self.index_map@;
        let mut i: usize = 0;
        while i < c.preds.len()
            invariant
                i <= c.preds.len(),
                self.cliques@ == old(self).cliques@,
                self.queue@ == old(self).queue@,
                self.index_map@ == unpointed(m0, c.preds@.subrange(0, i as int)),
            decreases c.preds.len() - i,
        {
            proof {
                assert(c.preds@.subrange(0, i + 1) =~= c.preds@.subrange(0, i as int).push(c.preds@[i as int]));
                assert forall|id: u32| true implies c.preds@.subrange(0, i + 1).contains(id) <==> (c.preds@.subrange(0, i as int).contains(id) || id == c.preds@[i as int]) by {
                    lemma_push_contains(c.preds@.subrange(0, i as int), c.preds@[i as int], id);
                }
            }
            self.index_map.remove(&c.preds[i]);
            i = i + 1;
            assert(self.index_map@ =~= unpointed(m0, c.preds@.subrange(0, i as int)));
        }
        assert(c.preds@.subrange(0, i as int) =~= c.preds@);
        let ghost m1 = self.index_map@;
        let mut j: usize = 0;
        while j < c.nodes.len()
            invariant
                j <= c.nodes.len(),
                self.cliques@ == old(self).cliques@,
                self.queue@ == old(self).queue@,
                self.index_map@ == unpointed(m1, c.nodes@.subrange(0, j as int)),
            decreases c.nodes.len() - j,
        {
            proof {
                assert(c.nodes@.subrange(0, j + 1) =~= c.nodes@.subrange(0, j as int).push(c.nodes@[j as int]));
                assert forall|id: u32| true implies c.nodes@.subrange(0, j + 1).contains(id) <==> (c.nodes@.subrange(0, j as int).contains(id) || id == c.nodes@[j as int]) by {
                    lemma_push_contains(c.nodes@.subrange(0, j as int), c.nodes@[j as int], id);
                }
            }
            self.index_map.remove(&c.nodes[j]);
            j = j + 1;
            assert(self.index_map@ =~= unpointed(m1, c.nodes@.subrange(0, j as int)));
        }
        assert(c.nodes@.subrange(0, j as int) =~= c.nodes@);
        self.cliques.set(index, Clique { preds: Vec::new(), nodes: Vec::new() });
        if index != 0 {
            self.queue.push_back(index);
        }
        proof {
            let w = v.cleared(index);
            assert(self@.classes[index as int].preds =~= Seq::<u32>::empty());
            assert(self@.classes[index as int].nodes =~= Seq::<u32>::empty());
            assert(self@.classes =~= w.classes);
            assert forall|id: u32| true implies (self@.lookup.contains_key(id) == w.lookup.contains_key(id)) by {
                if v.lookup.contains_key(id) {
                    assert(v.has(v.lookup[id] as int, id));
                }
                if v.has(index as int, id) {
                }
            }
            assert(self@.lookup =~= w.lookup);
            lemma_cleared_wf(v, index);
        }
    }

    /// Takes `node` out of its class and out of the lookup; a slot other than the
    /// empty clique's that is left with nothing is reclaimed.
    pub fn remove_node(&mut self, node: &u32)
        requires
            old(self).wf(),
            old(self)@.knows(*node),
            !old(self)@.classes[old(self)@.class_of(*node) as int].preds.contains(*node),
        ensures
            final(self).wf(),
            final(self)@ == old(self)@.without_node(*node),
    {
        let ghost v = self@;
        let index = self.get_index(node);
        self.cliques[index].remove_node(node);
        self.index_map.remove(node);
        if index != 0 && self.cliques[index].nodes.len() == 0 && self.cliques[index].preds.len() == 0 {
            self.queue.push_back(index);
        }
        proof {
            let w = v.without_node(*node);
            assert(self@.classes =~= w.classes);
            let c = w.classes[index as int];
            if c.preds.len() == 0 && c.nodes.len() == 0 {
                assert(c.preds =~= empty_class().preds);
                assert(c.nodes =~= empty_class().nodes);
            }
            assert(self@.free =~= w.free);
            assert(self@.lookup =~= w.lookup);
            lemma_without_node_wf(v, *node);
        }
    }

    /// Moves `node` into the class that holds `target`.
    pub fn move_node(&mut self, node: &u32, target: &u32)
        requires
            old(self).wf(),
            old(self)@.knows(*node),
            old(self)@.knows(*target),
            *node != *target,
            !old(self)@.classes[old(self)@.class_of(*node) as int].preds.contains(*node),
        ensures
            final(self).wf(),
            final(self)@ == old(self)@.without_node(*node).with_node(*node, old(self)@.class_of(*target)),
    {
        self.remove_node(node);
        self.add_node_to_clique(node, target);
    }

    /// Moves `node` into the empty clique.
    pub fn move_node_to_empty_clique(&mut self, node: &u32)
        requires
            old(self).wf(),
            old(self)@.knows(*node),
            !old(self)@.classes[old(self)@.class_of(*node) as int].preds.contains(*node),
        ensures
            final(self).wf(),
            final(self)@ == old(self)@.without_node(*node).with_node(*node, 0),
    {
        self.remove_node(node);
        self.add_node_to_empty_clique(node);
    }

    /// Records the pair of a new triple's `node` and `pred`: a new class when both
    /// are new, the new one joins the class of the known one, and two known ones
    /// in different classes have their classes merged.
    pub fn new_triple(&mut self, node: &u32, pred: &u32)
        requires
            old(self).wf(),
            old(self)@.knows(*node) ==> old(self)@.class_of(*node) != 0,
            old(self)@.knows(*pred) ==> old(self)@.class_of(*pred) != 0,
        ensures
            final(self).wf(),
            ({
                let v = old(self)@;
                final(self)@ == if !v.knows(*node) && !v.knows(*pred) {
                    v.with_class(seq![*pred], seq![*node])
                } else if !v.knows(*node) {
                    v.with_node(*node, v.class_of(*pred))
                } else if !v.knows(*pred) {
                    v.with_pred(*pred, v.class_of(*node))
                } else if v.class_of(*node) == v.class_of(*pred) {
                    v
                } else {
                    v.merged(v.class_of(*node), v.class_of(*pred))
                }
            }),
    {
        let node_exists = self.contains_node(node);
        let pred_exists = self.contains_pred(pred);
        if !node_exists && !pred_exists {
            let mut preds: Vec<u32> = Vec::new();
            preds.push(*pred);
            let mut nodes: Vec<u32> = Vec::new();
            nodes.push(*node);
            proof {
                assert(preds@ =~= seq![*pred]);
                assert(nodes@ =~= seq![*node]);
                assert forall|id: u32| preds@.contains(id) implies !self@.knows(id) by {
                    assert(preds@[0] == *pred);
                }
                assert forall|id: u32| nodes@.contains(id) implies !self@.knows(id) by {
                    assert(nodes@[0] == *node);
                }
            }
            self.new_clique(&preds, &nodes);
        } else if !node_exists && pred_exists {
            self.add_node_to_clique(node, pred);
        } else if node_exists && !pred_exists {
            self.add_pred_to_clique(node, pred);
        } else {
            proof {
                assert(self@.has(self@.class_of(*pred) as int, *pred));
            }
            if self.get_index(node) != self.get_index(pred) {
                self.merge_cliques(node, pred);
            }
        }
    }
    /// Attaches `node`, a former member of a supernode, to the class of `target`.
    pub fn snode_split_and_move(&mut self, node: &u32, target: &u32)
        requires
            old(self).wf(),
            old(self)@.knows(*target),
            !old(self)@.knows(*node),
        ensures
            final(self).wf(),
            final(self)@ == old(self)@.with_node(*node, old(self)@.class_of(*target)),
    {
        self.add_node_to_clique(node, target);
    }

    /// Attaches `node`, a former member of the supernode `parent`, to the class
    /// of `parent`.
    pub fn snode_split(&mut self, node: &u32, parent: &u32)
        requires
            old(self).wf(),
            old(self)@.knows(*parent),
            !old(self)@.knows(*node),
        ensures
            final(self).wf(),
            final(self)@ == old(self)@.with_node(*node, old(self)@.class_of(*parent)),
    {
        self.add_node_to_clique(node, parent);
    }

    /// Replaces the supernode `snode` by the plain node `single` in its class.
    pub fn to_single_node(&mut self, snode: &u32, single: &u32)
        requires
            old(self).wf(),
            old(self)@.knows(*snode),
            !old(self)@.knows(*single),
            !old(self)@.classes[old(self)@.class_of(*snode) as int].preds.contains(*snode),
        ensures
            final(self).wf(),
            final(self)@ == old(self)@.with_node(*single, old(self)@.class_of(*snode)).without_node(*snode),
    {
        self.add_node_to_clique(single, snode);
        self.remove_node(snode);
    }

    /// Compresses the nodes of `members` into the new supernode `new`: `new` joins the
    /// class of the first of them, and all of them leave the collection.
    pub fn new_snode(&mut self, members: &Vec<u32>, new: &u32)
        requires
            old(self).wf(),
            members@.len() >= 1,
            members@.no_duplicates(),
            !old(self)@.knows(*new),
            forall|k: int| 0 <= k < members@.len() ==> old(self)@.knows(#[trigger] members@[k]),
            forall|k: int| 0 <= k < members@.len() ==> !old(self)@.classes[old(self)@.class_of(#[trigger] members@[k]) as int].preds.contains(members@[k]),
        ensures
            final(self).wf(),
            final(self)@ == old(self)@.with_node(*new, old(self)@.class_of(members@[0])).without_nodes(members@),
    {
        let ghost v = self@;
        self.add_node_to_clique(new, &members[0]);
        let ghost w0 = self@;
        proof {
            assert forall|k: int| 0 <= k < members@.len() implies w0.knows(#[trigger] members@[k])
                && !w0.classes[w0.class_of(members@[k]) as int].preds.contains(members@[k]) by {
                assert(v.has(v.lookup[members@[k]] as int, members@[k]));
            }
            lemma_without_nodes(w0, members@);
        }
        let mut i: usize = 0;
        while i < members.len()
            invariant
                i <= members@.len(),
                members@.no_duplicates(),
                w0.wf(),
                forall|k: int| 0 <= k < members@.len() ==> w0.knows(#[trigger] members@[k]),
                forall|k: int| 0 <= k < members@.len() ==> !w0.classes[w0.class_of(#[trigger] members@[k]) as int].preds.contains(members@[k]),
                self.wf(),
                self@ == w0.without_nodes(members@.subrange(0, i as int)),
            decreases members@.len() - i,
        {
            let ghost pre = members@.subrange(0, i as int);
            proof {
                assert forall|k: int| 0 <= k < pre.len() implies w0.knows(#[trigger] pre[k])
                    && !w0.classes[w0.class_of(pre[k]) as int].preds.contains(pre[k]) by {
                    assert(pre[k] == members@[k]);
                }
                assert(pre.no_duplicates()) by {
                    assert forall|a: int, b: int| 0 <= a < pre.len() && 0 <= b < pre.len() && a != b implies pre[a] != pre[b] by {
                        assert(pre[a] == members@[a] && pre[b] == members@[b]);
                    }
                }
                lemma_without_nodes(w0, pre);
                let x = members@[i as int];
                assert(!pre.contains(x)) by {
                    if pre.contains(x) {
                        let k = choose|k: int| 0 <= k < pre.len() && pre[k] == x;
                        assert(members@[k] == x);
                    }
                }
                assert(w0.knows(members@[i as int]));
                assert(!w0.classes[w0.class_of(members@[i as int]) as int].preds.contains(members@[i as int]));
                assert(w0.has(w0.lookup[x] as int, x));
                assert(members@.subrange(0, i + 1).drop_last() =~= pre);
            }
            self.remove_node(&members[i]);
            i = i + 1;
        }
        assert(members@.subrange(0, i as int) =~= members@);
    }

    /// Expands the class that holds `target` through the hierarchy (see
    /// `Clique::get_all_edges`).
    pub fn get_all_edges(&self, target: &u32, is_source: bool, meta: &mut Meta) -> (r: (Vec<u32>, Vec<Vec<u32>>, Vec<Vec<u32>>))
        requires
            self.wf(),
            self@.knows(*target),
        ensures
            *final(meta) == *old(meta),
            ({
                let ns = self@.classes[self@.class_of(*target) as int].nodes;
                &&& r.0@ == leaves(old(meta)@, ns)
                &&& r.1@.len() == met_groups(old(meta)@, ns).len()
                &&& forall|k: int| 0 <= k < r.1@.len() ==> #[trigger] r.1@[k]@ == met_groups(old(meta)@, ns)[k]
                &&& r.2@.len() == r.0@.len()
                &&& forall|k: int| 0 <= k < r.2@.len() ==> #[trigger] r.2@[k]@ == preds_each(old(meta)@, r.0@, is_source)[k]
            }),
    {
        self.get_clique_by_node(target).get_all_edges(is_source, meta)
    }

    /// Dissolves the supernode `p`: its members, as the hierarchy records them,
    /// join the class of `p`, and `p` leaves the collection.
    pub fn remove_supernode(&mut self, p: &u32, meta: &Meta)
        requires
            old(self).wf(),
            old(self)@.knows(*p),
            !old(self)@.classes[old(self)@.class_of(*p) as int].preds.contains(*p),
            meta@.groups.contains_key(*p),
            meta@.groups[*p].no_duplicates(),
            forall|k: int| 0 <= k < meta@.groups[*p].len() ==> !old(self)@.knows(#[trigger] meta@.groups[*p][k]),
        ensures
            final(self).wf(),
            final(self)@ == old(self)@.with_nodes(meta@.groups[*p], old(self)@.class_of(*p)).without_node(*p),
    {
        let ghost v = self@;
        let ghost slot = v.class_of(*p);
        proof {
            lemma_occupied_not_free(v, *p);
        }
        match meta.get_supernode(p) {
            Some(children) => {
                let mut i: usize = 0;
                while i < children.len()
                    invariant
                        i <= children@.len(),
                        children@ == meta@.groups[*p],
                        v.wf(),
                        v.knows(*p),
                        slot == v.class_of(*p),
                        slot < v.classes.len(),
                        !v.free.contains(slot),
                        children@.no_duplicates(),
                        forall|k: int| 0 <= k < children@.len() ==> !v.knows(#[trigger] children@[k]),
                        self.wf(),
                        self@ == v.with_nodes(children@.subrange(0, i as int), slot),
                    decreases children@.len() - i,
                {
                    let ghost pre = children@.subrange(0, i as int);
                    proof {
                        assert forall|k: int| 0 <= k < pre.len() implies !v.knows(#[trigger] pre[k]) by {
                            assert(pre[k] == children@[k]);
                        }
                        assert(pre.no_duplicates()) by {
                            assert forall|a: int, b: int| 0 <= a < pre.len() && 0 <= b < pre.len() && a != b implies pre[a] != pre[b] by {
                                assert(pre[a] == children@[a] && pre[b] == children@[b]);
                            }
                        }
                        lemma_with_nodes(v, pre, slot);
                        let x = children@[i as int];
                        assert(!pre.contains(x)) by {
                            if pre.contains(x) {
                                let k = choose|k: int| 0 <= k < pre.len() && pre[k] == x;
                                assert(children@[k] == x);
                            }
                        }
                        assert(!v.knows(x));
                        assert(self@.knows(*p));
                        assert(children@.subrange(0, i + 1).drop_last() =~= pre);
                    }
                    self.add_node_to_clique(&children[i], p);
                    i = i + 1;
                }
                assert(children@.subrange(0, i as int) =~= children@);
                proof {
                    lemma_with_nodes(v, children@, slot);
                }
                self.remove_node(p);
            },
            None => {},
        }
    }
}

} // verus!
