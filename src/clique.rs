use vstd::prelude::*;
use crate::meta::{Meta, leaves, met_groups, preds_each};

verus! {

/// `s` without any occurrence of `x`, order kept.
pub open spec fn drop_id(s: Seq<u32>, x: u32) -> Seq<u32>
    decreases s.len(),
{
    if s.len() == 0 {
        s
    } else {
        let r = drop_id(s.drop_last(), x);
        if s.last() == x {
            r
        } else {
            r.push(s.last())
        }
    }
}

/// The elements of `a` that also occur in `b`, in the order of `a`.
pub open spec fn common(a: Seq<u32>, b: Seq<u32>) -> Seq<u32>
    decreases a.len(),
{
    if a.len() == 0 {
        a
    } else {
        let r = common(a.drop_last(), b);
        if b.contains(a.last()) {
            r.push(a.last())
        } else {
            r
        }
    }
}

/// `m` with every identifier of `ids` sent to `i`.
pub open spec fn pointed(m: Map<u32, usize>, ids: Seq<u32>, i: usize) -> Map<u32, usize> {
    Map::new(
        |id: u32| m.contains_key(id) || ids.contains(id),
        |id: u32|
            if ids.contains(id) {
                i
            } else {
                m[id]
            },
    )
}

pub proof fn lemma_push_contains(s: Seq<u32>, a: u32, y: u32)
    ensures
        s.push(a).contains(y) <==> (s.contains(y) || a == y),
{
    if s.contains(y) {
        let k = choose|k: int| 0 <= k < s.len() && s[k] == y;
        assert(s.push(a)[k] == y);
    }
    if a == y {
        assert(s.push(a)[s.len() as int] == y);
    }
    if s.push(a).contains(y) {
        let k = choose|k: int| 0 <= k < s.len() + 1 && s.push(a)[k] == y;
        if k < s.len() {
            assert(s[k] == y);
        }
    }
}

pub proof fn lemma_last_contains(s: Seq<u32>, y: u32)
    requires
        s.len() > 0,
    ensures
        s.contains(y) <==> (s.drop_last().contains(y) || s.last() == y),
{
    assert(s.drop_last().push(s.last()) =~= s);
    lemma_push_contains(s.drop_last(), s.last(), y);
}

pub proof fn lemma_drop_id_contains(s: Seq<u32>, x: u32, y: u32)
    ensures
        drop_id(s, x).contains(y) <==> (s.contains(y) && y != x),
    decreases s.len(),
{
    if s.len() > 0 {
        lemma_drop_id_contains(s.drop_last(), x, y);
        lemma_last_contains(s, y);
        lemma_push_contains(drop_id(s.drop_last(), x), s.last(), y);
    }
}

pub proof fn lemma_common_contains(a: Seq<u32>, b: Seq<u32>, y: u32)
    ensures
        common(a, b).contains(y) <==> (a.contains(y) && b.contains(y)),
    decreases a.len(),
{
    if a.len() > 0 {
        lemma_common_contains(a.drop_last(), b, y);
        lemma_last_contains(a, y);
        lemma_push_contains(common(a.drop_last(), b), a.last(), y);
    }
}

/// Copies a list of identifiers.
pub fn copy_ids(v: &Vec<u32>) -> (r: Vec<u32>)
    ensures
        r@ == v@,
{
    let mut r: Vec<u32> = Vec::new();
    let mut i: usize = 0;
    while i < v.len()
        invariant
            i <= v.len(),
            r@ == v@.subrange(0, i as int),
        decreases v.len() - i,
    {
        r.push(v[i]);
        i = i + 1;
        assert(r@ =~= v@.subrange(0, i as int));
    }
    assert(r@ =~= v@);
    r
}

/// What a clique holds: its predicates and its member nodes.
pub struct CliqueView {
    pub preds: Seq<u32>,
    pub nodes: Seq<u32>,
}

/// One equivalence class: the predicates its members share, and the members.
#[derive(Clone)]
pub struct Clique {
    pub preds: Vec<u32>,
    pub nodes: Vec<u32>,
}

impl View for Clique {
    type V = CliqueView;

    open spec fn view(&self) -> CliqueView {
        CliqueView { preds: self.preds@, nodes: self.nodes@ }
    }
}

impl Clique {
    /// Creates a clique holding copies of `preds` and `nodes`.
    pub fn new(preds: &Vec<u32>, nodes: &Vec<u32>) -> (r: Self)
        ensures
            r.preds@ == preds@,
            r.nodes@ == nodes@,
    {
        Clique { preds: copy_ids(preds), nodes: copy_ids(nodes) }
    }

    /// An independent copy of this clique.
    pub fn copy(&self) -> (r: Self)
        ensures
            r@ == self@,
    {
        Clique::new(&self.preds, &self.nodes)
    }

    /// Appends the predicates and nodes of `c` to this clique.
    pub fn merge(&mut self, c: &Clique)
        ensures
            final(self).preds@ == old(self).preds@ + c.preds@,
            final(self).nodes@ == old(self).nodes@ + c.nodes@,
    {
        let mut p = copy_ids(&c.preds);
        let mut n = copy_ids(&c.nodes);
        self.preds.append(&mut p);
        self.nodes.append(&mut n);
    }

    /// Drops every occurrence of `node` from the members.
    pub fn remove_node(&mut self, node: &u32)
        ensures
            final(self).preds@ == old(self).preds@,
            final(self).nodes@ == drop_id(old(self).nodes@, *node),
    {
        let mut kept: Vec<u32> = Vec::new();
        let mut i: usize = 0;
        while i < self.nodes.len()
            invariant
                i <= self.nodes.len(),
                kept@ == drop_id(self.nodes@.subrange(0, i as int), *node),
            decreases self.nodes.len() - i,
        {
            assert(self.nodes@.subrange(0, i + 1).drop_last() =~= self.nodes@.subrange(0, i as int));
            if self.nodes[i] != *node {
                kept.push(self.nodes[i]);
            }
            i = i + 1;
        }
        assert(self.nodes@.subrange(0, i as int) =~= self.nodes@);
        self.nodes = kept;
    }

    /// The members of this clique that are also members of `c`, in this clique's order.
    pub fn node_intersection(&self, c: &Clique) -> (r: Vec<u32>)
        ensures
            r@ == common(self.nodes@, c.nodes@),
    {
        let mut r: Vec<u32> = Vec::new();
        let mut i: usize = 0;
        while i < self.nodes.len()
            invariant
                i <= self.nodes.len(),
                r@ == common(self.nodes@.subrange(0, i as int), c.nodes@),
            decreases self.nodes.len() - i,
        {
            assert(self.nodes@.subrange(0, i + 1).drop_last() =~= self.nodes@.subrange(0, i as int));
            if contains_id(&c.nodes, self.nodes[i]) {
                r.push(self.nodes[i]);
            }
            i = i + 1;
        }
        assert(self.nodes@.subrange(0, i as int) =~= self.nodes@);
        r
    }

    /// Expands the members through the hierarchy: the leaf nodes they stand for,
    /// the member lists of the supernodes met, and the predicates of each leaf on
    /// one side (outgoing for the source side, incoming for the target side).
    pub fn get_all_edges(&self, is_source: bool, meta: &mut Meta) -> (r: (Vec<u32>, Vec<Vec<u32>>, Vec<Vec<u32>>))
        ensures
            *final(meta) == *old(meta),
            r.0@ == leaves(old(meta)@, self.nodes@),
            r.1@.len() == met_groups(old(meta)@, self.nodes@).len(),
            forall|k: int| 0 <= k < r.1@.len() ==> #[trigger] r.1@[k]@ == met_groups(old(meta)@, self.nodes@)[k],
            r.2@.len() == r.0@.len(),
            forall|k: int| 0 <= k < r.2@.len() ==> #[trigger] r.2@[k]@ == preds_each(old(meta)@, r.0@, is_source)[k],
    {
        let ghost m = meta@;
        let mut singlenodes: Vec<u32> = Vec::new();
        let mut supernodes: Vec<Vec<u32>> = Vec::new();
        let mut edges: Vec<Vec<u32>> = Vec::new();
        let mut i: usize = 0;
        while i < self.nodes.len()
            invariant
                i <= self.nodes.len(),
                meta@ == m,
                singlenodes@ == leaves(m, self.nodes@.subrange(0, i as int)),
                supernodes@.len() == met_groups(m, self.nodes@.subrange(0, i as int)).len(),
                forall|k: int| 0 <= k < supernodes@.len() ==> #[trigger] supernodes@[k]@ == met_groups(m, self.nodes@.subrange(0, i as int))[k],
                edges@.len() == singlenodes@.len(),
                forall|k: int| 0 <= k < edges@.len() ==> #[trigger] edges@[k]@ == m.preds(singlenodes@[k], is_source),
            decreases self.nodes.len() - i,
        {
            let n = self.nodes[i];
            let ghost pre = self.nodes@.subrange(0, i as int);
            assert(self.nodes@.subrange(0, i + 1).drop_last() =~= pre);
            let ghost s0 = singlenodes@;
            match meta.get_supernode(&n) {
                Some(children) => {
                    supernodes.push(copy_ids(children));
                    let mut j: usize = 0;
                    while j < children.len()
                        invariant
                            j <= children.len(),
                            meta@ == m,
                            singlenodes@ == s0 + children@.subrange(0, j as int),
                            edges@.len() == singlenodes@.len(),
                            forall|k: int| 0 <= k < edges@.len() ==> #[trigger] edges@[k]@ == m.preds(singlenodes@[k], is_source),
                        decreases children.len() - j,
                    {
                        singlenodes.push(children[j]);
                        edges.push(meta.get_preds(&children[j], is_source));
                        j = j + 1;
                        assert(singlenodes@ =~= s0 + children@.subrange(0, j as int));
                    }
                    assert(children@.subrange(0, j as int) =~= children@);
                },
                None => {
                    singlenodes.push(n);
                    edges.push(meta.get_preds(&n, is_source));
                },
            }
            i = i + 1;
            assert(singlenodes@ =~= leaves(m, self.nodes@.subrange(0, i as int)));
        }
        assert(self.nodes@.subrange(0, i as int) =~= self.nodes@);
        (singlenodes, supernodes, edges)
    }
}

/// Whether `x` occurs in `v`.
pub fn contains_id(v: &Vec<u32>, x: u32) -> (r: bool)
    ensures
        r == v@.contains(x),
{
    let mut i: usize = 0;
    while i < v.len()
        invariant
            i <= v.len(),
            forall|k: int| 0 <= k < i ==> v@[k] != x,
        decreases v.len() - i,
    {
        if v[i] == x {
            return true;
        }
        i = i + 1;
    }
    false
}

} // verus!
