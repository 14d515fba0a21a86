use vstd::prelude::*;
use crate::clique::{common, lemma_common_contains};
use crate::collection::{CliqueCollection, CollectionView};

verus! {

/// For each node of `new_nodes`, the members that the class `c1` shares with the
/// node's class in `other`, kept where there are at least two of them.
pub open spec fn super_groups(c1: Seq<u32>, other: CollectionView, new_nodes: Seq<u32>) -> Seq<Seq<u32>>
    decreases new_nodes.len(),
{
    if new_nodes.len() == 0 {
        Seq::empty()
    } else {
        let r = super_groups(c1, other, new_nodes.drop_last());
        let g = common(c1, other.classes[other.class_of(new_nodes.last()) as int].nodes);
        if g.len() >= 2 {
            r.push(g)
        } else {
            r
        }
    }
}

/// A change to one side: the class in slot `clique_index` has just gained the
/// nodes `new_nodes`.
#[derive(Clone)]
pub struct CliqueChange {
    pub clique_index: usize,
    pub new_nodes: Vec<u32>,
    pub is_source: bool,
}

impl CliqueChange {
    pub fn new(clique_index: usize, new_nodes: Vec<u32>, is_source: bool) -> (r: Self)
        ensures
            r.clique_index == clique_index,
            r.new_nodes@ == new_nodes@,
            r.is_source == is_source,
    {
        CliqueChange { clique_index, new_nodes, is_source }
    }

    /// The change that merging the classes of `a` and `b` makes: the class of `a`
    /// keeps its slot, and the nodes of the smaller class count as new (those of
    /// `b` when the sizes are equal).
    pub fn new_merge(cc: &CliqueCollection, a: &u32, b: &u32, is_source: bool) -> (r: Self)
        requires
            cc.wf(),
            cc@.knows(*a),
            cc@.knows(*b),
        ensures
            r.clique_index == cc@.class_of(*a),
            r.new_nodes@ == (if cc@.classes[cc@.class_of(*a) as int].nodes.len() < cc@.classes[cc@.class_of(*b) as int].nodes.len() {
                cc@.classes[cc@.class_of(*a) as int].nodes
            } else {
                cc@.classes[cc@.class_of(*b) as int].nodes
            }),
            r.is_source == is_source,
    {
        let a_index = cc.get_index(a);
        let b_index = cc.get_index(b);
        proof {
            assert(cc@.has(cc@.lookup[*a] as int, *a));
            assert(cc@.has(cc@.lookup[*b] as int, *b));
        }
        let nodes = if cc.clique_len(a_index) < cc.clique_len(b_index) {
            cc.get_nodes(a_index)
        } else {
            cc.get_nodes(b_index)
        };
        Self::new(a_index, nodes, is_source)
    }

    /// The candidate supernodes of this change: for each new node, the members
    /// that the changed class shares with the node's class on the other side,
    /// where there are at least two.
    pub fn get_super_nodes(self, sc: &mut CliqueCollection, tc: &mut CliqueCollection) -> (r: Vec<Vec<u32>>)
        requires
            old(sc).wf(),
            old(tc).wf(),
            self.clique_index < (if self.is_source {
                old(sc)@
            } else {
                old(tc)@
            }).classes.len(),
            forall|k: int| 0 <= k < self.new_nodes@.len() ==> (if self.is_source {
                old(tc)@
            } else {
                old(sc)@
            }).knows(#[trigger] self.new_nodes@[k]),
        ensures
            *final(sc) == *old(sc),
            *final(tc) == *old(tc),
            ({
                let (own, other) = if self.is_source {
                    (old(sc)@, old(tc)@)
                } else {
                    (old(tc)@, old(sc)@)
                };
                let g = super_groups(own.classes[self.clique_index as int].nodes, other, self.new_nodes@);
                &&& r@.len() == g.len()
                &&& forall|k: int| 0 <= k < r@.len() ==> #[trigger] r@[k]@ == g[k]
            }),
    {
        let ghost own = if self.is_source { sc@ } else { tc@ };
        let ghost other = if self.is_source { tc@ } else { sc@ };
        let mut super_nodes: Vec<Vec<u32>> = Vec::new();
        let c1 = if self.is_source {
            sc.get_clique_by_index(self.clique_index)
        } else {
            tc.get_clique_by_index(self.clique_index)
        };
        let mut i: usize = 0;
        while i < self.new_nodes.len()
            invariant
                i <= self.new_nodes@.len(),
                c1@ == own.classes[self.clique_index as int],
                other == (if self.is_source { tc@ } else { sc@ }),
                other.wf(),
                forall|k: int| 0 <= k < self.new_nodes@.len() ==> other.knows(#[trigger] self.new_nodes@[k]),
                super_nodes@.len() == super_groups(c1.nodes@, other, self.new_nodes@.subrange(0, i as int)).len(),
                forall|k: int| 0 <= k < super_nodes@.len() ==> #[trigger] super_nodes@[k]@ == super_groups(c1.nodes@, other, self.new_nodes@.subrange(0, i as int))[k],
            decreases self.new_nodes@.len() - i,
        {
            let node = self.new_nodes[i];
            assert(other.knows(self.new_nodes@[i as int]));
            let c2 = if self.is_source {
                tc.get_clique_by_node(&node)
            } else {
                sc.get_clique_by_node(&node)
            };
            let intersect = c1.node_intersection(&c2);
            assert(self.new_nodes@.subrange(0, i + 1).drop_last() =~= self.new_nodes@.subrange(0, i as int));
            if intersect.len() >= 2 {
                super_nodes.push(intersect);
            }
            i = i + 1;
        }
        assert(self.new_nodes@.subrange(0, i as int) =~= self.new_nodes@);
        super_nodes
    }
}

/// A reported group never has fewer than two members, and each member belongs
/// to the changed class.
pub proof fn lemma_super_groups_threshold(c1: Seq<u32>, other: CollectionView, new_nodes: Seq<u32>)
    ensures
        forall|k: int| 0 <= k < super_groups(c1, other, new_nodes).len() ==> #[trigger] super_groups(c1, other, new_nodes)[k].len() >= 2,
        forall|k: int, x: u32| 0 <= k < super_groups(c1, other, new_nodes).len() && #[trigger] super_groups(c1, other, new_nodes)[k].contains(x) ==> c1.contains(x),
    decreases new_nodes.len(),
{
    if new_nodes.len() > 0 {
        lemma_super_groups_threshold(c1, other, new_nodes.drop_last());
        let r = super_groups(c1, other, new_nodes.drop_last());
        let s = super_groups(c1, other, new_nodes);
        let d = other.classes[other.class_of(new_nodes.last()) as int].nodes;
        let g = common(c1, d);
        assert forall|k: int| 0 <= k < s.len() implies #[trigger] s[k].len() >= 2 by {
            if k < r.len() {
                assert(s[k] == r[k]);
            }
        }
        assert forall|k: int, x: u32| 0 <= k < s.len() && #[trigger] s[k].contains(x) implies c1.contains(x) by {
            if k < r.len() {
                assert(s[k] == r[k]);
            } else {
                lemma_common_contains(c1, d, x);
            }
        }
    }
}

} // verus!
