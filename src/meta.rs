use std::collections::HashMap;
use vstd::prelude::*;

verus! {

broadcast use vstd::std_specs::hash::group_hash_axioms;

/// What the hierarchy records of one node: its supernode, if it was absorbed
/// into one, and its incoming and outgoing predicate adjacency groups.
pub struct NodeInfo {
    pub parent: Option<u32>,
    pub incoming: Vec<Vec<u32>>,
    pub outgoing: Vec<Vec<u32>>,
}

/// The adjacency groups of a node laid end to end.
pub open spec fn flat(groups: Seq<Vec<u32>>) -> Seq<u32>
    decreases groups.len(),
{
    if groups.len() == 0 {
        Seq::empty()
    } else {
        flat(groups.drop_last()) + groups.last()@
    }
}

/// What the hierarchy holds: the members of each supernode, and for each node
/// its outgoing and incoming predicates and its parent.
pub struct MetaView {
    pub groups: Map<u32, Seq<u32>>,
    pub out_preds: Map<u32, Seq<u32>>,
    pub in_preds: Map<u32, Seq<u32>>,
    pub parents: Map<u32, Option<u32>>,
}

impl MetaView {
    /// The predicates of node `n` on one side: outgoing for the source side,
    /// incoming for the target side; none for a node that is not recorded.
    pub open spec fn preds(self, n: u32, is_source: bool) -> Seq<u32> {
        let m = if is_source {
            self.out_preds
        } else {
            self.in_preds
        };
        if m.contains_key(n) {
            m[n]
        } else {
            Seq::empty()
        }
    }
}

/// The supernode records of `s` entered in order: a later record of an
/// identifier replaces an earlier one.
pub open spec fn recorded_groups(s: Seq<(u32, Vec<u32>)>) -> Map<u32, Seq<u32>>
    decreases s.len(),
{
    if s.len() == 0 {
        Map::empty()
    } else {
        recorded_groups(s.drop_last()).insert(s.last().0, s.last().1@)
    }
}

/// The outgoing predicates of the node records of `s`, later records winning.
pub open spec fn recorded_out(s: Seq<(u32, NodeInfo)>) -> Map<u32, Seq<u32>>
    decreases s.len(),
{
    if s.len() == 0 {
        Map::empty()
    } else {
        recorded_out(s.drop_last()).insert(s.last().0, flat(s.last().1.outgoing@))
    }
}

/// The incoming predicates of the node records of `s`, later records winning.
pub open spec fn recorded_in(s: Seq<(u32, NodeInfo)>) -> Map<u32, Seq<u32>>
    decreases s.len(),
{
    if s.len() == 0 {
        Map::empty()
    } else {
        recorded_in(s.drop_last()).insert(s.last().0, flat(s.last().1.incoming@))
    }
}

/// The parents of the node records of `s`, later records winning.
pub open spec fn recorded_parents(s: Seq<(u32, NodeInfo)>) -> Map<u32, Option<u32>>
    decreases s.len(),
{
    if s.len() == 0 {
        Map::empty()
    } else {
        recorded_parents(s.drop_last()).insert(s.last().0, s.last().1.parent)
    }
}

/// The node hierarchy: supernodes with their members, and per-node adjacency.
pub struct Meta {
    supernodes: HashMap<u32, Vec<u32>>,
    nodes: HashMap<u32, NodeInfo>,
}

impl View for Meta {
    type V = MetaView;

    closed spec fn view(&self) -> MetaView {
        MetaView {
            groups: self.supernodes@.map_values(|g: Vec<u32>| g@),
            out_preds: self.nodes@.map_values(|n: NodeInfo| flat(n.outgoing@)),
            in_preds: self.nodes@.map_values(|n: NodeInfo| flat(n.incoming@)),
            parents: self.nodes@.map_values(|n: NodeInfo| n.parent),
        }
    }
}

/// The groups of `groups` laid end to end, in a new vector.
fn flatten_groups(groups: &Vec<Vec<u32>>) -> (r: Vec<u32>)
    ensures
        r@ == flat(groups@),
{
    let mut r: Vec<u32> = Vec::new();
    let mut i: usize = 0;
    while i < groups.len()
        invariant
            i <= groups.len(),
            r@ == flat(groups@.subrange(0, i as int)),
        decreases groups.len() - i,
    {
        let g = &groups[i];
        let mut j: usize = 0;
        let ghost r0 = r@;
        while j < g.len()
            invariant
                j <= g.len(),
                r@ == r0 + g@.subrange(0, j as int),
            decreases g.len() - j,
        {
            r.push(g[j]);
            j = j + 1;
            assert(r@ =~= r0 + g@.subrange(0, j as int));
        }
        assert(groups@.subrange(0, i + 1).drop_last() =~= groups@.subrange(0, i as int));
        assert(g@.subrange(0, j as int) =~= g@);
        i = i + 1;
    }
    assert(groups@.subrange(0, i as int) =~= groups@);
    r
}

impl Meta {
    /// An empty hierarchy.
    pub fn new() -> (r: Self)
        ensures
            r@.groups == Map::<u32, Seq<u32>>::empty(),
            r@.out_preds == Map::<u32, Seq<u32>>::empty(),
            r@.in_preds == Map::<u32, Seq<u32>>::empty(),
            r@.parents == Map::<u32, Option<u32>>::empty(),
    {
        let r = Meta { supernodes: HashMap::new(), nodes: HashMap::new() };
        assert(r@.groups =~= Map::<u32, Seq<u32>>::empty());
        assert(r@.out_preds =~= Map::<u32, Seq<u32>>::empty());
        assert(r@.in_preds =~= Map::<u32, Seq<u32>>::empty());
        assert(r@.parents =~= Map::<u32, Option<u32>>::empty());
        r
    }

    /// The hierarchy that the records describe, entered in order.
    pub fn from_entries(supernodes: Vec<(u32, Vec<u32>)>, nodes: Vec<(u32, NodeInfo)>) -> (r: Self)
        ensures
            r@.groups == recorded_groups(supernodes@),
            r@.out_preds == recorded_out(nodes@),
            r@.in_preds == recorded_in(nodes@),
            r@.parents == recorded_parents(nodes@),
    {
        let mut meta = Meta::new();
        let mut supernodes = supernodes;
        let ghost s0 = supernodes@;
        let mut i: usize = 0;
        while i < supernodes.len()
            invariant
                i <= supernodes@.len(),
                supernodes@.len() == s0.len(),
                forall|j: int| i <= j < s0.len() ==> #[trigger] supernodes@[j] == s0[j],
                meta@.groups == recorded_groups(s0.subrange(0, i as int)),
                meta@.out_preds == Map::<u32, Seq<u32>>::empty(),
                meta@.in_preds == Map::<u32, Seq<u32>>::empty(),
                meta@.parents == Map::<u32, Option<u32>>::empty(),
            decreases supernodes@.len() - i,
        {
            let id = supernodes[i].0;
            let mut group: Vec<u32> = Vec::new();
            std::mem::swap(&mut supernodes[i].1, &mut group);
            assert(s0.subrange(0, i + 1).drop_last() =~= s0.subrange(0, i as int));
            meta.add_supernode(id, group);
            i = i + 1;
        }
        assert(s0.subrange(0, i as int) =~= s0);
        let mut nodes = nodes;
        let ghost n0 = nodes@;
        let mut k: usize = 0;
        while k < nodes.len()
            invariant
                k <= nodes@.len(),
                nodes@.len() == n0.len(),
                forall|j: int| k <= j < n0.len() ==> #[trigger] nodes@[j] == n0[j],
                meta@.groups == recorded_groups(s0),
                meta@.out_preds == recorded_out(n0.subrange(0, k as int)),
                meta@.in_preds == recorded_in(n0.subrange(0, k as int)),
                meta@.parents == recorded_parents(n0.subrange(0, k as int)),
            decreases nodes@.len() - k,
        {
            let id = nodes[k].0;
            let mut info = NodeInfo { parent: None, incoming: Vec::new(), outgoing: Vec::new() };
            std::mem::swap(&mut nodes[k].1, &mut info);
            assert(n0.subrange(0, k + 1).drop_last() =~= n0.subrange(0, k as int));
            meta.add_node(id, info);
            k = k + 1;
        }
        assert(n0.subrange(0, k as int) =~= n0);
        meta
    }

    /// Records supernode `id` with its members `group`, replacing any earlier record.
    pub fn add_supernode(&mut self, id: u32, group: Vec<u32>)
        ensures
            final(self)@.groups == old(self)@.groups.insert(id, group@),
            final(self)@.out_preds == old(self)@.out_preds,
            final(self)@.in_preds == old(self)@.in_preds,
            final(self)@.parents == old(self)@.parents,
    {
        let ghost g = group@;
        self.supernodes.insert(id, group);
        assert(self@.groups =~= old(self)@.groups.insert(id, g));
    }

    /// Records node `id` with its parent and adjacency, replacing any earlier record.
    pub fn add_node(&mut self, id: u32, info: NodeInfo)
        ensures
            final(self)@.groups == old(self)@.groups,
            final(self)@.out_preds == old(self)@.out_preds.insert(id, flat(info.outgoing@)),
            final(self)@.in_preds == old(self)@.in_preds.insert(id, flat(info.incoming@)),
            final(self)@.parents == old(self)@.parents.insert(id, info.parent),
    {
        let ghost o = flat(info.outgoing@);
        let ghost n = flat(info.incoming@);
        let ghost p = info.parent;
        self.nodes.insert(id, info);
        assert(self@.out_preds =~= old(self)@.out_preds.insert(id, o));
        assert(self@.in_preds =~= old(self)@.in_preds.insert(id, n));
        assert(self@.parents =~= old(self)@.parents.insert(id, p));
    }

    /// The members of supernode `id`, if `id` is one.
    pub fn get_supernode(&self, id: &u32) -> (r: Option<&Vec<u32>>)
        ensures
            match r {
                Some(g) => self@.groups.contains_key(*id) && g@ == self@.groups[*id],
                None => !self@.groups.contains_key(*id),
            },
    {
        self.supernodes.get(id)
    }

    /// The parent supernode of node `id`, if it has one.
    pub fn get_parent(&self, id: &u32) -> (r: Option<u32>)
        ensures
            r == (if self@.parents.contains_key(*id) {
                self@.parents[*id]
            } else {
                None
            }),
    {
        match self.nodes.get(id) {
            Some(info) => info.parent,
            None => None,
        }
    }

    /// The predicates of node `id` on one side (see `MetaView::preds`).
    pub fn get_preds(&self, id: &u32, is_source: bool) -> (r: Vec<u32>)
        ensures
            r@ == self@.preds(*id, is_source),
    {
        match self.nodes.get(id) {
            Some(info) => {
                if is_source {
                    flatten_groups(&info.outgoing)
                } else {
                    flatten_groups(&info.incoming)
                }
            },
            None => Vec::new(),
        }
    }
}

/// What node `n` stands for: the members of the supernode `n`, or `n` alone.
pub open spec fn expand(m: MetaView, n: u32) -> Seq<u32> {
    if m.groups.contains_key(n) {
        m.groups[n]
    } else {
        seq![n]
    }
}

/// The leaf nodes that `nodes` stand for, in order.
pub open spec fn leaves(m: MetaView, nodes: Seq<u32>) -> Seq<u32>
    decreases nodes.len(),
{
    if nodes.len() == 0 {
        Seq::empty()
    } else {
        leaves(m, nodes.drop_last()) + expand(m, nodes.last())
    }
}

/// The member lists of the supernodes among `nodes`, in order.
pub open spec fn met_groups(m: MetaView, nodes: Seq<u32>) -> Seq<Seq<u32>>
    decreases nodes.len(),
{
    if nodes.len() == 0 {
        Seq::empty()
    } else if m.groups.contains_key(nodes.last()) {
        met_groups(m, nodes.drop_last()).push(m.groups[nodes.last()])
    } else {
        met_groups(m, nodes.drop_last())
    }
}

/// The predicates of each node of `ns` on one side.
pub open spec fn preds_each(m: MetaView, ns: Seq<u32>, is_source: bool) -> Seq<Seq<u32>> {
    ns.map_values(|c: u32| m.preds(c, is_source))
}

} // verus!
