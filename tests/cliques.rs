use cliquesum::change::CliqueChange;
use cliquesum::clique::Clique;
use cliquesum::collection::CliqueCollection;
use cliquesum::meta::{Meta, NodeInfo};

fn sorted(mut v: Vec<u32>) -> Vec<u32> {
    v.sort();
    v
}

fn info(parent: Option<u32>, incoming: Vec<Vec<u32>>, outgoing: Vec<Vec<u32>>) -> NodeInfo {
    NodeInfo { parent, incoming, outgoing }
}

#[test]
fn clique_new_copies_inputs() {
    let c = Clique::new(&vec![7, 8], &vec![1, 2, 3]);
    assert_eq!(c.preds, vec![7, 8]);
    assert_eq!(c.nodes, vec![1, 2, 3]);
}

#[test]
fn clique_remove_node_drops_every_copy() {
    let mut c = Clique::new(&vec![7], &vec![1, 2, 1, 3]);
    c.remove_node(&1);
    assert_eq!(c.nodes, vec![2, 3]);
    assert_eq!(c.preds, vec![7]);
    c.remove_node(&9);
    assert_eq!(c.nodes, vec![2, 3]);
}

#[test]
fn clique_merge_appends_both_lists() {
    let mut a = Clique::new(&vec![7], &vec![1]);
    let b = Clique::new(&vec![8], &vec![2, 3]);
    a.merge(&b);
    assert_eq!(a.preds, vec![7, 8]);
    assert_eq!(a.nodes, vec![1, 2, 3]);
}

#[test]
fn node_intersection_of_overlapping_cliques() {
    let a = Clique::new(&vec![], &vec![1, 2, 3]);
    let b = Clique::new(&vec![], &vec![2, 3, 4]);
    assert_eq!(a.node_intersection(&b), vec![2, 3]);
    let c = Clique::new(&vec![], &vec![5]);
    assert_eq!(a.node_intersection(&c), Vec::<u32>::new());
}

#[test]
fn new_collection_has_only_the_empty_clique() {
    let cc = CliqueCollection::new();
    assert_eq!(cc.clique_len(0), 0);
    assert!(!cc.contains_node(&1));
    assert!(!cc.contains_pred(&1));
}

#[test]
fn insertion_scenario_three_triples() {
    let mut cc = CliqueCollection::new();
    cc.new_triple(&10, &100);
    assert_eq!(cc.get_index(&10), 1);
    assert_eq!(cc.get_index(&100), 1);
    cc.new_triple(&20, &100);
    assert!(cc.in_same_clique(&10, &20));
    cc.new_triple(&20, &200);
    assert!(cc.in_same_clique(&10, &20));
    assert!(cc.in_same_clique(&20, &200));
    let c = cc.get_clique_by_node(&10);
    assert_eq!(sorted(c.preds), vec![100, 200]);
    assert_eq!(sorted(c.nodes), vec![10, 20]);
}

#[test]
fn new_triple_merges_two_classes() {
    let mut cc = CliqueCollection::new();
    cc.new_triple(&1, &100);
    cc.new_triple(&2, &200);
    assert!(!cc.in_same_clique(&1, &2));
    cc.new_triple(&1, &200);
    assert!(cc.in_same_clique(&1, &2));
    assert_eq!(cc.get_index(&200), 1);
    let c = cc.get_clique_by_index(1);
    assert_eq!(c.nodes, vec![1, 2]);
    assert_eq!(c.preds, vec![100, 200]);
    assert_eq!(cc.clique_len(2), 0);
}

#[test]
fn new_triple_known_pair_in_one_class_changes_nothing() {
    let mut cc = CliqueCollection::new();
    cc.new_triple(&1, &100);
    cc.new_triple(&1, &100);
    let c = cc.get_clique_by_index(1);
    assert_eq!(c.nodes, vec![1]);
    assert_eq!(c.preds, vec![100]);
}

#[test]
fn merge_gives_union_of_node_sets() {
    let mut cc = CliqueCollection::new();
    cc.new_clique(&vec![100], &vec![1, 2]);
    cc.new_clique(&vec![200], &vec![3]);
    cc.merge_cliques(&1, &3);
    assert_eq!(cc.get_nodes(1), vec![1, 2, 3]);
    assert_eq!(cc.get_index(&3), 1);
    assert_eq!(cc.get_index(&200), 1);
    assert_eq!(cc.get_nodes(2), Vec::<u32>::new());
}

#[test]
fn recycled_slot_is_reused_first() {
    let mut cc = CliqueCollection::new();
    cc.new_clique(&vec![100], &vec![1]);
    cc.new_clique(&vec![200], &vec![2]);
    cc.merge_cliques(&1, &2);
    cc.new_clique(&vec![300], &vec![3, 4]);
    assert_eq!(cc.get_index(&300), 2);
    assert_eq!(cc.get_index(&3), 2);
    assert_eq!(cc.get_index(&4), 2);
    assert_eq!(cc.get_nodes(2), vec![3, 4]);
    assert_eq!(cc.get_index(&2), 1);
    cc.new_clique(&vec![400], &vec![5]);
    assert_eq!(cc.get_index(&5), 3);
}

#[test]
fn empty_clique_holds_new_bare_nodes() {
    let mut cc = CliqueCollection::new();
    cc.add_node_to_empty_clique(&5);
    assert!(cc.contains_node(&5));
    assert!(cc.in_empty_clique(&5));
    assert_eq!(cc.get_index(&5), 0);
    assert_eq!(cc.get_nodes(0), vec![5]);
}

#[test]
fn new_pred_makes_a_class_without_nodes() {
    let mut cc = CliqueCollection::new();
    cc.new_pred(&100);
    assert_eq!(cc.get_index(&100), 1);
    assert_eq!(cc.clique_len(1), 0);
    cc.new_triple(&1, &100);
    assert_eq!(cc.get_nodes(1), vec![1]);
}

#[test]
fn remove_node_reclaims_an_empty_slot_only_when_predicates_are_gone() {
    let mut cc = CliqueCollection::new();
    cc.new_clique(&vec![], &vec![1]);
    cc.remove_node(&1);
    assert!(!cc.contains_node(&1));
    cc.new_clique(&vec![100], &vec![2]);
    assert_eq!(cc.get_index(&2), 1);
    cc.remove_node(&2);
    cc.new_clique(&vec![200], &vec![3]);
    assert_eq!(cc.get_index(&3), 2);
    assert_eq!(cc.get_index(&100), 1);
}

#[test]
fn remove_clique_by_index_forgets_its_identifiers() {
    let mut cc = CliqueCollection::new();
    cc.new_clique(&vec![100], &vec![1, 2]);
    cc.remove_clique_by_index(1);
    assert!(!cc.contains_node(&1));
    assert!(!cc.contains_pred(&100));
    assert_eq!(cc.clique_len(1), 0);
    cc.new_clique(&vec![200], &vec![3]);
    assert_eq!(cc.get_index(&3), 1);
}

#[test]
fn move_node_between_classes() {
    let mut cc = CliqueCollection::new();
    cc.new_clique(&vec![100], &vec![1, 2]);
    cc.new_clique(&vec![200], &vec![3]);
    cc.move_node(&2, &3);
    assert_eq!(cc.get_index(&2), 2);
    assert_eq!(cc.get_nodes(1), vec![1]);
    assert_eq!(cc.get_nodes(2), vec![3, 2]);
    cc.move_node_to_empty_clique(&1);
    assert!(cc.in_empty_clique(&1));
    assert_eq!(cc.clique_len(1), 0);
}

#[test]
fn supernode_creation_and_dissolution() {
    let mut cc = CliqueCollection::new();
    cc.new_clique(&vec![100], &vec![1, 2, 3]);
    cc.new_snode(&vec![1, 2], &50);
    assert!(!cc.contains_node(&1));
    assert!(!cc.contains_node(&2));
    assert_eq!(cc.get_index(&50), 1);
    assert_eq!(cc.get_nodes(1), vec![3, 50]);

    let mut meta = Meta::new();
    meta.add_supernode(50, vec![1, 2]);
    cc.remove_supernode(&50, &meta);
    assert!(!cc.contains_node(&50));
    assert_eq!(cc.get_nodes(1), vec![3, 1, 2]);
}

#[test]
fn supernode_split_and_single_node() {
    let mut cc = CliqueCollection::new();
    cc.new_clique(&vec![100], &vec![50]);
    cc.new_clique(&vec![200], &vec![7]);
    cc.snode_split(&1, &50);
    assert_eq!(cc.get_index(&1), 1);
    cc.snode_split_and_move(&2, &7);
    assert_eq!(cc.get_index(&2), 2);
    cc.to_single_node(&50, &3);
    assert!(!cc.contains_node(&50));
    assert_eq!(cc.get_nodes(1), vec![1, 3]);
}

#[test]
fn new_merge_takes_the_smaller_side() {
    let mut cc = CliqueCollection::new();
    cc.new_clique(&vec![100], &vec![1, 2, 3]);
    cc.new_clique(&vec![200], &vec![4]);
    let ch = CliqueChange::new_merge(&cc, &1, &4, true);
    assert_eq!(ch.clique_index, 1);
    assert_eq!(ch.new_nodes, vec![4]);
    assert!(ch.is_source);
    let ch2 = CliqueChange::new_merge(&cc, &4, &1, false);
    assert_eq!(ch2.clique_index, 2);
    assert_eq!(ch2.new_nodes, vec![4]);
}

#[test]
fn super_nodes_from_overlapping_classes() {
    let mut sc = CliqueCollection::new();
    let mut tc = CliqueCollection::new();
    sc.new_clique(&vec![100], &vec![1, 2, 3]);
    tc.new_clique(&vec![200], &vec![2, 3, 4]);
    tc.new_clique(&vec![300], &vec![1]);
    let ch = CliqueChange::new(1, vec![2, 1], true);
    let groups = ch.get_super_nodes(&mut sc, &mut tc);
    assert_eq!(groups, vec![vec![2, 3]]);
    for g in &groups {
        assert!(g.len() >= 2);
    }
}

#[test]
fn super_nodes_on_the_target_side() {
    let mut sc = CliqueCollection::new();
    let mut tc = CliqueCollection::new();
    sc.new_clique(&vec![100], &vec![2, 3, 4]);
    tc.new_clique(&vec![200], &vec![1, 2, 3]);
    let ch = CliqueChange::new(1, vec![3], false);
    assert_eq!(ch.get_super_nodes(&mut sc, &mut tc), vec![vec![2, 3]]);
}

#[test]
fn meta_records_and_flattens_adjacency() {
    let mut meta = Meta::new();
    meta.add_node(1, info(Some(50), vec![vec![9], vec![8, 7]], vec![vec![100, 101], vec![102]]));
    assert_eq!(meta.get_preds(&1, true), vec![100, 101, 102]);
    assert_eq!(meta.get_preds(&1, false), vec![9, 8, 7]);
    assert_eq!(meta.get_preds(&2, true), Vec::<u32>::new());
    assert_eq!(meta.get_parent(&1), Some(50));
    assert_eq!(meta.get_parent(&2), None);
    assert!(meta.get_supernode(&50).is_none());
    meta.add_supernode(50, vec![1, 2]);
    assert_eq!(meta.get_supernode(&50), Some(&vec![1, 2]));
}

#[test]
fn all_edges_expand_supernodes() {
    let mut meta = Meta::new();
    meta.add_supernode(50, vec![1, 2]);
    meta.add_node(1, info(Some(50), vec![], vec![vec![100]]));
    meta.add_node(2, info(Some(50), vec![], vec![vec![100, 101]]));
    meta.add_node(3, info(None, vec![vec![5]], vec![vec![102]]));

    let compressed = Clique::new(&vec![], &vec![50, 3]);
    let (leaves, groups, edges) = compressed.get_all_edges(true, &mut meta);
    assert_eq!(leaves, vec![1, 2, 3]);
    assert_eq!(groups, vec![vec![1, 2]]);
    assert_eq!(edges, vec![vec![100], vec![100, 101], vec![102]]);

    let plain = Clique::new(&vec![], &vec![1, 2, 3]);
    let (leaves2, groups2, edges2) = plain.get_all_edges(true, &mut meta);
    assert_eq!(leaves2, leaves);
    assert_eq!(edges2, edges);
    assert!(groups2.is_empty());

    let (_, _, incoming) = compressed.get_all_edges(false, &mut meta);
    assert_eq!(incoming, vec![vec![], vec![], vec![5]]);
}

#[test]
fn collection_all_edges_of_a_node_class() {
    let mut meta = Meta::new();
    meta.add_supernode(50, vec![1, 2]);
    meta.add_node(1, info(Some(50), vec![], vec![vec![100]]));
    meta.add_node(2, info(Some(50), vec![], vec![vec![100]]));
    let mut cc = CliqueCollection::new();
    cc.new_clique(&vec![100], &vec![50]);
    let (leaves, groups, edges) = cc.get_all_edges(&50, true, &mut meta);
    assert_eq!(leaves, vec![1, 2]);
    assert_eq!(groups, vec![vec![1, 2]]);
    assert_eq!(edges, vec![vec![100], vec![100]]);
}

#[test]
fn every_member_resolves_to_its_class() {
    let mut cc = CliqueCollection::new();
    cc.new_triple(&1, &100);
    cc.new_triple(&2, &200);
    cc.new_triple(&3, &100);
    cc.new_triple(&1, &200);
    cc.new_triple(&4, &300);
    cc.add_node_to_empty_clique(&5);
    cc.remove_node(&4);
    cc.new_triple(&6, &400);
    for index in 0..4usize {
        let c = cc.get_clique_by_index(index);
        for id in c.preds.iter().chain(c.nodes.iter()) {
            assert!(cc.contains_node(id));
            assert_eq!(cc.get_index(id), index);
        }
    }
    for id in [1u32, 2, 3, 5, 6, 100, 200, 300, 400] {
        let index = cc.get_index(&id);
        let c = cc.get_clique_by_index(index);
        assert!(c.preds.contains(&id) || c.nodes.contains(&id));
    }
    assert!(!cc.contains_node(&4));
}

#[test]
fn meta_from_entries_later_records_win() {
    let meta = Meta::from_entries(
        vec![(50, vec![1, 2]), (60, vec![3]), (50, vec![4, 5])],
        vec![
            (1, info(Some(50), vec![vec![9]], vec![vec![100]])),
            (1, info(None, vec![], vec![vec![101], vec![102]])),
            (3, info(Some(60), vec![], vec![])),
        ],
    );
    assert_eq!(meta.get_supernode(&50), Some(&vec![4, 5]));
    assert_eq!(meta.get_supernode(&60), Some(&vec![3]));
    assert_eq!(meta.get_preds(&1, true), vec![101, 102]);
    assert_eq!(meta.get_preds(&1, false), Vec::<u32>::new());
    assert_eq!(meta.get_parent(&1), None);
    assert_eq!(meta.get_parent(&3), Some(60));
}
