use tree_shake::condense::condense;
use tree_shake::dep_graph::DepGraph;
use tree_shake::graph::{Dependency, Edge, IdxGraph, InternedGraph};
use tree_shake::item::{ItemId, ItemIdGroupKind, ItemIdItemKind};
use tree_shake::layout::layout;
use tree_shake::reach::reach_from;

fn e(from: usize, to: usize, kind: Dependency) -> Edge {
    Edge { from, to, kind }
}

fn unit(index: usize) -> ItemId {
    ItemId::Item { index, kind: ItemIdItemKind::Normal }
}

#[test]
fn adding_an_edge_twice_keeps_one_edge_and_the_stronger_tag() {
    let mut g = IdxGraph::new();
    g.add_edge(0, 1, Dependency::Weak);
    g.add_edge(1, 0, Dependency::Strong);
    g.add_edge(0, 1, Dependency::Weak);
    assert_eq!(g.edges, vec![e(0, 1, Dependency::Weak), e(1, 0, Dependency::Strong)]);
    g.add_edge(0, 1, Dependency::Strong);
    g.add_edge(1, 0, Dependency::Weak);
    assert_eq!(g.edges, vec![e(0, 1, Dependency::Strong), e(1, 0, Dependency::Strong)]);
    assert_eq!(g.edge_weight(0, 1), Some(Dependency::Strong));
    assert_eq!(g.edge_weight(1, 1), None);
    assert_eq!(g.find(1, 0), Some(1));
    assert_eq!(g.find(2, 0), None);
    assert_eq!(g.all_edges().len(), 2);
    assert_eq!(g.clone().edges, g.edges);
}

#[test]
fn interning_is_idempotent() {
    let mut g: InternedGraph<ItemId> = InternedGraph::new();
    assert_eq!(g.len(), 0);
    let a = g.node(&unit(4));
    let b = g.node(&ItemId::Group(ItemIdGroupKind::Export(4)));
    let c = g.node(&ItemId::Item { index: 4, kind: ItemIdItemKind::Declaration });
    assert_eq!((a, b, c), (0, 1, 2));
    assert_eq!(g.node(&unit(4)), 0);
    assert_eq!(g.node(&ItemId::Group(ItemIdGroupKind::Export(4))), 1);
    assert_eq!(g.len(), 3);
    assert_eq!(g.get_node(&unit(4)), Some(0));
    assert_eq!(g.get_node(&unit(5)), None);
    assert_eq!(g.get_node(&ItemId::Group(ItemIdGroupKind::ModuleEvaluation)), None);
    let copy = g.clone();
    assert_eq!(copy.graph_ix, g.graph_ix);
}

#[test]
fn lists_of_units_are_interned_by_their_content() {
    let mut g: InternedGraph<Vec<ItemId>> = InternedGraph::new();
    assert_eq!(g.node(&vec![unit(0), unit(1)]), 0);
    assert_eq!(g.node(&vec![unit(0)]), 1);
    assert_eq!(g.node(&vec![unit(1), unit(0)]), 2);
    assert_eq!(g.node(&vec![]), 3);
    assert_eq!(g.node(&vec![unit(0), unit(1)]), 0);
    assert_eq!(g.get_node(&vec![unit(1)]), None);
}

#[test]
fn dependencies_between_units_intern_both() {
    let mut g = DepGraph::new();
    g.add_weak_dep(&unit(7), &unit(3));
    g.add_strong_dep(&unit(3), &unit(7));
    g.add_strong_dep(&unit(7), &unit(3));
    g.add_weak_dep(&unit(3), &unit(7));
    assert_eq!(g.g.graph_ix, vec![unit(7), unit(3)]);
    assert_eq!(g.g.idx_graph.edges, vec![e(0, 1, Dependency::Strong), e(1, 0, Dependency::Strong)]);
    assert_eq!(g.has_dep(&unit(7), &unit(3)), Some(Dependency::Strong));
    assert_eq!(g.has_dep(&unit(7), &unit(9)), None);
    assert_eq!(g.has_dep(&unit(7), &unit(7)), None);
    g.intern(&vec![unit(3), unit(1), unit(1)]);
    assert_eq!(g.g.graph_ix, vec![unit(7), unit(3), unit(1)]);
    g.add_deps(2, &vec![true, false, true], Dependency::Weak);
    assert_eq!(g.g.idx_graph.edges.last(), Some(&e(2, 0, Dependency::Weak)));
    assert_eq!(g.g.idx_graph.edges.len(), 3);
}

#[test]
fn reach_marks_what_the_seeds_reach_through_allowed_nodes() {
    let edges = vec![
        e(0, 1, Dependency::Strong),
        e(1, 2, Dependency::Weak),
        e(2, 3, Dependency::Strong),
        e(4, 0, Dependency::Strong),
        e(9, 3, Dependency::Strong),
    ];
    let seeds = vec![true, false, false, false, false];
    let all = vec![true; 5];
    assert_eq!(reach_from(&edges, &seeds, &all), vec![true, true, true, true, false]);
    let closed = vec![true, true, false, true, true];
    assert_eq!(reach_from(&edges, &seeds, &closed), vec![true, true, false, false, false]);
    let blocked_seed = vec![false, true, true, true, true];
    assert_eq!(reach_from(&edges, &seeds, &blocked_seed), vec![true, true, true, true, false]);
    assert_eq!(reach_from(&edges, &vec![false; 5], &all), vec![false; 5]);
}

#[test]
fn condensation_orders_components_by_their_first_node() {
    let edges = vec![
        e(3, 1, Dependency::Weak),
        e(1, 3, Dependency::Strong),
        e(0, 3, Dependency::Weak),
        e(0, 1, Dependency::Weak),
        e(3, 2, Dependency::Weak),
        e(1, 2, Dependency::Strong),
        e(2, 2, Dependency::Strong),
    ];
    let c = condense(&edges, 5);
    assert_eq!(c.groups, vec![vec![0], vec![1, 3], vec![2], vec![4]]);
    assert_eq!(c.comp, vec![0, 1, 2, 1, 3]);
    assert_eq!(c.edges.edges, vec![e(0, 1, Dependency::Weak), e(1, 2, Dependency::Strong)]);
    let none = condense(&vec![], 0);
    assert!(none.groups.is_empty() && none.comp.is_empty() && none.edges.edges.is_empty());
}

#[test]
fn layout_numbers_parts_by_their_first_component() {
    let ids = vec![
        unit(0),
        ItemId::Group(ItemIdGroupKind::Export(0)),
        unit(1),
        ItemId::Group(ItemIdGroupKind::ModuleEvaluation),
        unit(2),
        unit(3),
    ];
    // Both synthetic units need unit 0, the export also needs unit 1, and
    // nothing needs units 2 and 3, which need each other.
    let edges = vec![
        e(1, 0, Dependency::Strong),
        e(3, 0, Dependency::Strong),
        e(1, 2, Dependency::Strong),
        e(4, 5, Dependency::Strong),
        e(5, 4, Dependency::Strong),
        e(4, 0, Dependency::Strong),
    ];
    let l = layout(&edges, &ids);
    assert_eq!(l.count, 3);
    assert_eq!(l.part_of, vec![Some(0), Some(1), Some(1), Some(2), None, None]);
}

#[test]
fn well_formedness_can_be_tested() {
    let mut g = DepGraph::new();
    assert!(g.is_wf());
    g.add_strong_dep(&unit(0), &unit(1));
    g.add_weak_dep(&unit(1), &unit(0));
    assert!(g.is_wf());
    assert!(g.g.idx_graph.is_within(2) && !g.g.idx_graph.is_within(1));
    let mut twice = g.clone();
    twice.g.idx_graph.edges.push(e(0, 1, Dependency::Weak));
    assert!(!twice.is_wf());
    let mut outside = g.clone();
    outside.g.idx_graph.edges.push(e(0, 2, Dependency::Weak));
    assert!(outside.g.idx_graph.is_wf() && !outside.is_wf());
    let mut doubled = g.clone();
    doubled.g.graph_ix.push(unit(0));
    assert!(!doubled.is_wf());
}

#[test]
fn a_weak_dependency_keeps_its_target_in_a_part_of_its_own() {
    let ids = vec![ItemId::Group(ItemIdGroupKind::ModuleEvaluation), unit(0), unit(1), unit(2)];
    let edges = vec![
        e(0, 1, Dependency::Strong),
        e(1, 2, Dependency::Weak),
        e(2, 3, Dependency::Strong),
    ];
    let l = layout(&edges, &ids);
    assert_eq!(l.count, 2);
    assert_eq!(l.part_of, vec![Some(0), Some(0), Some(1), Some(1)]);
    let strong = vec![
        e(0, 1, Dependency::Strong),
        e(1, 2, Dependency::Strong),
        e(2, 3, Dependency::Strong),
    ];
    let l = layout(&strong, &ids);
    assert_eq!(l.count, 1);
    assert_eq!(l.part_of, vec![Some(0); 4]);
    let none = layout(&vec![], &vec![unit(0), unit(1)]);
    assert_eq!(none.count, 0);
    assert_eq!(none.part_of, vec![None, None]);
}
