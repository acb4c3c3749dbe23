use tree_shake::analyzer::Analyzer;
use tree_shake::dep_graph::{DepGraph, Mode};
use tree_shake::graph::{Dependency, Edge};
use tree_shake::item::{ItemId, ItemIdGroupKind, ItemIdItemKind};
use tree_shake::module::{Module, Stmt};
use tree_shake::split::ModuleItem;

fn stmt(kind: ItemIdItemKind) -> Stmt {
    Stmt {
        kind,
        is_hoisted: false,
        side_effects: false,
        var_decls: vec![],
        read_vars: vec![],
        write_vars: vec![],
        eventual_read_vars: vec![],
        eventual_write_vars: vec![],
        exports: vec![],
    }
}

const STRONG: Dependency = Dependency::Strong;
const WEAK: Dependency = Dependency::Weak;

const A: u32 = 0;
const F: u32 = 1;
const B: u32 = 2;

/// `const a = 1; function f(){ return a; } export { f }; const b = 2;`
fn exported_function() -> Module {
    let mut decl_a = stmt(ItemIdItemKind::Declaration);
    decl_a.var_decls = vec![A];
    decl_a.write_vars = vec![A];
    let mut decl_f = stmt(ItemIdItemKind::Declaration);
    decl_f.is_hoisted = true;
    decl_f.var_decls = vec![F];
    decl_f.write_vars = vec![F];
    decl_f.eventual_read_vars = vec![A, A];
    let mut export = stmt(ItemIdItemKind::Normal);
    export.exports = vec![F, F];
    let mut decl_b = stmt(ItemIdItemKind::Declaration);
    decl_b.var_decls = vec![B];
    decl_b.write_vars = vec![B];
    Module {
        names: vec!["a".to_string(), "f".to_string(), "b".to_string()],
        body: vec![decl_a, decl_f, export, decl_b],
    }
}

fn item(index: usize, kind: ItemIdItemKind) -> ItemId {
    ItemId::Item { index, kind }
}

fn stmts_of(body: &[ModuleItem]) -> Vec<usize> {
    body.iter()
        .filter_map(|i| match i {
            ModuleItem::Stmt { index } => Some(*index),
            _ => None,
        })
        .collect()
}

#[test]
fn init_names_every_unit_once() {
    let module = exported_function();
    let mut g = DepGraph::default();
    let (ids, items) = g.init(&module);
    assert_eq!(
        ids,
        vec![
            ItemId::Group(ItemIdGroupKind::ModuleEvaluation),
            item(0, ItemIdItemKind::Declaration),
            item(1, ItemIdItemKind::Declaration),
            item(2, ItemIdItemKind::Normal),
            item(3, ItemIdItemKind::Declaration),
            ItemId::Group(ItemIdGroupKind::Export(F)),
        ]
    );
    assert_eq!(g.g.graph_ix, ids);
    assert!(g.g.idx_graph.edges.is_empty());
    assert_eq!(items.len(), ids.len());
    for it in &items {
        assert!(!it.is_hoisted && !it.side_effects);
        assert!(it.var_decls.is_empty() && it.read_vars.is_empty() && it.write_vars.is_empty());
        assert!(it.eventual_read_vars.is_empty() && it.eventual_write_vars.is_empty());
    }
}

#[test]
fn first_pass_records_facts_and_eventual_ids() {
    let module = exported_function();
    let mut a = Analyzer::new(&module);
    let eventual = a.hoist_vars_and_bindings(&module);
    assert_eq!(eventual.iter().copied().collect::<Vec<u32>>(), vec![A]);
    assert!(a.items[2].is_hoisted);
    assert_eq!(a.items[2].var_decls.iter().copied().collect::<Vec<u32>>(), vec![F]);
    assert_eq!(a.items[2].eventual_read_vars.iter().copied().collect::<Vec<u32>>(), vec![A]);
    assert_eq!(a.items[1].write_vars.iter().copied().collect::<Vec<u32>>(), vec![A]);
    assert!(a.items[0].var_decls.is_empty());
    assert!(a.items[5].write_vars.is_empty());
    assert!(a.g.g.idx_graph.edges.is_empty());
}

#[test]
fn exported_function_keeps_what_it_reads() {
    let module = exported_function();
    let a = Analyzer::analyze(&module);
    let decl_a = item(0, ItemIdItemKind::Declaration);
    let decl_f = item(1, ItemIdItemKind::Declaration);
    let export_f = ItemId::Group(ItemIdGroupKind::Export(F));
    assert_eq!(a.g.has_dep(&decl_a, &export_f), None);
    assert_eq!(a.g.has_dep(&decl_f, &decl_a), Some(Dependency::Strong));
    assert_eq!(a.g.has_dep(&export_f, &decl_f), Some(Dependency::Strong));
    assert_eq!(
        a.g.g.idx_graph.edges,
        vec![
            Edge { from: 2, to: 1, kind: Dependency::Strong },
            Edge { from: 5, to: 2, kind: Dependency::Strong },
        ]
    );
    for mode in [Mode::Development, Mode::Production] {
        let mut g = a.g.clone();
        g.handle_weak(mode);
        let split = g.split_module("entry.js", &a.items);
        assert_eq!(split.modules.len(), 2);
        assert_eq!(
            split.entrypoints,
            vec![(ItemIdGroupKind::ModuleEvaluation, 0), (ItemIdGroupKind::Export(F), 1)]
        );
        assert!(split.modules[0].body.is_empty());
        assert_eq!(stmts_of(&split.modules[1].body), vec![0, 1]);
        assert_eq!(split.modules[1].body.len(), 2);
        assert_eq!(split.modules[1].uri, "entry.js");
        for part in &split.modules {
            assert!(!stmts_of(&part.body).contains(&3));
            assert!(!stmts_of(&part.body).contains(&2));
        }
        assert_eq!(split.part_deps, vec![Vec::<usize>::new(), Vec::<usize>::new()]);
    }
}

const X: u32 = 0;
const G: u32 = 1;
const Y: u32 = 2;
const H: u32 = 3;

/// `let x = 0; function g(){ x = 1 } log(x); g(); y = 5; function h(){ return y }`
fn effects() -> Module {
    let mut let_x = stmt(ItemIdItemKind::Declaration);
    let_x.var_decls = vec![X];
    let_x.write_vars = vec![X];
    let mut fn_g = stmt(ItemIdItemKind::Declaration);
    fn_g.is_hoisted = true;
    fn_g.var_decls = vec![G];
    fn_g.write_vars = vec![G];
    fn_g.eventual_write_vars = vec![X];
    let mut log = stmt(ItemIdItemKind::Normal);
    log.side_effects = true;
    log.read_vars = vec![X];
    let mut call = stmt(ItemIdItemKind::Normal);
    call.side_effects = true;
    call.read_vars = vec![G];
    let mut set_y = stmt(ItemIdItemKind::Normal);
    set_y.write_vars = vec![Y];
    let mut fn_h = stmt(ItemIdItemKind::Declaration);
    fn_h.is_hoisted = true;
    fn_h.var_decls = vec![H];
    fn_h.write_vars = vec![H];
    fn_h.eventual_read_vars = vec![Y];
    Module {
        names: vec!["x".to_string(), "g".to_string(), "y".to_string(), "h".to_string()],
        body: vec![let_x, fn_g, log, call, set_y, fn_h],
    }
}

fn edge(from: usize, to: usize, kind: Dependency) -> Edge {
    Edge { from, to, kind }
}

#[test]
fn passes_add_their_edges_in_order() {
    let module = effects();
    let mut a = Analyzer::new(&module);
    let eventual = a.hoist_vars_and_bindings(&module);
    assert_eq!(eventual.iter().copied().collect::<Vec<u32>>(), vec![X, Y]);
    assert_eq!(a.g.g.idx_graph.edges, vec![edge(4, 2, STRONG)]);
    a.evaluate_immediate();
    assert_eq!(
        a.g.g.idx_graph.edges,
        vec![
            edge(4, 2, STRONG),
            edge(3, 1, STRONG),
            edge(4, 3, STRONG),
            edge(0, 3, STRONG),
            edge(0, 4, STRONG),
        ]
    );
    a.evaluate_eventual(&eventual);
    assert_eq!(
        a.g.g.idx_graph.edges,
        vec![
            edge(4, 2, STRONG),
            edge(3, 1, STRONG),
            edge(4, 3, STRONG),
            edge(0, 3, STRONG),
            edge(0, 4, STRONG),
            edge(2, 1, STRONG),
            edge(6, 5, STRONG),
        ]
    );
    // Closures of no unit use `g`, so nothing is added for it.
    let mut other = Analyzer::new(&module);
    let _ = other.hoist_vars_and_bindings(&module);
    other.evaluate_immediate();
    let only_g: indexmap::IndexSet<u32, std::hash::BuildHasherDefault<rustc_hash::FxHasher>> =
        [G].into_iter().collect();
    let before_g = other.g.g.idx_graph.edges.clone();
    other.evaluate_eventual(&only_g);
    assert_eq!(other.g.g.idx_graph.edges, before_g);
    let before = a.g.g.idx_graph.edges.clone();
    a.handle_exports();
    assert_eq!(a.g.g.idx_graph.edges, before);
}

#[test]
fn production_folds_only_edges_into_units_with_one_consumer() {
    let mut g = DepGraph::new();
    let ids: Vec<ItemId> = (0..4).map(|i| item(i, ItemIdItemKind::Normal)).collect();
    g.intern(&ids);
    g.add_weak_dep(&ids[0], &ids[1]);
    g.add_weak_dep(&ids[0], &ids[2]);
    g.add_strong_dep(&ids[3], &ids[2]);
    g.add_weak_dep(&ids[3], &ids[2]);
    let mut dev = g.clone();
    dev.handle_weak(Mode::Development);
    assert_eq!(dev.g.idx_graph.edges, g.g.idx_graph.edges);
    g.handle_weak(Mode::Production);
    assert_eq!(
        g.g.idx_graph.edges,
        vec![edge(0, 1, STRONG), edge(0, 2, WEAK), edge(3, 2, STRONG)]
    );
}

#[test]
fn side_effects_keep_their_order_across_parts() {
    let module = effects();
    let a = Analyzer::analyze(&module);
    let mut dev = a.g.clone();
    dev.handle_weak(Mode::Development);
    let dev_split = dev.split_module("m.js", &a.items);
    let mut prod = a.g.clone();
    prod.handle_weak(Mode::Production);
    let prod_split = prod.split_module("m.js", &a.items);
    assert_eq!(prod_split.modules.len(), dev_split.modules.len());
    assert_eq!(dev_split.modules.len(), 3);
    assert_eq!(stmts_of(&dev_split.modules[0].body), vec![1, 3]);
    assert_eq!(stmts_of(&dev_split.modules[1].body), vec![0]);
    assert_eq!(stmts_of(&dev_split.modules[2].body), vec![2]);
    assert_eq!(dev_split.part_deps, vec![vec![1, 2], vec![], vec![1]]);
    assert_eq!(dev_split.entrypoints, vec![(ItemIdGroupKind::ModuleEvaluation, 0)]);
    match &dev_split.modules[2].body[0] {
        ModuleItem::Import { part, names } => {
            assert_eq!(*part, 1);
            assert_eq!(names, &vec![X]);
        }
        other => panic!("expected an import, found {:?}", other),
    }
    match dev_split.modules[1].body.last() {
        Some(ModuleItem::Export { names }) => assert_eq!(names, &vec![X]),
        other => panic!("expected an export, found {:?}", other),
    }
    for part in &dev_split.modules {
        assert!(!stmts_of(&part.body).contains(&4));
        assert!(!stmts_of(&part.body).contains(&5));
    }
    assert!(a.g.g.idx_graph.edges.iter().all(|e| e.kind == STRONG));
}

#[test]
fn production_shares_a_part_where_development_splits() {
    let ids = vec![
        ItemId::Group(ItemIdGroupKind::ModuleEvaluation),
        item(0, ItemIdItemKind::Normal),
        item(1, ItemIdItemKind::Normal),
    ];
    let mut g = DepGraph::new();
    g.intern(&ids);
    g.add_strong_dep(&ids[0], &ids[1]);
    g.add_weak_dep(&ids[1], &ids[2]);
    let facts: Vec<tree_shake::item::Item> = ids.iter().map(|_| Default::default()).collect();
    let mut dev = g.clone();
    dev.handle_weak(Mode::Development);
    let dev_split = dev.split_module("m.js", &facts);
    assert_eq!(dev_split.modules.len(), 2);
    assert_eq!(stmts_of(&dev_split.modules[0].body), vec![0]);
    assert_eq!(stmts_of(&dev_split.modules[1].body), vec![1]);
    let mut prod = g.clone();
    prod.handle_weak(Mode::Production);
    let prod_split = prod.split_module("m.js", &facts);
    assert_eq!(prod_split.modules.len(), 1);
    assert_eq!(stmts_of(&prod_split.modules[0].body), vec![0, 1]);
}

#[test]
fn units_on_a_cycle_share_a_node_and_a_part() {
    let ids = vec![
        ItemId::Group(ItemIdGroupKind::ModuleEvaluation),
        item(0, ItemIdItemKind::Declaration),
        item(1, ItemIdItemKind::Declaration),
        item(2, ItemIdItemKind::Declaration),
        ItemId::Group(ItemIdGroupKind::Export(9)),
    ];
    let mut g = DepGraph::new();
    g.intern(&ids);
    g.add_strong_dep(&ids[4], &ids[3]);
    g.add_strong_dep(&ids[3], &ids[1]);
    g.add_weak_dep(&ids[1], &ids[3]);
    g.add_strong_dep(&ids[0], &ids[1]);
    let condensed = g.finalize();
    assert_eq!(
        condensed.graph_ix,
        vec![vec![ids[0]], vec![ids[1], ids[3]], vec![ids[2]], vec![ids[4]]]
    );
    assert_eq!(
        condensed.idx_graph.edges,
        vec![edge(3, 1, STRONG), edge(0, 1, STRONG)]
    );
    let facts: Vec<tree_shake::item::Item> = ids.iter().map(|_| Default::default()).collect();
    let split = g.split_module("m.js", &facts);
    assert_eq!(split.modules.len(), 3);
    assert_eq!(stmts_of(&split.modules[1].body), vec![0, 2]);
    assert_eq!(split.part_deps, vec![vec![1], vec![], vec![1]]);
    assert_eq!(
        split.entrypoints,
        vec![(ItemIdGroupKind::ModuleEvaluation, 0), (ItemIdGroupKind::Export(9), 2)]
    );
}

#[test]
fn module_without_effects_or_exports_keeps_nothing() {
    let mut module = exported_function();
    module.body[2].exports.clear();
    let a = Analyzer::analyze(&module);
    let split = a.g.split_module("m.js", &a.items);
    assert_eq!(split.modules.len(), 1);
    assert!(split.modules[0].body.is_empty());
}

#[test]
fn splitting_twice_gives_the_same_parts() {
    for mode in [Mode::Development, Mode::Production] {
        let first = tree_shake::pipeline::shake(&effects(), mode, "m.js");
        let second = tree_shake::pipeline::shake(&effects(), mode, "m.js");
        assert_eq!(first.modules.len(), second.modules.len());
        assert_eq!(format!("{:?}", first), format!("{:?}", second));
        let a = Analyzer::analyze(&effects());
        let mut g = a.g.clone();
        g.handle_weak(mode);
        let by_hand = g.split_module("m.js", &a.items);
        assert_eq!(format!("{:?}", first), format!("{:?}", by_hand));
    }
}

#[test]
fn closures_depend_on_units_whose_closures_write_what_they_use() {
    // `function inc(){ n = n + 1 }  function get(){ return n }  export { get }`
    let mut inc = stmt(ItemIdItemKind::Declaration);
    inc.is_hoisted = true;
    inc.var_decls = vec![1];
    inc.write_vars = vec![1];
    inc.eventual_read_vars = vec![0];
    inc.eventual_write_vars = vec![0];
    let mut get = stmt(ItemIdItemKind::Declaration);
    get.is_hoisted = true;
    get.var_decls = vec![2];
    get.write_vars = vec![2];
    get.eventual_read_vars = vec![0];
    let mut export = stmt(ItemIdItemKind::Normal);
    export.exports = vec![2];
    let module = Module {
        names: vec!["n".to_string(), "inc".to_string(), "get".to_string()],
        body: vec![inc, get, export],
    };
    let a = Analyzer::analyze(&module);
    assert_eq!(
        a.g.g.idx_graph.edges,
        vec![edge(2, 1, STRONG), edge(4, 2, STRONG)]
    );
    let split = a.g.split_module("m.js", &a.items);
    assert_eq!(split.modules.len(), 2);
    assert_eq!(stmts_of(&split.modules[1].body), vec![0, 1]);
}

#[test]
fn mutually_recursive_functions_share_a_part() {
    // `function even(){ odd() }  function odd(){ even() }  even();`
    let mut even = stmt(ItemIdItemKind::Declaration);
    even.is_hoisted = true;
    even.var_decls = vec![0];
    even.write_vars = vec![0];
    even.eventual_read_vars = vec![1];
    let mut odd = stmt(ItemIdItemKind::Declaration);
    odd.is_hoisted = true;
    odd.var_decls = vec![1];
    odd.write_vars = vec![1];
    odd.eventual_read_vars = vec![0];
    let mut call = stmt(ItemIdItemKind::Normal);
    call.side_effects = true;
    call.read_vars = vec![0];
    let module = Module {
        names: vec!["even".to_string(), "odd".to_string()],
        body: vec![even, odd, call],
    };
    let a = Analyzer::analyze(&module);
    let condensed = a.g.finalize();
    assert_eq!(
        condensed.graph_ix,
        vec![
            vec![ItemId::Group(ItemIdGroupKind::ModuleEvaluation)],
            vec![item(0, ItemIdItemKind::Declaration), item(1, ItemIdItemKind::Declaration)],
            vec![item(2, ItemIdItemKind::Normal)],
        ]
    );
    for mode in [Mode::Development, Mode::Production] {
        let split = tree_shake::pipeline::shake(&module, mode, "m.js");
        assert_eq!(split.modules.len(), 1);
        assert_eq!(stmts_of(&split.modules[0].body), vec![0, 1, 2]);
    }
}

#[test]
fn a_unit_keeps_what_it_reads_at_once_and_in_closures() {
    // `const a = 1; const b = 2; const c = 3; const f = [a, () => b]; export { f }`
    let decl = |id: u32| {
        let mut s = stmt(ItemIdItemKind::Declaration);
        s.var_decls = vec![id];
        s.write_vars = vec![id];
        s
    };
    let mut f = decl(3);
    f.read_vars = vec![0];
    f.eventual_read_vars = vec![1];
    let mut export = stmt(ItemIdItemKind::Normal);
    export.exports = vec![3];
    let module = Module {
        names: vec!["a".to_string(), "b".to_string(), "c".to_string(), "f".to_string()],
        body: vec![decl(0), decl(1), decl(2), f, export],
    };
    let a = Analyzer::analyze(&module);
    assert!(a.is_wf());
    assert_eq!(
        a.g.g.idx_graph.edges,
        vec![edge(4, 1, STRONG), edge(4, 2, STRONG), edge(6, 4, STRONG)]
    );
    for mode in [Mode::Development, Mode::Production] {
        let split = tree_shake::pipeline::shake(&module, mode, "m.js");
        assert_eq!(split.modules.len(), 2);
        assert_eq!(stmts_of(&split.modules[1].body), vec![0, 1, 3]);
        assert!(stmts_of(&split.modules[0].body).is_empty());
    }
}
