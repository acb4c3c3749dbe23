use tree_shake::analyzer::Analyzer;
use tree_shake::dep_graph::Mode;
use tree_shake::item::ItemIdItemKind;
use tree_shake::merge::{
    merge_parts, Load, MergeError, MergeState, Merger, SingleModuleLoader, Step,
};
use tree_shake::module::{Module, Stmt};
use tree_shake::split::{ModuleItem, Part};

fn import(part: usize, names: Vec<u32>) -> ModuleItem {
    ModuleItem::Import { part, names }
}

fn stmt(index: usize) -> ModuleItem {
    ModuleItem::Stmt { index }
}

fn part(body: Vec<ModuleItem>) -> Part {
    Part { uri: "entry.js".to_string(), body }
}

fn shape(body: &[ModuleItem]) -> Vec<String> {
    body.iter()
        .map(|i| match i {
            ModuleItem::Import { part, names } => format!("import {} {:?}", part, names),
            ModuleItem::Stmt { index } => format!("stmt {}", index),
            ModuleItem::Export { names } => format!("export {:?}", names),
        })
        .collect()
}

/// Part 0 imports 1 and 2, part 1 imports 2, part 2 imports nothing.
fn diamond() -> Vec<Part> {
    vec![
        part(vec![import(1, vec![7]), import(2, vec![]), stmt(5), stmt(6)]),
        part(vec![import(2, vec![8]), stmt(3), ModuleItem::Export { names: vec![7] }]),
        part(vec![stmt(1), ModuleItem::Export { names: vec![8] }]),
    ]
}

#[test]
fn merge_inlines_each_part_once_before_its_consumer() {
    let parts = diamond();
    let merged = merge_parts(parts[0].clone(), &parts).unwrap();
    assert_eq!(merged.uri, "entry.js");
    assert_eq!(
        shape(&merged.body),
        vec!["stmt 1", "export [8]", "stmt 3", "export [7]", "stmt 5", "stmt 6"]
    );
}

#[test]
fn merge_leaves_imports_of_unknown_parts() {
    let parts = vec![
        part(vec![import(1, vec![]), import(9, vec![4]), stmt(0)]),
        part(vec![import(9, vec![5]), stmt(2)]),
    ];
    let merged = merge_parts(parts[0].clone(), &parts).unwrap();
    assert_eq!(
        shape(&merged.body),
        vec!["import 9 [4]", "import 9 [5]", "stmt 2", "stmt 0"]
    );
}

#[test]
fn merge_refuses_a_part_that_imports_itself() {
    let parts = vec![
        part(vec![import(1, vec![]), stmt(0)]),
        part(vec![import(2, vec![]), stmt(1)]),
        part(vec![import(1, vec![]), stmt(2)]),
    ];
    assert_eq!(merge_parts(parts[0].clone(), &parts).unwrap_err(), MergeError::Cycle(1));
    let alone = vec![part(vec![stmt(0)]), part(vec![import(1, vec![])])];
    assert_eq!(merge_parts(alone[1].clone(), &alone).unwrap_err(), MergeError::Cycle(1));
    assert_eq!(merge_parts(alone[0].clone(), &alone).unwrap().body.len(), 1);
}

struct Counting {
    inner: SingleModuleLoader,
    calls: Vec<(String, usize)>,
}

impl Load for Counting {
    fn load(&mut self, uri: &str, part_index: usize) -> Option<Part> {
        self.calls.push((uri.to_string(), part_index));
        self.inner.load(uri, part_index)
    }
}

#[test]
fn merger_asks_the_loader_once_for_each_part() {
    let parts = diamond();
    let loader = Counting {
        inner: SingleModuleLoader { entry_module_uri: "entry.js".to_string(), modules: diamond() },
        calls: vec![],
    };
    let mut merger = Merger::new(loader);
    let merged = merger.merge_recursively(parts[0].clone()).unwrap();
    assert_eq!(
        shape(&merged.body),
        vec!["stmt 1", "export [8]", "stmt 3", "export [7]", "stmt 5", "stmt 6"]
    );
    assert_eq!(
        merger.loader.calls,
        vec![("entry.js".to_string(), 1), ("entry.js".to_string(), 2)]
    );
    assert_eq!(merger.asked, vec![1, 2]);
    let alone = merger.merge_recursively(parts[2].clone()).unwrap();
    assert_eq!(shape(&alone.body), vec!["stmt 1", "export [8]"]);
    assert!(merger.asked.is_empty());
}

#[test]
fn single_module_loader_knows_only_its_module() {
    let mut loader =
        SingleModuleLoader { entry_module_uri: "entry.js".to_string(), modules: diamond() };
    assert_eq!(shape(&loader.load("entry.js", 2).unwrap().body), vec!["stmt 1", "export [8]"]);
    assert!(loader.load("other.js", 2).is_none());
    assert!(loader.load("entry.js", 3).is_none());
    let mut merger = Merger::new(SingleModuleLoader {
        entry_module_uri: "other.js".to_string(),
        modules: diamond(),
    });
    let merged = merger.merge_recursively(diamond().remove(0)).unwrap();
    assert_eq!(
        shape(&merged.body),
        vec!["import 1 [7]", "import 2 []", "stmt 5", "stmt 6"]
    );
}

#[test]
fn machine_stops_for_each_load() {
    let parts = diamond();
    let mut st = MergeState::start(parts[0].clone());
    match st.advance() {
        Step::Load(i) => assert_eq!(i, 1),
        other => panic!("unexpected {:?}", other),
    }
    match st.advance() {
        Step::Load(i) => assert_eq!(i, 1),
        other => panic!("unexpected {:?}", other),
    }
    st.supply(None);
    match st.advance() {
        Step::Load(i) => assert_eq!(i, 2),
        other => panic!("unexpected {:?}", other),
    }
    st.supply(Some(parts[2].clone()));
    match st.advance() {
        Step::Done(p) => assert_eq!(
            shape(&p.body),
            vec!["import 1 [7]", "stmt 1", "export [8]", "stmt 5", "stmt 6"]
        ),
        other => panic!("unexpected {:?}", other),
    }
    assert_eq!(st.done, vec![2]);
    assert_eq!(st.missing, vec![1]);
}

fn plain(kind: ItemIdItemKind) -> Stmt {
    Stmt {
        kind,
        is_hoisted: false,
        side_effects: false,
        var_decls: vec![],
        read_vars: vec![],
        write_vars: vec![],
        eventual_read_vars: vec![],
        eventual_write_vars: vec![],
        exports: vec![],
    }
}

/// `let x = 0; function g(){ x = 1 } log(x); g(); unused();`
fn program() -> Module {
    let mut let_x = plain(ItemIdItemKind::Declaration);
    let_x.var_decls = vec![0];
    let_x.write_vars = vec![0];
    let mut fn_g = plain(ItemIdItemKind::Declaration);
    fn_g.is_hoisted = true;
    fn_g.var_decls = vec![1];
    fn_g.write_vars = vec![1];
    fn_g.eventual_write_vars = vec![0];
    let mut log = plain(ItemIdItemKind::Normal);
    log.side_effects = true;
    log.read_vars = vec![0];
    let mut call = plain(ItemIdItemKind::Normal);
    call.side_effects = true;
    call.read_vars = vec![1];
    let mut unused = plain(ItemIdItemKind::Declaration);
    unused.var_decls = vec![2];
    unused.write_vars = vec![2];
    Module {
        names: vec!["x".to_string(), "g".to_string(), "u".to_string()],
        body: vec![let_x, fn_g, log, call, unused],
    }
}

#[test]
fn split_then_merge_keeps_every_live_statement_in_dependency_order() {
    let module = program();
    let a = Analyzer::analyze(&module);
    for mode in [Mode::Development, Mode::Production] {
        let mut g = a.g.clone();
        g.handle_weak(mode);
        let split = g.split_module("entry.js", &a.items);
        let merged = merge_parts(split.modules[0].clone(), &split.modules).unwrap();
        let order: Vec<usize> = merged
            .body
            .iter()
            .filter_map(|i| match i {
                ModuleItem::Stmt { index } => Some(*index),
                _ => None,
            })
            .collect();
        let mut sorted = order.clone();
        sorted.sort();
        assert_eq!(sorted, vec![0, 1, 2, 3]);
        let at = |s: usize| order.iter().position(|x| *x == s).unwrap();
        assert!(at(0) < at(2));
        assert!(at(2) < at(3));
        assert!(at(1) < at(3));
        assert!(merged.body.iter().all(|i| !matches!(i, ModuleItem::Import { .. })));
        let mut merger = Merger::new(SingleModuleLoader {
            entry_module_uri: "entry.js".to_string(),
            modules: split.modules.clone(),
        });
        let again = merger.merge_recursively(split.modules[0].clone()).unwrap();
        assert_eq!(shape(&again.body), shape(&merged.body));
    }
}

#[test]
fn machine_that_does_not_wait_ignores_an_answer() {
    let parts = diamond();
    let mut st = MergeState::start(part(vec![stmt(4), import(2, vec![8]), stmt(5)]));
    st.supply(Some(parts[0].clone()));
    assert_eq!(st.stack.len(), 1);
    assert!(st.done.is_empty() && st.missing.is_empty());
    match st.advance() {
        Step::Load(i) => assert_eq!(i, 2),
        other => panic!("unexpected {:?}", other),
    }
    st.supply(Some(parts[2].clone()));
    match st.advance() {
        Step::Done(p) => {
            assert_eq!(shape(&p.body), vec!["stmt 4", "stmt 1", "export [8]", "stmt 5"]);
            assert_eq!(p.uri, "entry.js");
        }
        other => panic!("unexpected {:?}", other),
    }
    match st.advance() {
        Step::Done(p) => assert!(p.body.is_empty()),
        other => panic!("unexpected {:?}", other),
    }
    st.supply(None);
    assert!(st.stack.is_empty() && st.missing.is_empty());
}

#[test]
fn imports_of_a_part_that_was_not_found_all_stay() {
    let mut st = MergeState::start(part(vec![import(3, vec![1]), stmt(0), import(3, vec![2])]));
    match st.advance() {
        Step::Load(i) => assert_eq!(i, 3),
        other => panic!("unexpected {:?}", other),
    }
    st.supply(None);
    match st.advance() {
        Step::Done(p) => assert_eq!(shape(&p.body), vec!["import 3 [1]", "import 3 [2]", "stmt 0"]),
        other => panic!("unexpected {:?}", other),
    }
}
