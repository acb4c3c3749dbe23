use tree_shake::dep_graph::DepGraph;
use tree_shake::graph::{Dependency, InternedGraph};
use tree_shake::item::{ItemId, ItemIdGroupKind, ItemIdItemKind};
use tree_shake::render::{render_graph, render_item_id, render_mermaid};

fn names() -> Vec<String> {
    vec!["a".to_string(), "f".to_string()]
}

#[test]
fn item_id_labels() {
    let names = names();
    assert_eq!(
        render_item_id(&ItemId::Group(ItemIdGroupKind::ModuleEvaluation), &names),
        Some("ModuleEvaluation".to_string())
    );
    assert_eq!(
        render_item_id(&ItemId::Group(ItemIdGroupKind::Export(1)), &names),
        Some("export f".to_string())
    );
    assert_eq!(
        render_item_id(&ItemId::Group(ItemIdGroupKind::Export(7)), &names),
        Some("export ".to_string())
    );
    assert_eq!(
        render_item_id(&ItemId::Item { index: 0, kind: ItemIdItemKind::Normal }, &names),
        None
    );
}

#[test]
fn graph_rendering_numbers_nodes_from_one() {
    let names = names();
    let ids = vec![
        ItemId::Group(ItemIdGroupKind::ModuleEvaluation),
        ItemId::Item { index: 0, kind: ItemIdItemKind::Declaration },
        ItemId::Group(ItemIdGroupKind::Export(1)),
    ];
    let mut g = DepGraph::new();
    let out = render_graph(&ids, &mut g, &names);
    assert_eq!(
        out,
        "graph TD\n    Item1;\n    Item1[\"ModuleEvaluation\"];\n    Item2;\n    Item3;\n    Item3[\"export f\"];\n"
    );
    assert_eq!(g.g.graph_ix, ids);
    g.g.add_edge(0, 1, Dependency::Strong);
    g.g.add_edge(2, 1, Dependency::Weak);
    let out = render_graph(&ids, &mut g, &names);
    assert_eq!(
        out,
        "graph TD\n    Item1;\n    Item1[\"ModuleEvaluation\"];\n    Item2;\n    Item3;\n    Item3[\"export f\"];\n    Item1 --> Item2;\n    Item3 -.-> Item2;\n"
    );
}

#[test]
fn mermaid_rendering_escapes_labels() {
    let mut g: InternedGraph<ItemId> = InternedGraph::new();
    let a = g.node(&ItemId::Item { index: 10, kind: ItemIdItemKind::Normal });
    let b = g.node(&ItemId::Item { index: 11, kind: ItemIdItemKind::Normal });
    assert_eq!(g.node(&ItemId::Item { index: 10, kind: ItemIdItemKind::Normal }), a);
    g.add_edge(a, b, Dependency::Weak);
    g.add_edge(a, b, Dependency::Strong);
    g.add_edge(b, a, Dependency::Weak);
    let out = render_mermaid(&g, |id: &ItemId| match id {
        ItemId::Item { index, .. } => format!("say \"{}\";\nend", index),
        ItemId::Group(_) => String::new(),
    });
    assert_eq!(
        out,
        "graph TD\n    N0[\"say \\\"10\\\"end\"];\n    N1[\"say \\\"11\\\"end\"];\n    N0 --> N1;\n    N1 -.-> N0;\n"
    );
}

#[test]
fn item_listing_shows_the_facts_of_each_statement() {
    let module = tree_shake::module::Module {
        names: vec!["a".to_string(), "f".to_string()],
        body: vec![
            tree_shake::module::Stmt {
                kind: ItemIdItemKind::Declaration,
                is_hoisted: false,
                side_effects: true,
                var_decls: vec![0],
                read_vars: vec![1, 0, 1],
                write_vars: vec![0],
                eventual_read_vars: vec![],
                eventual_write_vars: vec![],
                exports: vec![],
            },
            tree_shake::module::Stmt {
                kind: ItemIdItemKind::Normal,
                is_hoisted: true,
                side_effects: false,
                var_decls: vec![],
                read_vars: vec![],
                write_vars: vec![],
                eventual_read_vars: vec![0],
                eventual_write_vars: vec![1, 5],
                exports: vec![1],
            },
        ],
    };
    let mut a = tree_shake::analyzer::Analyzer::new(&module);
    let _ = a.hoist_vars_and_bindings(&module);
    let texts = vec!["const a = f(a);".to_string()];
    let out = tree_shake::render::render_items(&a.item_ids, &a.items, &module.names, &texts);
    assert_eq!(
        out,
        "# Items\n\nCount: 4\n\n\
         ## Item 2: Stmt 0, `Declaration`\n\n```js\nconst a = f(a);\n```\n\n\
         - Side effects\n- Declares: `a`\n- Reads: `f`, `a`\n- Write: `a`\n\n\
         ## Item 3: Stmt 1, `Normal`\n\n```js\n\n```\n\n\
         - Hoisted\n- Reads (eventual): `a`\n- Write (eventual): `f`, ``\n\n"
    );
}

#[test]
fn decimal_numbers_have_no_leading_zeros() {
    let mut s = String::from("n=");
    tree_shake::render::push_decimal(&mut s, 0);
    s.push(' ');
    tree_shake::render::push_decimal(&mut s, 7);
    s.push(' ');
    tree_shake::render::push_decimal(&mut s, 10);
    s.push(' ');
    tree_shake::render::push_decimal(&mut s, 1905);
    s.push(' ');
    tree_shake::render::push_decimal(&mut s, usize::MAX);
    assert_eq!(s, format!("n=0 7 10 1905 {}", usize::MAX));
    let mut t = String::new();
    tree_shake::render::push_escaped(&mut t, "a\"b;c\nd\\");
    assert_eq!(t, "a\\\"bcd\\");
}
