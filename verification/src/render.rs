//! Text renderings of the graphs, in the flow-chart notation of Mermaid.

use crate::dep_graph::DepGraph;
use crate::graph::{within, Dependency, Edge, InternedGraph, Key};
use crate::item::{item_views, Item, ItemId, ItemIdGroupKind, ItemIdItemKind, ItemView};
use crate::seqs::{absorb, lemma_absorb_grows, lemma_absorb_split};
use crate::var_set::{var_seq, var_set_get, var_set_len, Id, VarSet};
use vstd::prelude::*;
use vstd::string::*;

verus! {

/// `String::push`: the character is appended to the string.
pub assume_specification[ String::push ](s: &mut String, c: char)
    ensures
        final(s)@ == old(s)@.push(c),
;

/// The character of a decimal digit.
pub open spec fn digit_char(d: nat) -> char {
    if d == 0 {
        '0'
    } else if d == 1 {
        '1'
    } else if d == 2 {
        '2'
    } else if d == 3 {
        '3'
    } else if d == 4 {
        '4'
    } else if d == 5 {
        '5'
    } else if d == 6 {
        '6'
    } else if d == 7 {
        '7'
    } else if d == 8 {
        '8'
    } else {
        '9'
    }
}

/// A number in decimal notation, without leading zeros.
pub open spec fn decimal(n: nat) -> Seq<char>
    decreases n,
{
    if n < 10 {
        seq![digit_char(n)]
    } else {
        decimal(n / 10).push(digit_char(n % 10))
    }
}

/// The texts of a table of strings.
pub open spec fn texts(names: Seq<String>) -> Seq<Seq<char>> {
    Seq::new(names.len(), |i: int| names[i]@)
}

/// The name of an identifier: its entry in the table of names, and the empty
/// text for an identifier beyond the table.
pub open spec fn name_of(names: Seq<Seq<char>>, id: Id) -> Seq<char> {
    if id < names.len() {
        names[id as int]
    } else {
        Seq::empty()
    }
}

/// The label of a synthetic unit; statements have none.
pub open spec fn item_id_label(id: ItemId, names: Seq<Seq<char>>) -> Option<Seq<char>> {
    match id {
        ItemId::Group(ItemIdGroupKind::ModuleEvaluation) => Some("ModuleEvaluation"@),
        ItemId::Group(ItemIdGroupKind::Export(x)) => Some("export "@ + name_of(names, x)),
        ItemId::Item { .. } => None,
    }
}

/// The text between the two nodes of an edge.
pub open spec fn arrow(k: Dependency) -> Seq<char> {
    match k {
        Dependency::Strong => " --> "@,
        Dependency::Weak => " -.-> "@,
    }
}

/// The line of one edge: both nodes are written as `prefix` and their number
/// plus `offset`.
pub open spec fn edge_line(prefix: Seq<char>, offset: nat, e: Edge) -> Seq<char> {
    "    "@ + prefix + decimal(e.from as nat + offset) + arrow(e.kind) + prefix + decimal(
        e.to as nat + offset,
    ) + ";\n"@
}

/// The lines of the edges, in their order.
pub open spec fn edge_lines(prefix: Seq<char>, offset: nat, es: Seq<Edge>) -> Seq<char>
    decreases es.len(),
{
    if es.len() == 0 {
        Seq::empty()
    } else {
        edge_lines(prefix, offset, es.drop_last()) + edge_line(prefix, offset, es.last())
    }
}

/// The lines of the unit at node `i`: the node itself, and its label if it
/// has one. Nodes are counted from one.
pub open spec fn node_line(i: nat, id: ItemId, names: Seq<Seq<char>>) -> Seq<char> {
    "    Item"@ + decimal(i + 1) + ";\n"@ + match item_id_label(id, names) {
        Some(l) => "    Item"@ + decimal(i + 1) + "[\""@ + l + "\"];\n"@,
        None => Seq::empty(),
    }
}

/// The lines of the units `ids`, each under the number of its node in `nodes`.
pub open spec fn node_lines(nodes: Seq<ItemId>, ids: Seq<ItemId>, names: Seq<Seq<char>>) -> Seq<
    char,
>
    decreases ids.len(),
{
    if ids.len() == 0 {
        Seq::empty()
    } else {
        node_lines(nodes, ids.drop_last(), names) + node_line(
            nodes.index_of(ids.last()) as nat,
            ids.last(),
            names,
        )
    }
}

/// The rendering of a dependency graph: a header, the units, the edges.
pub open spec fn graph_text(
    nodes: Seq<ItemId>,
    edges: Seq<Edge>,
    ids: Seq<ItemId>,
    names: Seq<Seq<char>>,
) -> Seq<char> {
    "graph TD\n"@ + node_lines(nodes, ids, names) + edge_lines("Item"@, 1, edges)
}

/// What a character of a label becomes inside a quoted node text: a quote is
/// escaped, a semicolon or a line break is left out.
pub open spec fn escape_char(c: char) -> Seq<char> {
    if c == '"' {
        seq!['\\', '"']
    } else if c == ';' || c == '\n' {
        Seq::empty()
    } else {
        seq![c]
    }
}

/// A label as it stands inside a quoted node text.
pub open spec fn escape(s: Seq<char>) -> Seq<char>
    decreases s.len(),
{
    if s.len() == 0 {
        Seq::empty()
    } else {
        escape(s.drop_last()) + escape_char(s.last())
    }
}

/// The line of node `i` of an interned graph, with its label.
pub open spec fn mermaid_node_line(i: nat, label: Seq<char>) -> Seq<char> {
    "    N"@ + decimal(i) + "[\""@ + escape(label) + "\"];\n"@
}

/// The lines of the nodes, which are numbered from zero.
pub open spec fn mermaid_node_lines(labels: Seq<Seq<char>>) -> Seq<char>
    decreases labels.len(),
{
    if labels.len() == 0 {
        Seq::empty()
    } else {
        mermaid_node_lines(labels.drop_last()) + mermaid_node_line(
            (labels.len() - 1) as nat,
            labels.last(),
        )
    }
}

/// The rendering of an interned graph whose nodes have the given labels.
pub open spec fn mermaid_text(labels: Seq<Seq<char>>, edges: Seq<Edge>) -> Seq<char> {
    "graph TD\n"@ + mermaid_node_lines(labels) + edge_lines("N"@, 0, edges)
}

/// The string of a decimal digit.
fn digit_str(d: usize) -> (r: &'static str)
    requires
        d < 10,
    ensures
        r@ == seq![digit_char(d as nat)],
{
    proof {
        reveal_strlit("0");
        reveal_strlit("1");
        reveal_strlit("2");
        reveal_strlit("3");
        reveal_strlit("4");
        reveal_strlit("5");
        reveal_strlit("6");
        reveal_strlit("7");
        reveal_strlit("8");
        reveal_strlit("9");
    }
    let r = if d == 0 {
        "0"
    } else if d == 1 {
        "1"
    } else if d == 2 {
        "2"
    } else if d == 3 {
        "3"
    } else if d == 4 {
        "4"
    } else if d == 5 {
        "5"
    } else if d == 6 {
        "6"
    } else if d == 7 {
        "7"
    } else if d == 8 {
        "8"
    } else {
        "9"
    };
    assert(r@ =~= seq![digit_char(d as nat)]);
    r
}

/// Appends a number in decimal notation.
pub fn push_decimal(out: &mut String, n: usize)
    ensures
        final(out)@ == old(out)@ + decimal(n as nat),
    decreases n,
{
    if n >= 10 {
        push_decimal(out, n / 10);
    }
    out.append(digit_str(n % 10));
    proof {
        if n >= 10 {
            assert(old(out)@ + decimal((n / 10) as nat) + seq![digit_char((n % 10) as nat)] =~= old(
                out,
            )@ + decimal(n as nat));
        }
    }
}

/// Appends a label as it stands inside a quoted node text.
pub fn push_escaped(out: &mut String, s: &str)
    ensures
        final(out)@ == old(out)@ + escape(s@),
{
    let n = s.unicode_len();
    let mut i: usize = 0;
    assert(s@.take(0) =~= Seq::<char>::empty());
    assert(old(out)@ + escape(s@.take(0)) =~= old(out)@);
    while i < n
        invariant
            i <= n,
            n == s@.len(),
            out@ == old(out)@ + escape(s@.take(i as int)),
        decreases n - i,
    {
        let c = s.get_char(i);
        let ghost before = out@;
        if c == '"' {
            out.push('\\');
            out.push('"');
        } else if c == ';' || c == '\n' {
        } else {
            out.push(c);
        }
        proof {
            let t = s@.take(i + 1);
            assert(t.drop_last() =~= s@.take(i as int));
            assert(t.last() == c);
            assert(out@ =~= before + escape_char(c));
            assert(old(out)@ + escape(t) =~= before + escape_char(c));
        }
        i += 1;
    }
    assert(s@.take(n as int) =~= s@);
}

/// The label under which a synthetic unit is drawn: `ModuleEvaluation`, or
/// `export` and the exported name. A statement has no label.
pub fn render_item_id(id: &ItemId, names: &Vec<String>) -> (r: Option<String>)
    ensures
        match item_id_label(*id, texts(names@)) {
            Some(l) => r is Some && r->0@ == l,
            None => r is None,
        },
{
    match id {
        ItemId::Group(ItemIdGroupKind::ModuleEvaluation) => {
            let mut s = String::new();
            s.append("ModuleEvaluation");
            assert(s@ =~= "ModuleEvaluation"@);
            Some(s)
        },
        ItemId::Group(ItemIdGroupKind::Export(x)) => {
            let mut s = String::new();
            s.append("export ");
            assert(s@ =~= "export "@);
            if (*x as usize) < names.len() {
                s.append(names[*x as usize].as_str());
            } else {
                assert(s@ =~= "export "@ + Seq::<char>::empty());
            }
            Some(s)
        },
        ItemId::Item { .. } => None,
    }
}

/// Appends the lines of the unit at node `i`.
fn push_node_line(out: &mut String, i: usize, id: &ItemId, names: &Vec<String>)
    requires
        i < usize::MAX,
    ensures
        final(out)@ == old(out)@ + node_line(i as nat, *id, texts(names@)),
{
    out.append("    Item");
    push_decimal(out, i + 1);
    out.append(";\n");
    match render_item_id(id, names) {
        Some(label) => {
            out.append("    Item");
            push_decimal(out, i + 1);
            out.append("[\"");
            out.append(label.as_str());
            out.append("\"];\n");
            assert(out@ =~= old(out)@ + node_line(i as nat, *id, texts(names@)));
        },
        None => {
            assert(out@ =~= old(out)@ + node_line(i as nat, *id, texts(names@)));
        },
    }
}

/// Appends the lines of the edges.
#[verifier::rlimit(100)]
fn push_edges(out: &mut String, edges: &Vec<Edge>, prefix: &str, offset: usize)
    requires
        forall|i: int|
            0 <= i < edges@.len() ==> (#[trigger] edges@[i]).from + offset <= usize::MAX
                && edges@[i].to + offset <= usize::MAX,
    ensures
        final(out)@ == old(out)@ + edge_lines(prefix@, offset as nat, edges@),
{
    let mut i: usize = 0;
    assert(edges@.take(0) =~= Seq::<Edge>::empty());
    assert(old(out)@ + edge_lines(prefix@, offset as nat, edges@.take(0)) =~= old(out)@);
    while i < edges.len()
        invariant
            i <= edges.len(),
            forall|i: int|
                0 <= i < edges@.len() ==> (#[trigger] edges@[i]).from + offset <= usize::MAX
                    && edges@[i].to + offset <= usize::MAX,
            out@ == old(out)@ + edge_lines(prefix@, offset as nat, edges@.take(i as int)),
        decreases edges.len() - i,
    {
        let e = edges[i];
        let ghost before = out@;
        out.append("    ");
        out.append(prefix);
        push_decimal(out, e.from + offset);
        match e.kind {
            Dependency::Strong => out.append(" --> "),
            Dependency::Weak => out.append(" -.-> "),
        }
        out.append(prefix);
        push_decimal(out, e.to + offset);
        out.append(";\n");
        proof {
            let t = edges@.take(i + 1);
            assert(t.drop_last() =~= edges@.take(i as int));
            assert(t.last() == e);
            assert(out@ =~= before + edge_line(prefix@, offset as nat, e));
            assert(old(out)@ + edge_lines(prefix@, offset as nat, t) =~= before + edge_line(
                prefix@,
                offset as nat,
                e,
            ));
        }
        i += 1;
    }
    assert(edges@.take(edges.len() as int) =~= edges@);
}

/// Renders a dependency graph. Each of `item_ids` is drawn under the number of
/// its node, counted from one, and gets a node if it has none yet; then every
/// edge is drawn, a weak one dotted.
#[verifier::rlimit(100)]
pub fn render_graph(item_ids: &Vec<ItemId>, g: &mut DepGraph, names: &Vec<String>) -> (out: String)
    requires
        old(g).wf(),
    ensures
        final(g).wf(),
        final(g)@.edges == old(g)@.edges,
        final(g)@.nodes == absorb(old(g)@.nodes, item_ids@),
        out@ == graph_text(final(g)@.nodes, final(g)@.edges, item_ids@, texts(names@)),
{
    let mut out = String::new();
    out.append("graph TD\n");
    let ghost start = g@.nodes;
    let ghost all = absorb(start, item_ids@);
    let ghost nm = texts(names@);
    proof {
        lemma_absorb_grows(start, item_ids@);
        assert(item_ids@.take(0) =~= Seq::<ItemId>::empty());
        assert(out@ =~= "graph TD\n"@ + node_lines(all, item_ids@.take(0), nm));
    }
    let mut k: usize = 0;
    while k < item_ids.len()
        invariant
            k <= item_ids.len(),
            g.wf(),
            g@.edges == old(g)@.edges,
            g@.nodes == absorb(start, item_ids@.take(k as int)),
            all == absorb(start, item_ids@),
            all.no_duplicates(),
            nm == texts(names@),
            out@ == "graph TD\n"@ + node_lines(all, item_ids@.take(k as int), nm),
        decreases item_ids.len() - k,
    {
        let id = item_ids[k];
        let ghost before = out@;
        let i = g.g.node(&id);
        let n = g.g.len();
        proof {
            let t = item_ids@.take(k + 1);
            assert(t.drop_last() =~= item_ids@.take(k as int));
            assert(t.last() == id);
            lemma_absorb_split(start, item_ids@, k + 1);
            lemma_absorb_grows(g@.nodes, item_ids@.skip(k + 1));
            assert(all[i as int] == id);
            assert(all.index_of(id) == i);
        }
        push_node_line(&mut out, i, &id, names);
        proof {
            let t = item_ids@.take(k + 1);
            assert("graph TD\n"@ + node_lines(all, t, nm) =~= before + node_line(i as nat, id, nm));
        }
        k += 1;
    }
    assert(item_ids@.take(item_ids.len() as int) =~= item_ids@);
    let n = g.g.len();
    proof {
        assert(within(g@.edges, n as nat));
        assert forall|i: int| 0 <= i < g@.edges.len() implies (#[trigger] g@.edges[i]).from + 1
            <= usize::MAX && g@.edges[i].to + 1 <= usize::MAX by {}
    }
    push_edges(&mut out, g.g.idx_graph.all_edges(), "Item", 1);
    out
}

/// Renders an interned graph. Node `i` is drawn as `N` and `i` with the label
/// that `render` gives for its value; then every edge is drawn, a weak one
/// dotted.
#[verifier::rlimit(100)]
pub fn render_mermaid<T: Key, F: Fn(&T) -> String>(g: &InternedGraph<T>, render: F) -> (out:
    String)
    requires
        forall|i: int|
            0 <= i < g.graph_ix@.len() ==> call_requires(render, (&#[trigger] g.graph_ix@[i],)),
    ensures
        exists|labels: Seq<String>|
            {
                &&& labels.len() == g.graph_ix@.len()
                &&& forall|i: int|
                    0 <= i < labels.len() ==> call_ensures(
                        render,
                        (&g.graph_ix@[i],),
                        #[trigger] labels[i],
                    )
                &&& out@ == mermaid_text(texts(labels), g@.edges)
            },
{
    let mut out = String::new();
    out.append("graph TD\n");
    let ghost mut labels: Seq<String> = Seq::empty();
    proof {
        assert(texts(labels) =~= Seq::<Seq<char>>::empty());
        assert(out@ =~= "graph TD\n"@ + mermaid_node_lines(texts(labels)));
    }
    let mut i: usize = 0;
    while i < g.graph_ix.len()
        invariant
            i <= g.graph_ix.len(),
            forall|i: int|
                0 <= i < g.graph_ix@.len() ==> call_requires(render, (&#[trigger] g.graph_ix@[i],)),
            labels.len() == i,
            forall|j: int|
                0 <= j < labels.len() ==> call_ensures(render, (&g.graph_ix@[j],), #[trigger] labels[j]),
            out@ == "graph TD\n"@ + mermaid_node_lines(texts(labels)),
        decreases g.graph_ix.len() - i,
    {
        let label = render(&g.graph_ix[i]);
        let ghost before = out@;
        let ghost old_labels = labels;
        out.append("    N");
        push_decimal(&mut out, i);
        out.append("[\"");
        push_escaped(&mut out, label.as_str());
        out.append("\"];\n");
        proof {
            labels = labels.push(label);
            let t = texts(labels);
            assert(t.drop_last() =~= texts(old_labels));
            assert(t.last() == label@);
            assert(out@ =~= before + mermaid_node_line(i as nat, label@));
            assert("graph TD\n"@ + mermaid_node_lines(t) =~= before + mermaid_node_line(
                i as nat,
                label@,
            ));
        }
        i += 1;
    }
    push_edges(&mut out, g.idx_graph.all_edges(), "N", 0);
    out
}

/// The names of a list of identifiers, each between backquotes, with commas
/// between them.
pub open spec fn var_list(names: Seq<Seq<char>>, vars: Seq<Id>) -> Seq<char>
    decreases vars.len(),
{
    if vars.len() == 0 {
        Seq::empty()
    } else {
        var_list(names, vars.drop_last()) + if vars.len() > 1 {
            ", `"@
        } else {
            "`"@
        } + name_of(names, vars.last()) + "`"@
    }
}

/// The line that lists a set of identifiers under a label; nothing for a set
/// that is empty.
pub open spec fn fact_line(label: Seq<char>, names: Seq<Seq<char>>, vars: Seq<Id>) -> Seq<char> {
    if vars.len() == 0 {
        Seq::empty()
    } else {
        "- "@ + label + ": "@ + var_list(names, vars) + "\n"@
    }
}

/// The name of a kind of statement.
pub open spec fn kind_name(kind: ItemIdItemKind) -> Seq<char> {
    match kind {
        ItemIdItemKind::Normal => "Normal"@,
        ItemIdItemKind::Declaration => "Declaration"@,
    }
}

/// The text of a statement: its entry in the table of texts, and the empty
/// text for a statement beyond the table.
pub open spec fn text_of(texts: Seq<Seq<char>>, index: usize) -> Seq<char> {
    if index < texts.len() {
        texts[index as int]
    } else {
        Seq::empty()
    }
}

/// The section of the unit at position `i`: for a statement its number,
/// counted from one, its place and kind, its text, and its facts; nothing for
/// a synthetic unit.
pub open spec fn item_section(
    i: nat,
    id: ItemId,
    f: ItemView,
    names: Seq<Seq<char>>,
    texts: Seq<Seq<char>>,
) -> Seq<char> {
    match id {
        ItemId::Group(_) => Seq::empty(),
        ItemId::Item { index, kind } => "## Item "@ + decimal(i + 1) + ": Stmt "@ + decimal(
            index as nat,
        ) + ", `"@ + kind_name(kind) + "`\n\n```js\n"@ + text_of(texts, index) + "\n```\n\n"@
            + if f.is_hoisted {
            "- Hoisted\n"@
        } else {
            Seq::empty()
        } + if f.side_effects {
            "- Side effects\n"@
        } else {
            Seq::empty()
        } + fact_line("Declares"@, names, f.var_decls) + fact_line("Reads"@, names, f.read_vars)
            + fact_line("Reads (eventual)"@, names, f.eventual_read_vars) + fact_line(
            "Write"@,
            names,
            f.write_vars,
        ) + fact_line("Write (eventual)"@, names, f.eventual_write_vars) + "\n"@,
    }
}

/// The sections of the first `upto` units.
pub open spec fn item_sections(
    ids: Seq<ItemId>,
    f: Seq<ItemView>,
    names: Seq<Seq<char>>,
    texts: Seq<Seq<char>>,
    upto: nat,
) -> Seq<char>
    decreases upto,
{
    if upto == 0 {
        Seq::empty()
    } else {
        item_sections(ids, f, names, texts, (upto - 1) as nat) + item_section(
            (upto - 1) as nat,
            ids[upto - 1],
            f[upto - 1],
            names,
            texts,
        )
    }
}

/// The listing of the units of a module: their number, and a section for
/// each statement.
pub open spec fn items_text(
    ids: Seq<ItemId>,
    f: Seq<ItemView>,
    names: Seq<Seq<char>>,
    texts: Seq<Seq<char>>,
) -> Seq<char> {
    "# Items\n\nCount: "@ + decimal(ids.len()) + "\n\n"@ + item_sections(
        ids,
        f,
        names,
        texts,
        ids.len(),
    )
}

/// Joining texts does not depend on how they are grouped.
pub proof fn lemma_concat_assoc(a: Seq<char>, b: Seq<char>, c: Seq<char>)
    ensures
        (a + b) + c == a + (b + c),
{
    assert((a + b) + c =~= a + (b + c));
}

/// Appends the names of a set of identifiers.
#[verifier::rlimit(100)]
fn push_var_list(out: &mut String, vars: &VarSet, names: &Vec<String>)
    ensures
        final(out)@ == old(out)@ + var_list(texts(names@), var_seq(*vars)),
{
    let n = var_set_len(vars);
    let ghost vs = var_seq(*vars);
    let ghost nm = texts(names@);
    let mut i: usize = 0;
    proof {
        assert(vs.take(0) =~= Seq::<Id>::empty());
        assert(old(out)@ + var_list(nm, vs.take(0)) =~= old(out)@);
    }
    while i < n
        invariant
            i <= n,
            n == vs.len(),
            vs == var_seq(*vars),
            nm == texts(names@),
            out@ == old(out)@ + var_list(nm, vs.take(i as int)),
        decreases n - i,
    {
        let ghost before = out@;
        match var_set_get(vars, i) {
            Some(v) => {
                if i > 0 {
                    out.append(", `");
                } else {
                    out.append("`");
                }
                if (v as usize) < names.len() {
                    out.append(names[v as usize].as_str());
                }
                out.append("`");
                proof {
                    let t = vs.take(i + 1);
                    assert(t.drop_last() =~= vs.take(i as int));
                    assert(t.last() == v);
                    let sep = if t.len() > 1 {
                        ", `"@
                    } else {
                        "`"@
                    };
                    assert(out@ =~= before + sep + name_of(nm, v) + "`"@);
                    assert(old(out)@ + var_list(nm, t) =~= before + sep + name_of(nm, v) + "`"@);
                }
            },
            None => {},
        }
        i += 1;
    }
    assert(vs.take(n as int) =~= vs);
}

/// Appends the line that lists a set of identifiers under a label.
fn push_fact_line(out: &mut String, label: &str, vars: &VarSet, names: &Vec<String>)
    ensures
        final(out)@ == old(out)@ + fact_line(label@, texts(names@), var_seq(*vars)),
{
    if var_set_len(vars) > 0 {
        out.append("- ");
        out.append(label);
        out.append(": ");
        push_var_list(out, vars, names);
        out.append("\n");
        assert(out@ =~= old(out)@ + fact_line(label@, texts(names@), var_seq(*vars)));
    } else {
        assert(out@ =~= old(out)@ + fact_line(label@, texts(names@), var_seq(*vars)));
    }
}

/// Appends the head of the section of a statement: its number, place, kind
/// and text.
#[verifier::rlimit(100)]
fn push_section_head(
    out: &mut String,
    i: usize,
    index: usize,
    kind: ItemIdItemKind,
    stmt_texts: &Vec<String>,
)
    requires
        i < usize::MAX,
    ensures
        final(out)@ == old(out)@ + ("## Item "@ + decimal((i + 1) as nat) + ": Stmt "@ + decimal(
            index as nat,
        ) + ", `"@ + kind_name(kind) + "`\n\n```js\n"@ + text_of(texts(stmt_texts@), index)
            + "\n```\n\n"@),
{
    let ghost start = out@;
    let ghost text = text_of(texts(stmt_texts@), index);
    out.append("## Item ");
    let ghost a1 = "## Item "@;
    assert(out@ == start + a1);
    push_decimal(out, i + 1);
    let ghost a2 = a1 + decimal((i + 1) as nat);
    proof {
        lemma_concat_assoc(start, a1, decimal((i + 1) as nat));
    }
    assert(out@ == start + a2);
    out.append(": Stmt ");
    let ghost a3 = a2 + ": Stmt "@;
    proof {
        lemma_concat_assoc(start, a2, ": Stmt "@);
    }
    assert(out@ == start + a3);
    push_decimal(out, index);
    let ghost a4 = a3 + decimal(index as nat);
    proof {
        lemma_concat_assoc(start, a3, decimal(index as nat));
    }
    assert(out@ == start + a4);
    out.append(", `");
    let ghost a5 = a4 + ", `"@;
    proof {
        lemma_concat_assoc(start, a4, ", `"@);
    }
    assert(out@ == start + a5);
    match kind {
        ItemIdItemKind::Normal => out.append("Normal"),
        ItemIdItemKind::Declaration => out.append("Declaration"),
    }
    let ghost a6 = a5 + kind_name(kind);
    proof {
        lemma_concat_assoc(start, a5, kind_name(kind));
    }
    assert(out@ == start + a6);
    out.append("`\n\n```js\n");
    let ghost a7 = a6 + "`\n\n```js\n"@;
    proof {
        lemma_concat_assoc(start, a6, "`\n\n```js\n"@);
    }
    assert(out@ == start + a7);
    if index < stmt_texts.len() {
        out.append(stmt_texts[index].as_str());
    } else {
        assert(out@ =~= out@ + text);
    }
    let ghost a8 = a7 + text;
    proof {
        lemma_concat_assoc(start, a7, text);
    }
    assert(out@ == start + a8);
    out.append("\n```\n\n");
    proof {
        lemma_concat_assoc(start, a8, "\n```\n\n"@);
    }
}

/// Appends the section of the unit at position `i`.
#[verifier::rlimit(100)]
fn push_item_section(
    out: &mut String,
    i: usize,
    id: &ItemId,
    item: &Item,
    names: &Vec<String>,
    stmt_texts: &Vec<String>,
)
    requires
        i < usize::MAX,
    ensures
        final(out)@ == old(out)@ + item_section(
            i as nat,
            *id,
            item@,
            texts(names@),
            texts(stmt_texts@),
        ),
{
    match id {
        ItemId::Group(_) => {
            assert(out@ =~= old(out)@ + Seq::<char>::empty());
        },
        ItemId::Item { index, kind } => {
            let ghost nm = texts(names@);
            let ghost f = item@;
            push_section_head(out, i, *index, *kind, stmt_texts);
            let ghost s1 = out@;
            if item.is_hoisted {
                out.append("- Hoisted\n");
            }
            let ghost s2 = out@;
            if item.side_effects {
                out.append("- Side effects\n");
            }
            let ghost s3 = out@;
            push_fact_line(out, "Declares", &item.var_decls, names);
            let ghost s4 = out@;
            push_fact_line(out, "Reads", &item.read_vars, names);
            let ghost s5 = out@;
            push_fact_line(out, "Reads (eventual)", &item.eventual_read_vars, names);
            let ghost s6 = out@;
            push_fact_line(out, "Write", &item.write_vars, names);
            let ghost s7 = out@;
            push_fact_line(out, "Write (eventual)", &item.eventual_write_vars, names);
            let ghost s8 = out@;
            out.append("\n");
            proof {
                let start = old(out)@;
                let hoisted = if f.is_hoisted {
                    "- Hoisted\n"@
                } else {
                    Seq::<char>::empty()
                };
                let effects = if f.side_effects {
                    "- Side effects\n"@
                } else {
                    Seq::<char>::empty()
                };
                let acc1 = "## Item "@ + decimal((i + 1) as nat) + ": Stmt "@ + decimal(
                    *index as nat,
                ) + ", `"@ + kind_name(*kind) + "`\n\n```js\n"@ + text_of(
                    texts(stmt_texts@),
                    *index,
                ) + "\n```\n\n"@;
                let l1 = fact_line("Declares"@, nm, f.var_decls);
                let l2 = fact_line("Reads"@, nm, f.read_vars);
                let l3 = fact_line("Reads (eventual)"@, nm, f.eventual_read_vars);
                let l4 = fact_line("Write"@, nm, f.write_vars);
                let l5 = fact_line("Write (eventual)"@, nm, f.eventual_write_vars);
                let acc2 = acc1 + hoisted;
                let acc3 = acc2 + effects;
                let acc4 = acc3 + l1;
                let acc5 = acc4 + l2;
                let acc6 = acc5 + l3;
                let acc7 = acc6 + l4;
                let acc8 = acc7 + l5;
                let acc9 = acc8 + "\n"@;
                assert(s1 == start + acc1);
                assert(s2 == start + acc2) by {
                    assert(s2 =~= s1 + hoisted);
                    lemma_concat_assoc(start, acc1, hoisted);
                }
                assert(s3 == start + acc3) by {
                    assert(s3 =~= s2 + effects);
                    lemma_concat_assoc(start, acc2, effects);
                }
                assert(s4 == start + acc4) by {
                    lemma_concat_assoc(start, acc3, l1);
                }
                assert(s5 == start + acc5) by {
                    lemma_concat_assoc(start, acc4, l2);
                }
                assert(s6 == start + acc6) by {
                    lemma_concat_assoc(start, acc5, l3);
                }
                assert(s7 == start + acc7) by {
                    lemma_concat_assoc(start, acc6, l4);
                }
                assert(s8 == start + acc8) by {
                    lemma_concat_assoc(start, acc7, l5);
                }
                assert(out@ == start + acc9) by {
                    lemma_concat_assoc(start, acc8, "\n"@);
                }
                assert(item_section(i as nat, *id, f, nm, texts(stmt_texts@)) == acc9);
            }
        },
    }
}

/// Lists the units of a module: their number, and for each statement a
/// section with its number among the units, counted from one, its place in
/// the module, its kind, its text, and the facts that hold of it. `items`
/// holds the facts of each unit at the position of the unit, `names` the
/// names of the identifiers, `stmt_texts` the text of each statement.
pub fn render_items(
    item_ids: &Vec<ItemId>,
    items: &Vec<Item>,
    names: &Vec<String>,
    stmt_texts: &Vec<String>,
) -> (out: String)
    requires
        items.len() == item_ids.len(),
    ensures
        out@ == items_text(item_ids@, item_views(items@), texts(names@), texts(stmt_texts@)),
{
    let n = item_ids.len();
    let ghost f = item_views(items@);
    let ghost nm = texts(names@);
    let ghost tx = texts(stmt_texts@);
    let mut out = String::new();
    out.append("# Items\n\nCount: ");
    push_decimal(&mut out, n);
    out.append("\n\n");
    let ghost head = "# Items\n\nCount: "@ + decimal(n as nat) + "\n\n"@;
    assert(out@ =~= head + item_sections(item_ids@, f, nm, tx, 0));
    let mut i: usize = 0;
    while i < n
        invariant
            i <= n,
            n == item_ids.len(),
            n == items.len(),
            f == item_views(items@),
            nm == texts(names@),
            tx == texts(stmt_texts@),
            head == "# Items\n\nCount: "@ + decimal(n as nat) + "\n\n"@,
            out@ == head + item_sections(item_ids@, f, nm, tx, i as nat),
        decreases n - i,
    {
        let ghost before = out@;
        push_item_section(&mut out, i, &item_ids[i], &items[i], names, stmt_texts);
        proof {
            let sec = item_section(i as nat, item_ids@[i as int], f[i as int], nm, tx);
            assert(out@ == before + sec);
            assert(head + item_sections(item_ids@, f, nm, tx, (i + 1) as nat) =~= before + sec);
        }
        i += 1;
    }
    out
}

} // verus!
