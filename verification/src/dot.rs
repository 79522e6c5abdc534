//! The graph in Graphviz DOT format.

use vstd::prelude::*;

use crate::blueprint::GraphModel;
use crate::digraph::{Edge, EdgeKind};
use crate::parser::{join_actions, joined_words, only_action, Action};
use crate::text::{
    decimal, decimal_text, holds, longer_holds, middle_is_held, owned, soften_quotes, softened,
    softening_spares_the_rest,
};

verus! {

/// What stands before the first node.
pub const DOT_HEADER: &'static str = "digraph impact {\n    rankdir=BT;\n    node [shape=box];\n";

/// The color of a node, by the actions that are planned for it.
pub open spec fn dot_color(actions: Seq<Action>) -> Seq<char> {
    if actions == seq![Action::Create] {
        "green4"@
    } else if actions == seq![Action::Delete] {
        "red3"@
    } else if actions == seq![Action::Update] {
        "goldenrod3"@
    } else if actions == seq![Action::Delete, Action::Create] || actions == seq![
        Action::Create,
        Action::Delete,
    ] {
        "orangered"@
    } else {
        "black"@
    }
}

/// The label of a node: its address, and the planned actions if there are any.
pub open spec fn dot_label(address: Seq<char>, actions: Seq<Action>) -> Seq<char> {
    if actions.len() == 0 {
        address
    } else {
        address + " ["@ + joined_words(actions, "+"@) + "]"@
    }
}

/// The line for a node. Quotation marks in the label become apostrophes.
pub open spec fn dot_node(i: nat, address: Seq<char>, actions: Seq<Action>) -> Seq<char> {
    "    n"@ + decimal(i) + " [label=\""@ + softened(dot_label(address, actions)) + "\" color=\""@
        + dot_color(actions) + "\"];\n"@
}

/// The line for an edge: explicit dependencies are solid, implicit ones dashed.
pub open spec fn dot_edge(e: Edge) -> Seq<char> {
    "    n"@ + decimal(e.from as nat) + " -> n"@ + decimal(e.to as nat) + " [style=\""@ + (
    match e.kind {
        EdgeKind::Explicit => "solid"@,
        EdgeKind::Implicit => "dashed"@,
    }) + "\"];\n"@
}

/// The lines for the first `count` nodes.
pub open spec fn dot_nodes(g: GraphModel, count: nat) -> Seq<char>
    decreases count,
{
    if count == 0 {
        Seq::empty()
    } else {
        dot_nodes(g, (count - 1) as nat) + dot_node(
            (count - 1) as nat,
            g.nodes[count - 1].address,
            g.metas[count - 1].actions,
        )
    }
}

/// The lines for the first `count` edges.
pub open spec fn dot_edges(edges: Seq<Edge>, count: nat) -> Seq<char>
    decreases count,
{
    if count == 0 {
        Seq::empty()
    } else {
        dot_edges(edges, (count - 1) as nat) + dot_edge(edges[count - 1])
    }
}

/// The whole graph: the header, a line for each node, a line for each edge, the closing brace.
pub open spec fn dot_text(g: GraphModel) -> Seq<char> {
    DOT_HEADER@ + dot_nodes(g, g.nodes.len()) + dot_edges(g.edges, g.edges.len()) + "}"@
}

/// The color of a node, by the actions that are planned for it.
pub fn color_of(actions: &[Action]) -> (color: &'static str)
    ensures
        color@ == dot_color(actions@),
{
    if only_action(actions, Action::Create) {
        "green4"
    } else if only_action(actions, Action::Delete) {
        "red3"
    } else if only_action(actions, Action::Update) {
        "goldenrod3"
    } else if actions.len() == 2 && ((actions[0] == Action::Delete && actions[1]
        == Action::Create) || (actions[0] == Action::Create && actions[1] == Action::Delete)) {
        proof {
            assert(actions@ =~= seq![actions@[0], actions@[1]]);
        }
        "orangered"
    } else {
        proof {
            if actions@ == seq![Action::Delete, Action::Create] {
                assert(actions@[0] == Action::Delete && actions@[1] == Action::Create);
            }
            if actions@ == seq![Action::Create, Action::Delete] {
                assert(actions@[0] == Action::Create && actions@[1] == Action::Delete);
            }
        }
        "black"
    }
}

/// Writes the line for a node.
pub fn write_node(out: &mut String, i: u32, address: &str, actions: &[Action])
    ensures
        final(out)@ == old(out)@ + dot_node(i as nat, address@, actions@),
{
    let ghost start = out@;
    let mut label = owned(address);
    if actions.len() > 0 {
        label.append(" [");
        label.append(join_actions(actions, "+").as_str());
        label.append("]");
    }
    assert(label@ == dot_label(address@, actions@));
    out.append("    n");
    out.append(decimal_text(i as u64).as_str());
    out.append(" [label=\"");
    out.append(soften_quotes(label.as_str()).as_str());
    out.append("\" color=\"");
    out.append(color_of(actions));
    out.append("\"];\n");
    assert(out@ =~= start + dot_node(i as nat, address@, actions@));
}

/// Writes the line for an edge.
pub fn write_edge(out: &mut String, edge: Edge)
    ensures
        final(out)@ == old(out)@ + dot_edge(edge),
{
    let ghost start = out@;
    out.append("    n");
    out.append(decimal_text(edge.from as u64).as_str());
    out.append(" -> n");
    out.append(decimal_text(edge.to as u64).as_str());
    out.append(" [style=\"");
    match edge.kind {
        EdgeKind::Explicit => out.append("solid"),
        EdgeKind::Implicit => out.append("dashed"),
    }
    out.append("\"];\n");
    assert(out@ =~= start + dot_edge(edge));
}

// ── What the text shows ──────────────────────────────────────────────────────

proof fn nodes_are_lines(g: GraphModel, count: nat)
    requires
        count <= g.nodes.len(),
    ensures
        dot_nodes(g, count) == Seq::new(
            count,
            |i: int| dot_node(i as nat, g.nodes[i].address, g.metas[i].actions),
        ).flatten(),
    decreases count,
{
    let lines = Seq::new(
        count,
        |i: int| dot_node(i as nat, g.nodes[i].address, g.metas[i].actions),
    );
    lines.lemma_flatten_and_flatten_alt_are_equivalent();
    if count > 0 {
        let few = (count - 1) as nat;
        nodes_are_lines(g, few);
        let before = Seq::new(
            few,
            |i: int| dot_node(i as nat, g.nodes[i].address, g.metas[i].actions),
        );
        before.lemma_flatten_and_flatten_alt_are_equivalent();
        assert(lines.drop_last() =~= before);
    }
}

proof fn edges_are_lines(edges: Seq<Edge>, count: nat)
    requires
        count <= edges.len(),
    ensures
        dot_edges(edges, count) == edges.take(count as int).map_values(
            |e: Edge| dot_edge(e),
        ).flatten(),
    decreases count,
{
    let lines = edges.take(count as int).map_values(|e: Edge| dot_edge(e));
    lines.lemma_flatten_and_flatten_alt_are_equivalent();
    if count > 0 {
        let few = (count - 1) as nat;
        edges_are_lines(edges, few);
        let before = edges.take(few as int).map_values(|e: Edge| dot_edge(e));
        before.lemma_flatten_and_flatten_alt_are_equivalent();
        assert(lines.drop_last() =~= before);
    }
}

/// The text has one line for each node, of whatever kind, and one for each edge, in order, between
/// its opening and its closing brace, and nothing else.
pub proof fn each_node_and_edge_has_a_line(g: GraphModel)
    ensures
        dot_text(g) == "digraph impact {\n    rankdir=BT;\n    node [shape=box];\n"@ + Seq::new(
            g.nodes.len(),
            |i: int| dot_node(i as nat, g.nodes[i].address, g.metas[i].actions),
        ).flatten() + g.edges.map_values(|e: Edge| dot_edge(e)).flatten() + "}"@,
{
    nodes_are_lines(g, g.nodes.len());
    edges_are_lines(g.edges, g.edges.len());
    assert(g.edges.take(g.edges.len() as int) =~= g.edges);
}

/// The line of any one node and that of any one edge occur in the text.
pub proof fn each_line_is_in_the_text(g: GraphModel, i: int, e: int)
    ensures
        0 <= i < g.nodes.len() ==> holds(
            dot_text(g),
            dot_node(i as nat, g.nodes[i].address, g.metas[i].actions),
        ),
        0 <= e < g.edges.len() ==> holds(dot_text(g), dot_edge(g.edges[e])),
{
    let head = DOT_HEADER@;
    let nodes = dot_nodes(g, g.nodes.len());
    let edges = dot_edges(g.edges, g.edges.len());
    if 0 <= i < g.nodes.len() {
        let line = dot_node(i as nat, g.nodes[i].address, g.metas[i].actions);
        node_line_is_held(g, g.nodes.len(), i);
        longer_holds(head, nodes, edges + "}"@, line);
        assert(dot_text(g) =~= head + nodes + (edges + "}"@));
    }
    if 0 <= e < g.edges.len() {
        let line = dot_edge(g.edges[e]);
        edge_line_is_held(g.edges, g.edges.len(), e);
        longer_holds(head + nodes, edges, "}"@, line);
    }
}

proof fn node_line_is_held(g: GraphModel, count: nat, i: int)
    requires
        0 <= i < count,
    ensures
        holds(dot_nodes(g, count), dot_node(i as nat, g.nodes[i].address, g.metas[i].actions)),
    decreases count,
{
    let line = dot_node(i as nat, g.nodes[i].address, g.metas[i].actions);
    let before = dot_nodes(g, (count - 1) as nat);
    let all = dot_nodes(g, count);
    if i == count - 1 {
        middle_is_held(before, line, Seq::empty());
        assert(all =~= before + line + Seq::empty());
    } else {
        node_line_is_held(g, (count - 1) as nat, i);
        let last = dot_node(
            (count - 1) as nat,
            g.nodes[count - 1].address,
            g.metas[count - 1].actions,
        );
        longer_holds(Seq::empty(), before, last, line);
        assert(all =~= Seq::empty() + before + last);
    }
}

proof fn edge_line_is_held(edges: Seq<Edge>, count: nat, e: int)
    requires
        0 <= e < count,
    ensures
        holds(dot_edges(edges, count), dot_edge(edges[e])),
    decreases count,
{
    let line = dot_edge(edges[e]);
    let before = dot_edges(edges, (count - 1) as nat);
    let all = dot_edges(edges, count);
    if e == count - 1 {
        middle_is_held(before, line, Seq::empty());
        assert(all =~= before + line + Seq::empty());
    } else {
        edge_line_is_held(edges, (count - 1) as nat, e);
        let last = dot_edge(edges[count - 1]);
        longer_holds(Seq::empty(), before, last, line);
        assert(all =~= Seq::empty() + before + last);
    }
}

/// A node's line starts with its number and its address, without quotation marks. Without actions
/// the label ends there; otherwise the actions' words follow in brackets. The line ends with the
/// color: green for a creation alone, red for a deletion alone, golden for an update alone, orange
/// for a replacement in either order, black for anything else.
pub proof fn node_lines_tell_the_node(i: nat, address: Seq<char>, actions: Seq<Action>)
    requires
        !address.contains('"'),
    ensures
        ("    n"@ + decimal(i) + " [label=\""@ + address).is_prefix_of(
            dot_node(i, address, actions),
        ),
        actions.len() == 0 ==> dot_node(i, address, actions) == "    n"@ + decimal(i)
            + " [label=\""@ + address + "\" color=\"black\"];\n"@,
        actions.len() > 0 ==> ("    n"@ + decimal(i) + " [label=\""@ + address + " ["@
            + joined_words(actions, "+"@) + "]\" color=\""@).is_prefix_of(
            dot_node(i, address, actions),
        ),
        actions == seq![Action::Create] ==> "color=\"green4\"];\n"@.is_suffix_of(
            dot_node(i, address, actions),
        ),
        actions == seq![Action::Delete] ==> "color=\"red3\"];\n"@.is_suffix_of(
            dot_node(i, address, actions),
        ),
        actions == seq![Action::Update] ==> "color=\"goldenrod3\"];\n"@.is_suffix_of(
            dot_node(i, address, actions),
        ),
        actions.len() == 2 && actions.contains(Action::Create) && actions.contains(Action::Delete)
            ==> "color=\"orangered\"];\n"@.is_suffix_of(dot_node(i, address, actions)),
        actions.len() > 2 || actions.contains(Action::NoOp) || actions.contains(Action::Read)
            || actions.contains(Action::Forget) || (actions.len() == 2 && actions[0] == actions[1])
            || (actions.len() == 2 && actions.contains(Action::Update))
            ==> "color=\"black\"];\n"@.is_suffix_of(dot_node(i, address, actions)),
{
    reveal_strlit("\" color=\"");
    reveal_strlit("]\" color=\"");
    reveal_strlit("]");
    reveal_strlit("\"];\n");
    reveal_strlit("green4");
    reveal_strlit("red3");
    reveal_strlit("goldenrod3");
    reveal_strlit("orangered");
    reveal_strlit("black");
    reveal_strlit("color=\"green4\"];\n");
    reveal_strlit("color=\"red3\"];\n");
    reveal_strlit("color=\"goldenrod3\"];\n");
    reveal_strlit("color=\"orangered\"];\n");
    reveal_strlit("color=\"black\"];\n");
    reveal_strlit("\" color=\"black\"];\n");
    reveal_strlit(" [");
    let line = dot_node(i, address, actions);
    let label = dot_label(address, actions);
    let start = "    n"@ + decimal(i) + " [label=\""@;
    reveal_strlit("+");
    words_have_no_quotes(actions, "+"@);
    if actions.len() == 2 {
        assert(actions =~= seq![actions[0], actions[1]]);
        assert(actions == seq![Action::Delete, Action::Create] || actions == seq![
            Action::Create,
            Action::Delete,
        ] || !actions.contains(Action::Create) || !actions.contains(Action::Delete));
    }
    assert(!label.contains('"'));
    softening_spares_the_rest(label);
    let end = "\" color=\""@ + dot_color(actions) + "\"];\n"@;
    assert(line =~= start + label + end);
}

/// The words of the actions hold no quotation mark.
proof fn words_have_no_quotes(actions: Seq<Action>, separator: Seq<char>)
    requires
        !separator.contains('"'),
    ensures
        !joined_words(actions, separator).contains('"'),
    decreases actions.len(),
{
    reveal_strlit("no-op");
    reveal_strlit("create");
    reveal_strlit("read");
    reveal_strlit("update");
    reveal_strlit("delete");
    reveal_strlit("forget");
    if actions.len() > 1 {
        words_have_no_quotes(actions.drop_last(), separator);
    }
}

/// An edge's line starts with the numbers of its two nodes, the one that depends first, and tells
/// declared dependencies by a solid line and all others by a dashed one.
pub proof fn edge_lines_tell_the_edge(e: Edge)
    ensures
        ("    n"@ + decimal(e.from as nat) + " -> n"@ + decimal(e.to as nat)
            + " [style=\""@).is_prefix_of(dot_edge(e)),
        e.kind == EdgeKind::Explicit <==> "solid\"];\n"@.is_suffix_of(dot_edge(e)),
        e.kind == EdgeKind::Implicit <==> "dashed\"];\n"@.is_suffix_of(dot_edge(e)),
{
    reveal_strlit("solid");
    reveal_strlit("dashed");
    reveal_strlit("\"];\n");
    reveal_strlit("solid\"];\n");
    reveal_strlit("dashed\"];\n");
    let style = if e.kind == EdgeKind::Explicit {
        "solid"@
    } else {
        "dashed"@
    };
    let start = "    n"@ + decimal(e.from as nat) + " -> n"@ + decimal(e.to as nat)
        + " [style=\""@;
    let line = dot_edge(e);
    assert(line =~= start + (style + "\"];\n"@));
    assert(style + "\"];\n"@ =~= if e.kind == EdgeKind::Explicit {
        "solid\"];\n"@
    } else {
        "dashed\"];\n"@
    });
    let k = line.len() - 6;
    if "solid\"];\n"@.is_suffix_of(line) {
        assert(line[k] == "solid\"];\n"@[3]);
    }
    if "dashed\"];\n"@.is_suffix_of(line) {
        assert(line[k] == "dashed\"];\n"@[4]);
    }
}

} // verus!
