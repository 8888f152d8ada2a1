use std::collections::HashMap;
use vstd::prelude::*;
use vstd::string::StringExecFns;
use crate::scalar::Scalar;
use crate::text::{decimal, push_decimal};
use crate::topology::{build_topological_graph, precedes, topological, topological_order};
use crate::value::{Graph, Node, Value};

verus! {

/// How the two numbers of a node are written in a diagram.
pub struct NodeText {
    /// The node's number.
    pub data: String,
    /// The node's gradient.
    pub gradient: String,
}

/// The line that declares the node at `position` of the order: its name in
/// the diagram, `N` and the position, and a record label with the node's
/// number, gradient, operation and name.
pub open spec fn dot_node_line<T>(position: nat, node: Node<T>, text: NodeText) -> Seq<char> {
    "  N"@ + decimal(position) + " [shape=record, label=\"data="@ + text.data@ + " | grad="@
        + text.gradient@ + " | operation="@ + node.operation.symbol() + " |id="@ + node.id
        + "\"];\n"@
}

/// The line that draws an arrow from the node at position `from` of the
/// order to the one at position `to`.
pub open spec fn dot_edge_line(from: nat, to: nat) -> Seq<char> {
    "  N"@ + decimal(from) + " -> N"@ + decimal(to) + ";\n"@
}

/// The arrows to the node at `position` of `order` from the first `upto`
/// of its operands.
pub open spec fn dot_edges<T>(
    graph: Seq<Node<T>>,
    order: Seq<Value>,
    position: int,
    upto: int,
) -> Seq<char>
    decreases upto,
{
    if upto <= 0 {
        Seq::empty()
    } else {
        dot_edges(graph, order, position, upto - 1) + dot_edge_line(
            order.index_of(graph[order[position]@].ancestors[upto - 1]) as nat,
            position as nat,
        )
    }
}

/// The lines for the first `upto` nodes of `order`: for each node its
/// declaration, then the arrows from its operands.
pub open spec fn dot_body<T>(
    graph: Seq<Node<T>>,
    order: Seq<Value>,
    texts: Seq<NodeText>,
    upto: int,
) -> Seq<char>
    decreases upto,
{
    if upto <= 0 {
        Seq::empty()
    } else {
        let node = order[upto - 1];
        dot_body(graph, order, texts, upto - 1) + dot_node_line(
            (upto - 1) as nat,
            graph[node@],
            texts[node@],
        ) + dot_edges(graph, order, upto - 1, graph[node@].ancestors.len() as int)
    }
}

/// The diagram of what `root` reaches, in the DOT language: a directed
/// graph drawn from left to right, with the nodes in topological order and
/// an arrow from each operand to the node that uses it. `texts` holds, for
/// every node of the graph, how its numbers are written.
pub open spec fn dot_text<T>(graph: Seq<Node<T>>, root: Value, texts: Seq<NodeText>) -> Seq<
    char,
> {
    let order = topological_order(graph, root);
    "digraph G {\n"@ + "  rankdir=\"LR\";\n"@ + dot_body(graph, order, texts, order.len() as int)
        + "}\n"@
}

/// Generates the diagram of the computation graph rooted at `value`, in
/// the DOT language of GraphViz.
pub fn to_dot_string<T: Scalar>(graph: &Graph<T>, value: &Value, texts: &Vec<NodeText>) -> (output:
    String)
    requires
        graph.wf(),
        graph.holds(*value),
        texts@.len() == graph@.len(),
    ensures
        output@ == dot_text(graph@, *value, texts@),
{
    broadcast use vstd::std_specs::hash::group_hash_axioms;

    let topo = build_topological_graph(graph, value);

    // Assign each node its position in the order, for labeling.
    let mut id_map: HashMap<usize, usize> = HashMap::new();
    let mut i: usize = 0;
    while i < topo.len()
        invariant
            i <= topo@.len(),
            topo@.no_duplicates(),
            forall|j: int|
                0 <= j < i ==> id_map@.contains_key((#[trigger] topo@[j]).index)
                    && id_map@[topo@[j].index] == j,
        decreases topo@.len() - i,
    {
        id_map.insert(topo[i].index, i);
        i = i + 1;
    }

    let mut output = String::new();
    output.append("digraph G {\n");
    output.append("  rankdir=\"LR\";\n");
    let ghost head = output@;
    assert(head =~= "digraph G {\n"@ + "  rankdir=\"LR\";\n"@);

    let mut i: usize = 0;
    while i < topo.len()
        invariant
            i <= topo@.len(),
            graph.wf(),
            texts@.len() == graph@.len(),
            topological(graph@, topo@),
            forall|j: int| 0 <= j < topo@.len() ==> graph.holds(#[trigger] topo@[j]),
            forall|j: int|
                0 <= j < topo@.len() ==> id_map@.contains_key((#[trigger] topo@[j]).index)
                    && id_map@[topo@[j].index] == j,
            output@ == head + dot_body(graph@, topo@, texts@, i as int),
        decreases topo@.len() - i,
    {
        let node = topo[i];
        let inner = graph.node(&node);
        let ghost before = output@;

        // The node itself, with a label that shows its contents.
        output.append("  N");
        push_decimal(&mut output, i);
        output.append(" [shape=record, label=\"data=");
        output.append(texts[node.index].data.as_str());
        output.append(" | grad=");
        output.append(texts[node.index].gradient.as_str());
        output.append(" | operation=");
        output.append(inner.operation.to_str());
        output.append(" |id=");
        output.append(inner.id.as_str());
        output.append("\"];\n");
        let ghost declared = output@;
        assert(declared =~= before + dot_node_line(i as nat, graph@[node@], texts@[node@]));

        // An arrow from each operand to the node.
        let mut k: usize = 0;
        while k < inner.ancestors.len()
            invariant
                k <= inner.ancestors@.len(),
                i < topo@.len(),
                node == topo@[i as int],
                inner@ == graph@[node@],
                graph.holds(node),
                topological(graph@, topo@),
                forall|j: int|
                    0 <= j < topo@.len() ==> id_map@.contains_key((#[trigger] topo@[j]).index)
                        && id_map@[topo@[j].index] == j,
                output@ == declared + dot_edges(graph@, topo@, i as int, k as int),
            decreases inner.ancestors@.len() - k,
        {
            let ancestor = inner.ancestors[k];
            proof {
                assert(ancestor == graph@[topo@[i as int]@].ancestors[k as int]);
                assert(precedes(topo@, ancestor, i as int));
                let at = choose|j: int| 0 <= j < i && j < topo@.len() && topo@[j] == ancestor;
                assert(topo@[at] == ancestor);
                assert(topo@[topo@.index_of(ancestor)] == ancestor);
            }
            // Every operand has its place in the order, before the node.
            if let Some(anc_id) = id_map.get(&ancestor.index) {
                let ghost drawn = output@;
                output.append("  N");
                push_decimal(&mut output, *anc_id);
                output.append(" -> N");
                push_decimal(&mut output, i);
                output.append(";\n");
                assert(output@ =~= drawn + dot_edge_line(*anc_id as nat, i as nat));
            }
            k = k + 1;
            assert(output@ =~= declared + dot_edges(graph@, topo@, i as int, k as int));
        }
        i = i + 1;
        assert(output@ =~= head + dot_body(graph@, topo@, texts@, i as int));
    }

    output.append("}\n");
    assert(output@ =~= dot_text(graph@, *value, texts@));
    output
}

} // verus!
