use std::collections::HashMap;
use vstd::prelude::*;
use crate::scalar::Scalar;
use crate::value::{well_formed, well_formed_at, Graph, Node, Value};

verus! {

/// Node `node` of `graph` has two operands, and both stand before it.
pub open spec fn has_operands<T>(graph: Seq<Node<T>>, node: Value) -> bool {
    &&& graph[node@].ancestors.len() == 2
    &&& graph[node@].ancestors[0]@ < node@
    &&& graph[node@].ancestors[1]@ < node@
}

/// `to` is `from` itself or can be had from it by going from a node to one
/// of its operands, any number of times.
pub open spec fn reaches<T>(graph: Seq<Node<T>>, from: Value, to: Value) -> bool
    decreases from@,
{
    ||| from == to
    ||| {
        &&& has_operands(graph, from)
        &&& {
            ||| reaches(graph, graph[from@].ancestors[0], to)
            ||| reaches(graph, graph[from@].ancestors[1], to)
        }
    }
}

/// The depth-first walk from `node` that passes over the nodes in `seen`.
/// A node that was seen gives nothing. Any other node is marked as seen,
/// then its left operand is walked, then its right one, and the node itself
/// comes last. The result is the nodes in the order in which the walk
/// completed them, and what has been seen when it ends.
pub open spec fn visit<T>(graph: Seq<Node<T>>, node: Value, seen: Set<Value>) -> (
    Seq<Value>,
    Set<Value>,
)
    decreases node@,
{
    if seen.contains(node) {
        (Seq::empty(), seen)
    } else if has_operands(graph, node) {
        let first = visit(graph, graph[node@].ancestors[0], seen.insert(node));
        let second = visit(graph, graph[node@].ancestors[1], first.1);
        ((first.0 + second.0).push(node), second.1)
    } else {
        (seq![node], seen.insert(node))
    }
}

/// The order in which a backward pass from `root` takes the nodes, read
/// from the end: the walk from `root` with nothing seen before.
pub open spec fn topological_order<T>(graph: Seq<Node<T>>, root: Value) -> Seq<Value> {
    visit(graph, root, Set::empty()).0
}

/// `node` stands in `order` somewhere before position `limit`.
pub open spec fn precedes(order: Seq<Value>, node: Value, limit: int) -> bool {
    exists|j: int| 0 <= j < limit && j < order.len() && #[trigger] order[j] == node
}

/// Every operand of every node of `order` is in `seen` or stands in
/// `order` before the node.
pub open spec fn operands_first<T>(
    graph: Seq<Node<T>>,
    order: Seq<Value>,
    seen: Set<Value>,
) -> bool {
    forall|i: int, k: int|
        #![trigger graph[order[i]@].ancestors[k]]
        0 <= i < order.len() && 0 <= k < graph[order[i]@].ancestors.len() ==> {
            ||| seen.contains(graph[order[i]@].ancestors[k])
            ||| precedes(order, graph[order[i]@].ancestors[k], i)
        }
}

/// `order` holds no node twice, and each of its nodes after all of the
/// node's operands.
pub open spec fn topological<T>(graph: Seq<Node<T>>, order: Seq<Value>) -> bool {
    &&& order.no_duplicates()
    &&& operands_first(graph, order, Set::empty())
}

/// With each node of `seen` that stands at or before `bound`, `seen` holds
/// the node's operands.
pub open spec fn closed_below<T>(graph: Seq<Node<T>>, seen: Set<Value>, bound: Value) -> bool {
    forall|x: Value, k: int|
        #![trigger graph[x@].ancestors[k]]
        seen.contains(x) && x@ <= bound@ && 0 <= k < graph[x@].ancestors.len()
            ==> seen.contains(graph[x@].ancestors[k])
}

/// A node reaches only nodes that stand at or before it.
pub proof fn lemma_reaches_backwards<T>(graph: Seq<Node<T>>, from: Value, to: Value)
    requires
        reaches(graph, from, to),
    ensures
        to@ <= from@,
    decreases from@,
{
    if from != to {
        if reaches(graph, graph[from@].ancestors[0], to) {
            lemma_reaches_backwards(graph, graph[from@].ancestors[0], to);
        } else {
            lemma_reaches_backwards(graph, graph[from@].ancestors[1], to);
        }
    }
}

/// Reaching is transitive.
pub proof fn lemma_reaches_transitive<T>(
    graph: Seq<Node<T>>,
    from: Value,
    via: Value,
    to: Value,
)
    requires
        reaches(graph, from, via),
        reaches(graph, via, to),
    ensures
        reaches(graph, from, to),
    decreases from@,
{
    if from != via {
        if reaches(graph, graph[from@].ancestors[0], via) {
            lemma_reaches_transitive(graph, graph[from@].ancestors[0], via, to);
        } else {
            lemma_reaches_transitive(graph, graph[from@].ancestors[1], via, to);
        }
    }
}

proof fn lemma_closed_holds_reach<T>(
    graph: Seq<Node<T>>,
    seen: Set<Value>,
    node: Value,
    target: Value,
)
    requires
        closed_below(graph, seen, node),
        seen.contains(node),
        reaches(graph, node, target),
    ensures
        seen.contains(target),
    decreases node@,
{
    if node != target {
        let left = graph[node@].ancestors[0];
        let right = graph[node@].ancestors[1];
        assert(seen.contains(left));
        assert(seen.contains(right));
        if reaches(graph, left, target) {
            assert(closed_below(graph, seen, left));
            lemma_closed_holds_reach(graph, seen, left, target);
        } else {
            assert(closed_below(graph, seen, right));
            lemma_closed_holds_reach(graph, seen, right, target);
        }
    }
}

/// What a walk gives, whatever was seen before it, provided that what was
/// seen holds the operands of its own nodes up to the walk's start.
pub proof fn lemma_visit<T>(graph: Seq<Node<T>>, node: Value, seen: Set<Value>)
    requires
        well_formed(graph),
        node@ < graph.len(),
        closed_below(graph, seen, node),
    ensures
        ({
            let (order, after) = visit(graph, node, seen);
            &&& forall|x: Value| after.contains(x) <==> seen.contains(x) || order.contains(x)
            &&& after.contains(node)
            &&& order.no_duplicates()
            &&& forall|i: int|
                0 <= i < order.len() ==> {
                    &&& !seen.contains(#[trigger] order[i])
                    &&& order[i]@ <= node@
                    &&& reaches(graph, node, order[i])
                }
            &&& operands_first(graph, order, seen)
            &&& forall|x: Value| #[trigger] reaches(graph, node, x) ==> after.contains(x)
        }),
    decreases node@,
{
    let (order, after) = visit(graph, node, seen);
    assert(well_formed_at(graph, node@));
    if seen.contains(node) {
        assert forall|x: Value| #[trigger] reaches(graph, node, x) implies after.contains(x) by {
            lemma_closed_holds_reach(graph, seen, node, x);
        }
    } else if has_operands(graph, node) {
        let left = graph[node@].ancestors[0];
        let right = graph[node@].ancestors[1];
        let marked = seen.insert(node);
        let (o1, s1) = visit(graph, left, marked);
        let (o2, s2) = visit(graph, right, s1);
        assert(closed_below(graph, marked, left));
        lemma_visit(graph, left, marked);
        assert(closed_below(graph, s1, right)) by {
            assert forall|x: Value, k: int|
                #![trigger graph[x@].ancestors[k]]
                s1.contains(x) && x@ <= right@ && 0 <= k < graph[x@].ancestors.len()
                implies s1.contains(graph[x@].ancestors[k]) by {
                if marked.contains(x) {
                    assert(seen.contains(x));
                    assert(seen.contains(graph[x@].ancestors[k]));
                } else {
                    assert(o1.contains(x));
                    let i = choose|i: int| 0 <= i < o1.len() && o1[i] == x;
                    assert(marked.contains(graph[o1[i]@].ancestors[k]) || precedes(
                        o1,
                        graph[o1[i]@].ancestors[k],
                        i,
                    ));
                }
            }
        }
        lemma_visit(graph, right, s1);
        let both = o1 + o2;
        assert(order == both.push(node));
        assert(after == s2);
        assert forall|i: int| 0 <= i < order.len() implies {
            &&& !seen.contains(#[trigger] order[i])
            &&& order[i]@ <= node@
            &&& reaches(graph, node, order[i])
        } by {
            if i < o1.len() {
                assert(order[i] == o1[i]);
                assert(!marked.contains(o1[i]));
            } else if i < both.len() {
                assert(order[i] == o2[i - o1.len()]);
                assert(!s1.contains(o2[i - o1.len()]));
                assert(marked.contains(order[i]) ==> s1.contains(order[i]));
            }
        }
        assert(order.no_duplicates()) by {
            assert forall|i: int, j: int| 0 <= i < order.len() && 0 <= j < order.len() && i != j
                implies order[i] != order[j] by {
                lemma_place(o1, o2, node, i);
                lemma_place(o1, o2, node, j);
                if i < o1.len() && o1.len() <= j < both.len() {
                    assert(o1.contains(o1[i]));
                    assert(s1.contains(o1[i]));
                    assert(!s1.contains(o2[j - o1.len()]));
                }
                if j < o1.len() && o1.len() <= i < both.len() {
                    assert(o1.contains(o1[j]));
                    assert(s1.contains(o1[j]));
                    assert(!s1.contains(o2[i - o1.len()]));
                }
                if i < o1.len() && j == both.len() {
                    assert(!marked.contains(o1[i]));
                }
                if j < o1.len() && i == both.len() {
                    assert(!marked.contains(o1[j]));
                }
                if o1.len() <= i < both.len() && j == both.len() {
                    assert(!s1.contains(o2[i - o1.len()]));
                    assert(marked.contains(node));
                }
                if o1.len() <= j < both.len() && i == both.len() {
                    assert(!s1.contains(o2[j - o1.len()]));
                    assert(marked.contains(node));
                }
            }
        }
        assert forall|x: Value| after.contains(x) <==> seen.contains(x) || order.contains(x) by {
            if o1.contains(x) {
                let i = choose|i: int| 0 <= i < o1.len() && o1[i] == x;
                assert(order[i] == x);
            }
            if o2.contains(x) {
                let i = choose|i: int| 0 <= i < o2.len() && o2[i] == x;
                assert(order[o1.len() + i] == x);
            }
            assert(order[both.len() as int] == node);
            if order.contains(x) {
                let i = choose|i: int| 0 <= i < order.len() && order[i] == x;
                lemma_place(o1, o2, node, i);
                if i < o1.len() {
                    assert(o1.contains(x));
                } else if i < both.len() {
                    assert(o2[i - o1.len()] == x);
                    assert(o2.contains(x));
                }
            }
        }
        assert(operands_first(graph, order, seen)) by {
            assert forall|i: int, k: int|
                #![trigger graph[order[i]@].ancestors[k]]
                0 <= i < order.len() && 0 <= k < graph[order[i]@].ancestors.len() implies {
                ||| seen.contains(graph[order[i]@].ancestors[k])
                ||| precedes(order, graph[order[i]@].ancestors[k], i)
            } by {
                let x = order[i];
                let a = graph[x@].ancestors[k];
                lemma_place(o1, o2, node, i);
                assert(well_formed_at(graph, x@));
                assert(a@ < x@);
                if i < o1.len() {
                    assert(marked.contains(graph[o1[i]@].ancestors[k]) || precedes(
                        o1,
                        graph[o1[i]@].ancestors[k],
                        i,
                    ));
                    if precedes(o1, a, i) {
                        let j = choose|j: int| 0 <= j < i && j < o1.len() && o1[j] == a;
                        assert(order[j] == a);
                    }
                } else if i < both.len() {
                    let i2 = i - o1.len();
                    assert(s1.contains(graph[o2[i2]@].ancestors[k]) || precedes(
                        o2,
                        graph[o2[i2]@].ancestors[k],
                        i2,
                    ));
                    if precedes(o2, a, i2) {
                        let j = choose|j: int| 0 <= j < i2 && j < o2.len() && o2[j] == a;
                        assert(order[o1.len() + j] == a);
                    } else if !marked.contains(a) {
                        assert(o1.contains(a));
                        let j = choose|j: int| 0 <= j < o1.len() && o1[j] == a;
                        assert(order[j] == a);
                    }
                } else {
                    assert(x == node);
                    if k == 0 {
                        assert(s1.contains(left));
                        if !marked.contains(left) {
                            assert(o1.contains(left));
                            let j = choose|j: int| 0 <= j < o1.len() && o1[j] == left;
                            assert(order[j] == left);
                        }
                    } else {
                        assert(s2.contains(right));
                        if o2.contains(right) {
                            let j = choose|j: int| 0 <= j < o2.len() && o2[j] == right;
                            assert(order[o1.len() + j] == right);
                        } else if !marked.contains(right) {
                            assert(o1.contains(right));
                            let j = choose|j: int| 0 <= j < o1.len() && o1[j] == right;
                            assert(order[j] == right);
                        }
                    }
                }
            }
        }
        assert forall|x: Value| #[trigger] reaches(graph, node, x) implies after.contains(x) by {
            if x == node {
                assert(marked.contains(node));
                assert(s1.contains(node));
            } else if reaches(graph, left, x) {
                assert(s1.contains(x));
            } else {
                assert(reaches(graph, right, x));
            }
            assert(s2.contains(x));
        }
    } else {
        assert(order == seq![node]);
        assert(order[0] == node);
        assert(graph[node@].ancestors.len() == 0);
    }
}

proof fn lemma_place(o1: Seq<Value>, o2: Seq<Value>, node: Value, i: int)
    requires
        0 <= i < o1.len() + o2.len() + 1,
    ensures
        i < o1.len() ==> (o1 + o2).push(node)[i] == o1[i],
        o1.len() <= i < o1.len() + o2.len() ==> (o1 + o2).push(node)[i] == o2[i - o1.len()],
        i == o1.len() + o2.len() ==> (o1 + o2).push(node)[i] == node,
{
}

/// The order of a walk from `root` is topological, and it holds the nodes
/// that `root` reaches and no others: each of them once, after all of its
/// operands, also where several paths lead to it.
pub proof fn lemma_topological_order<T>(graph: Seq<Node<T>>, root: Value)
    requires
        well_formed(graph),
        root@ < graph.len(),
    ensures
        topological(graph, topological_order(graph, root)),
        forall|x: Value|
            topological_order(graph, root).contains(x) <==> #[trigger] reaches(graph, root, x),
{
    let order = topological_order(graph, root);
    lemma_visit(graph, root, Set::empty());
    assert forall|x: Value| order.contains(x) <==> #[trigger] reaches(graph, root, x) by {
        if order.contains(x) {
            let i = choose|i: int| 0 <= i < order.len() && order[i] == x;
            assert(reaches(graph, root, order[i]));
        }
    }
}

/// The nodes that a record of visits holds: those whose positions are its
/// keys.
pub open spec fn seen_in(seen_nodes: Map<usize, bool>) -> Set<Value> {
    Set::new(|node: Value| seen_nodes.contains_key(node.index))
}

/// The walk from `value` that passes over the nodes that `seen_nodes`
/// holds, and records there the nodes that it takes.
fn order_nodes_topologically<T: Scalar>(
    graph: &Graph<T>,
    value: &Value,
    seen_nodes: &mut HashMap<usize, bool>,
) -> (nodes: Vec<Value>)
    requires
        graph.wf(),
        graph.holds(*value),
    ensures
        nodes@ == visit(graph@, *value, seen_in(old(seen_nodes)@)).0,
        seen_in(final(seen_nodes)@) == visit(graph@, *value, seen_in(old(seen_nodes)@)).1,
    decreases value@,
{
    broadcast use vstd::std_specs::hash::group_hash_axioms;

    let mut nodes: Vec<Value> = Vec::new();
    if seen_nodes.contains_key(&value.index) {
        assert(nodes@ =~= Seq::<Value>::empty());
        return nodes;
    }
    // Mark the node as seen before its operands are walked.
    seen_nodes.insert(value.index, true);
    proof {
        assert(seen_in(seen_nodes@) =~= seen_in(old(seen_nodes)@).insert(*value));
        assert(well_formed_at(graph@, value@));
    }
    let inner = graph.node(value);
    if inner.ancestors.len() == 2 {
        let left = inner.ancestors[0];
        let right = inner.ancestors[1];
        let mut first = order_nodes_topologically(graph, &left, seen_nodes);
        nodes.append(&mut first);
        let mut second = order_nodes_topologically(graph, &right, seen_nodes);
        nodes.append(&mut second);
        nodes.push(*value);
        proof {
            let start = seen_in(old(seen_nodes)@).insert(*value);
            let one = visit(graph@, left, start);
            let two = visit(graph@, right, one.1);
            assert(nodes@ =~= (one.0 + two.0).push(*value));
        }
    } else {
        nodes.push(*value);
        assert(nodes@ =~= seq![*value]);
    }
    nodes
}

/// The nodes that `value` reaches, in the order of a depth-first walk that
/// completes a node's operands, left before right, before the node itself.
/// No node comes twice, and `value` comes last.
pub fn build_topological_graph<T: Scalar>(graph: &Graph<T>, value: &Value) -> (nodes: Vec<Value>)
    requires
        graph.wf(),
        graph.holds(*value),
    ensures
        nodes@ == topological_order(graph@, *value),
        nodes@.len() > 0 && nodes@.last() == *value,
        topological(graph@, nodes@),
        forall|x: Value| nodes@.contains(x) <==> #[trigger] reaches(graph@, *value, x),
        forall|i: int| 0 <= i < nodes@.len() ==> graph.holds(#[trigger] nodes@[i]),
{
    let mut seen_nodes: HashMap<usize, bool> = HashMap::new();
    proof {
        assert(seen_in(seen_nodes@) =~= Set::<Value>::empty());
        lemma_topological_order(graph@, *value);
        lemma_visit(graph@, *value, Set::empty());
    }
    order_nodes_topologically(graph, value, &mut seen_nodes)
}

} // verus!
