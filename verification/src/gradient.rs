use vstd::prelude::*;
use crate::scalar::Scalar;
use crate::topology::{
    build_topological_graph, has_operands, lemma_reaches_backwards, lemma_reaches_transitive,
    lemma_topological_order, precedes, reaches, topological, topological_order, visit,
};
use crate::value::{handle, well_formed, well_formed_at, Graph, Node, Value, ValueOp};

verus! {

/// The local rule of differentiation. When `node` hands its gradient `g`
/// back, the gradient `acc` of its operand in slot `slot` (0 for the left
/// one, 1 for the right one) becomes:
///
/// | operation | left | right |
/// |---|---|---|
/// | `l + r` | `acc + 1 * g` | `acc + 1 * g` |
/// | `l - r` | `acc + 1 * g` | `acc - 1 * g` |
/// | `l * r` | `acc + r * g` | `acc + l * g` |
/// | `l / r` | `acc + (1 / r) * g` | `acc - (l / (r * r)) * g` |
///
/// where `l` and `r` are the numbers of the two operands.
pub open spec fn flow<T: Scalar>(graph: Seq<Node<T>>, node: Value, slot: int, acc: T) -> T {
    let g = graph[node@].gradient;
    let l = graph[graph[node@].ancestors[0]@].data;
    let r = graph[graph[node@].ancestors[1]@].data;
    let one = T::one_spec();
    match graph[node@].operation {
        ValueOp::Addition => acc.add_spec(one.mul_spec(g)),
        ValueOp::Subtraction => if slot == 0 {
            acc.add_spec(one.mul_spec(g))
        } else {
            acc.sub_spec(one.mul_spec(g))
        },
        ValueOp::Multiplication => if slot == 0 {
            acc.add_spec(r.mul_spec(g))
        } else {
            acc.add_spec(l.mul_spec(g))
        },
        ValueOp::Division => if slot == 0 {
            acc.add_spec(one.div_spec(r).mul_spec(g))
        } else {
            acc.sub_spec(l.div_spec(r.mul_spec(r)).mul_spec(g))
        },
        ValueOp::Leaf => acc,
    }
}

/// `target` is an operand of `node`.
pub open spec fn uses<T>(graph: Seq<Node<T>>, node: Value, target: Value) -> bool {
    &&& has_operands(graph, node)
    &&& (graph[node@].ancestors[0] == target || graph[node@].ancestors[1] == target)
}

/// What the gradient `acc` of `target` becomes when `node` hands its
/// gradient back: the flow through the left slot if `target` is the left
/// operand, then the flow through the right slot if it is the right one.
/// A node that does not use `target` leaves `acc` as it is.
pub open spec fn received<T: Scalar>(
    graph: Seq<Node<T>>,
    node: Value,
    target: Value,
    acc: T,
) -> T {
    if has_operands(graph, node) {
        let through_left = if graph[node@].ancestors[0] == target {
            flow(graph, node, 0, acc)
        } else {
            acc
        };
        if graph[node@].ancestors[1] == target {
            flow(graph, node, 1, through_left)
        } else {
            through_left
        }
    } else {
        acc
    }
}

/// The graph after `node` has handed its gradient back to its operands.
/// Only gradients change, and only those of the operands of `node`.
pub open spec fn backward_step<T: Scalar>(graph: Seq<Node<T>>, node: Value) -> Seq<Node<T>> {
    Seq::new(
        graph.len(),
        |i: int| graph[i].with_gradient(received(graph, node, handle(i), graph[i].gradient)),
    )
}

/// The graph after the first `upto` nodes of `order` have handed their
/// gradients back, the last of them first.
pub open spec fn sweep<T: Scalar>(graph: Seq<Node<T>>, order: Seq<Value>, upto: int) -> Seq<
    Node<T>,
>
    decreases upto,
{
    if upto <= 0 {
        graph
    } else {
        sweep(backward_step(graph, order[upto - 1]), order, upto - 1)
    }
}

/// The graph after a backward pass from `root`: the gradient of `root` is
/// set to one, and then the nodes that `root` reaches hand their gradients
/// back, in the reverse of their topological order.
pub open spec fn backward_pass<T: Scalar>(graph: Seq<Node<T>>, root: Value) -> Seq<Node<T>> {
    let order = topological_order(graph, root);
    sweep(
        graph.update(root@, graph[root@].with_gradient(T::one_spec())),
        order,
        order.len() as int,
    )
}

/// The gradient that `target` ends with when it starts with `acc` and the
/// first `upto` nodes of `order`, the last of them first, hand back the
/// gradients that they have in `graph`.
pub open spec fn inflow<T: Scalar>(
    graph: Seq<Node<T>>,
    order: Seq<Value>,
    upto: int,
    target: Value,
    acc: T,
) -> T
    decreases upto,
{
    if upto <= 0 {
        acc
    } else {
        inflow(graph, order, upto - 1, target, received(graph, order[upto - 1], target, acc))
    }
}

/// Two graphs differ in gradients at most.
pub open spec fn same_shape<T: Scalar>(a: Seq<Node<T>>, b: Seq<Node<T>>) -> bool {
    &&& a.len() == b.len()
    &&& forall|i: int|
        #![trigger a[i]]
        #![trigger b[i]]
        0 <= i < a.len() ==> b[i] == a[i].with_gradient(b[i].gradient)
}

/// A walk depends on the shape of the graph alone.
pub proof fn lemma_same_shape_visit<T: Scalar>(
    a: Seq<Node<T>>,
    b: Seq<Node<T>>,
    node: Value,
    seen: Set<Value>,
)
    requires
        same_shape(a, b),
        well_formed(a),
        node@ < a.len(),
    ensures
        visit(a, node, seen) == visit(b, node, seen),
    decreases node@,
{
    assert(well_formed_at(a, node@));
    assert(b[node@] == a[node@].with_gradient(b[node@].gradient));
    if !seen.contains(node) && has_operands(a, node) {
        let left = a[node@].ancestors[0];
        let right = a[node@].ancestors[1];
        lemma_same_shape_visit(a, b, left, seen.insert(node));
        lemma_same_shape_visit(a, b, right, visit(a, left, seen.insert(node)).1);
    }
}

/// Gradients do not matter to well-formedness.
pub proof fn lemma_same_shape_well_formed<T: Scalar>(a: Seq<Node<T>>, b: Seq<Node<T>>)
    requires
        same_shape(a, b),
        well_formed(a),
    ensures
        well_formed(b),
{
    assert forall|at: int| 0 <= at < b.len() implies well_formed_at(b, at) by {
        assert(well_formed_at(a, at));
        assert(b[at] == a[at].with_gradient(b[at].gradient));
    }
}

/// Handing gradients back changes gradients only.
pub proof fn lemma_sweep_same_shape<T: Scalar>(graph: Seq<Node<T>>, order: Seq<Value>, upto: int)
    ensures
        same_shape(graph, sweep(graph, order, upto)),
    decreases upto,
{
    if upto > 0 {
        let next = backward_step(graph, order[upto - 1]);
        lemma_sweep_same_shape(next, order, upto - 1);
        let last = sweep(next, order, upto - 1);
        assert forall|i: int| 0 <= i < graph.len() implies last[i] == graph[i].with_gradient(
            last[i].gradient,
        ) by {
            assert(last[i] == next[i].with_gradient(last[i].gradient));
        }
    }
}

/// A node that none of the first `upto` nodes of `order` uses keeps its
/// gradient while they hand theirs back.
pub proof fn lemma_sweep_keeps<T: Scalar>(
    graph: Seq<Node<T>>,
    order: Seq<Value>,
    upto: int,
    target: Value,
)
    requires
        upto <= order.len(),
        target@ < graph.len(),
        forall|j: int| 0 <= j < upto ==> (#[trigger] order[j])@ < graph.len(),
        forall|j: int| 0 <= j < upto ==> !uses(graph, #[trigger] order[j], target),
    ensures
        sweep(graph, order, upto).len() == graph.len(),
        sweep(graph, order, upto)[target@] == graph[target@],
    decreases upto,
{
    lemma_sweep_same_shape(graph, order, upto);
    if upto > 0 {
        let node = order[upto - 1];
        let next = backward_step(graph, node);
        assert(!uses(graph, node, target));
        assert(handle(target@) == target);
        assert(next[target@] == graph[target@]);
        assert forall|j: int| 0 <= j < upto - 1 implies !uses(next, #[trigger] order[j], target) by {
            assert(!uses(graph, order[j], target));
            assert(order[j]@ < graph.len());
            assert(next[order[j]@].ancestors == graph[order[j]@].ancestors);
        }
        lemma_sweep_keeps(next, order, upto - 1, target);
    }
}

/// In a topological order no node uses a node that stands after it.
pub proof fn lemma_later_nodes_unused<T>(
    graph: Seq<Node<T>>,
    order: Seq<Value>,
    early: int,
    late: int,
)
    requires
        topological(graph, order),
        0 <= early <= late < order.len(),
        forall|at: int| 0 <= at < graph.len() ==> graph[at].ancestors.len() <= 2,
        (order[early])@ < graph.len(),
    ensures
        !uses(graph, order[early], order[late]),
{
    if uses(graph, order[early], order[late]) {
        let k = if graph[order[early]@].ancestors[0] == order[late] {
            0int
        } else {
            1int
        };
        let operand = graph[order[early]@].ancestors[k];
        assert(precedes(order, operand, early));
        let j = choose|j: int| 0 <= j < early && j < order.len() && order[j] == operand;
        assert(order[j] == order[late]);
    }
}

/// Every node of `order` is a node of `graph`.
pub open spec fn within<T>(graph: Seq<Node<T>>, order: Seq<Value>) -> bool {
    forall|j: int| 0 <= j < order.len() ==> (#[trigger] order[j])@ < graph.len()
}

proof fn lemma_received_same<T: Scalar>(
    a: Seq<Node<T>>,
    b: Seq<Node<T>>,
    node: Value,
    target: Value,
    acc: T,
)
    requires
        same_shape(a, b),
        well_formed(a),
        node@ < a.len(),
        a[node@].gradient == b[node@].gradient,
    ensures
        received(a, node, target, acc) == received(b, node, target, acc),
        uses(a, node, target) == uses(b, node, target),
{
    assert(well_formed_at(a, node@));
    assert(b[node@] == a[node@].with_gradient(b[node@].gradient));
    if has_operands(a, node) {
        let left = a[node@].ancestors[0];
        let right = a[node@].ancestors[1];
        assert(b[left@] == a[left@].with_gradient(b[left@].gradient));
        assert(b[right@] == a[right@].with_gradient(b[right@].gradient));
    }
}

proof fn lemma_sweep_inflow<T: Scalar>(
    shape: Seq<Node<T>>,
    graph: Seq<Node<T>>,
    order: Seq<Value>,
    upto: int,
    target: Value,
)
    requires
        well_formed(shape),
        same_shape(shape, graph),
        topological(shape, order),
        within(shape, order),
        upto <= order.len(),
        target@ < graph.len(),
    ensures
        sweep(graph, order, upto)[target@].gradient == inflow(
            sweep(graph, order, upto),
            order,
            upto,
            target,
            graph[target@].gradient,
        ),
    decreases upto,
{
    if upto > 0 {
        let node = order[upto - 1];
        let next = backward_step(graph, node);
        let last = sweep(next, order, upto - 1);
        assert(node@ < shape.len());
        assert(well_formed_at(shape, node@));
        lemma_same_shape_well_formed(shape, graph);
        lemma_same_shape_well_formed(graph, next);
        lemma_sweep_same_shape(next, order, upto - 1);
        assert(same_shape(shape, next)) by {
            assert forall|i: int| 0 <= i < shape.len() implies next[i] == shape[i].with_gradient(
                next[i].gradient,
            ) by {
                assert(graph[i] == shape[i].with_gradient(graph[i].gradient));
            }
        }
        lemma_sweep_inflow(shape, next, order, upto - 1, target);
        // The node's own gradient is final when it hands it back.
        assert(last[node@] == next[node@]) by {
            assert forall|j: int| 0 <= j < upto - 1 implies !uses(
                next,
                #[trigger] order[j],
                node,
            ) by {
                assert forall|at: int| 0 <= at < shape.len() implies shape[at].ancestors.len()
                    <= 2 by {
                    assert(well_formed_at(shape, at));
                }
                lemma_later_nodes_unused(shape, order, j, upto - 1);
                assert(next[order[j]@] == shape[order[j]@].with_gradient(
                    next[order[j]@].gradient,
                ));
            }
            lemma_sweep_keeps(next, order, upto - 1, node);
        }
        assert(graph[node@] == shape[node@].with_gradient(graph[node@].gradient));
        assert(handle(node@) == node);
        assert(next[node@].gradient == graph[node@].gradient);
        assert(same_shape(graph, last)) by {
            assert forall|i: int| 0 <= i < graph.len() implies last[i] == graph[i].with_gradient(
                last[i].gradient,
            ) by {
                assert(last[i] == next[i].with_gradient(last[i].gradient));
            }
        }
        lemma_received_same(graph, last, node, target, graph[target@].gradient);
        assert(handle(target@) == target);
        assert(next[target@].gradient == received(graph, node, target, graph[target@].gradient));
    }
}

/// Additive accumulation. After a backward pass from `root`, the gradient
/// of a node is what it was before the pass (one, for `root` itself) with
/// the flow of every use of the node added to it, one use after another in
/// the order in which the pass takes the users; and each user hands back
/// the gradient that it has at the end of the pass, so it had received all
/// of its own before it passed anything on. A node that several nodes use
/// thus ends with the contributions of all of them, not with the last one.
pub proof fn lemma_gradients_accumulate<T: Scalar>(
    graph: Seq<Node<T>>,
    root: Value,
    target: Value,
)
    requires
        well_formed(graph),
        root@ < graph.len(),
        target@ < graph.len(),
    ensures
        ({
            let after = backward_pass(graph, root);
            let order = topological_order(graph, root);
            let start = if target == root {
                T::one_spec()
            } else {
                graph[target@].gradient
            };
            after[target@].gradient == inflow(after, order, order.len() as int, target, start)
        }),
{
    let order = topological_order(graph, root);
    let seeded = graph.update(root@, graph[root@].with_gradient(T::one_spec()));
    lemma_pass_setting(graph, root);
    lemma_sweep_inflow(graph, seeded, order, order.len() as int, target);
}

proof fn lemma_pass_setting<T: Scalar>(graph: Seq<Node<T>>, root: Value)
    requires
        well_formed(graph),
        root@ < graph.len(),
    ensures
        topological(graph, topological_order(graph, root)),
        within(graph, topological_order(graph, root)),
        same_shape(graph, graph.update(root@, graph[root@].with_gradient(T::one_spec()))),
        forall|x: Value|
            topological_order(graph, root).contains(x) <==> #[trigger] reaches(graph, root, x),
{
    let order = topological_order(graph, root);
    lemma_topological_order(graph, root);
    assert forall|j: int| 0 <= j < order.len() implies (#[trigger] order[j])@ < graph.len() by {
        assert(order.contains(order[j]));
        lemma_reaches_backwards(graph, root, order[j]);
    }
}

/// A backward pass changes gradients only, and only those of nodes that
/// its root reaches. The root itself ends with the gradient one.
pub proof fn lemma_backward_pass_frame<T: Scalar>(graph: Seq<Node<T>>, root: Value)
    requires
        well_formed(graph),
        root@ < graph.len(),
    ensures
        same_shape(graph, backward_pass(graph, root)),
        well_formed(backward_pass(graph, root)),
        backward_pass(graph, root)[root@].gradient == T::one_spec(),
        forall|x: Value|
            x@ < graph.len() && !(#[trigger] reaches(graph, root, x)) ==> backward_pass(
                graph,
                root,
            )[x@] == graph[x@],
{
    let order = topological_order(graph, root);
    let seeded = graph.update(root@, graph[root@].with_gradient(T::one_spec()));
    let after = backward_pass(graph, root);
    lemma_pass_setting(graph, root);
    lemma_sweep_same_shape(seeded, order, order.len() as int);
    assert(same_shape(seeded, after));
    assert(same_shape(graph, after)) by {
        assert forall|i: int| 0 <= i < graph.len() implies after[i] == graph[i].with_gradient(
            after[i].gradient,
        ) by {
            assert(after[i] == seeded[i].with_gradient(after[i].gradient));
        }
    }
    lemma_same_shape_well_formed(graph, after);
    assert forall|x: Value|
        x@ < graph.len() && (x == root || !reaches(graph, root, x)) implies #[trigger] after[x@]
        == seeded[x@] by {
        assert forall|j: int| 0 <= j < order.len() implies !uses(
            seeded,
            #[trigger] order[j],
            x,
        ) by {
            let user = order[j];
            assert(order.contains(user));
            assert(reaches(graph, root, user));
            assert(seeded[user@] == graph[user@].with_gradient(seeded[user@].gradient));
            if uses(seeded, user, x) {
                assert(well_formed_at(graph, user@));
                lemma_reaches_backwards(graph, root, user);
                assert(reaches(graph, user, x));
                lemma_reaches_transitive(graph, root, user, x);
            }
        }
        lemma_sweep_keeps(seeded, order, order.len() as int, x);
    }
    assert(after[root@] == seeded[root@]);
}

proof fn lemma_inflow_skips<T: Scalar>(
    graph: Seq<Node<T>>,
    order: Seq<Value>,
    from: int,
    upto: int,
    target: Value,
    acc: T,
)
    requires
        0 <= from <= upto <= order.len(),
        forall|j: int| from <= j < upto ==> !uses(graph, #[trigger] order[j], target),
    ensures
        inflow(graph, order, upto, target, acc) == inflow(graph, order, from, target, acc),
    decreases upto - from,
{
    if from < upto {
        assert(!uses(graph, order[upto - 1], target));
        lemma_inflow_skips(graph, order, from, upto - 1, target, acc);
    }
}

/// A node with two users gets the contributions of both. Let the backward
/// pass from `root` take the user at position `first` of its order before
/// the one at position `second`, and let no other node of the order use
/// `target`. Then `target` ends with its gradient from before the pass,
/// the flow from the first user added to that, and the flow from the
/// second user added to the sum.
pub proof fn lemma_two_users_both_count<T: Scalar>(
    graph: Seq<Node<T>>,
    root: Value,
    target: Value,
    first: int,
    second: int,
)
    requires
        well_formed(graph),
        root@ < graph.len(),
        target@ < graph.len(),
        target != root,
        0 <= second < first < topological_order(graph, root).len(),
        forall|j: int|
            0 <= j < topological_order(graph, root).len() && j != first && j != second ==> !uses(
                graph,
                #[trigger] topological_order(graph, root)[j],
                target,
            ),
    ensures
        ({
            let after = backward_pass(graph, root);
            let order = topological_order(graph, root);
            after[target@].gradient == received(
                after,
                order[second],
                target,
                received(after, order[first], target, graph[target@].gradient),
            )
        }),
{
    let after = backward_pass(graph, root);
    let order = topological_order(graph, root);
    let start = graph[target@].gradient;
    lemma_gradients_accumulate(graph, root, target);
    lemma_backward_pass_frame(graph, root);
    lemma_pass_setting(graph, root);
    assert forall|j: int| 0 <= j < order.len() && j != first && j != second implies !uses(
        after,
        #[trigger] order[j],
        target,
    ) by {
        assert(!uses(graph, order[j], target));
        assert(after[order[j]@] == graph[order[j]@].with_gradient(after[order[j]@].gradient));
    }
    let one = received(after, order[first], target, start);
    let two = received(after, order[second], target, one);
    lemma_inflow_skips(after, order, first + 1, order.len() as int, target, start);
    assert(inflow(after, order, first + 1, target, start) == inflow(
        after,
        order,
        first,
        target,
        one,
    ));
    lemma_inflow_skips(after, order, second + 1, first, target, one);
    assert(inflow(after, order, second + 1, target, one) == inflow(
        after,
        order,
        second,
        target,
        two,
    ));
    lemma_inflow_skips(after, order, 0, second, target, two);
}

/// Clearing a node removes paths from the graph and adds none.
pub proof fn lemma_clearing_removes_paths<T: Scalar>(
    graph: Seq<Node<T>>,
    node: Value,
    from: Value,
    to: Value,
)
    requires
        node@ < graph.len(),
        from@ < graph.len(),
        reaches(graph.update(node@, graph[node@].cleared()), from, to),
    ensures
        reaches(graph, from, to),
    decreases from@,
{
    let cleared = graph.update(node@, graph[node@].cleared());
    if from != to {
        assert(from != node);
        assert(cleared[from@] == graph[from@]);
        if reaches(cleared, cleared[from@].ancestors[0], to) {
            lemma_clearing_removes_paths(graph, node, graph[from@].ancestors[0], to);
        } else {
            lemma_clearing_removes_paths(graph, node, graph[from@].ancestors[1], to);
        }
    }
}

/// Clearing is idempotent and detaches. Clearing a node twice gives what
/// clearing it once gives. The cleared node is a leaf of a well-formed
/// graph: it reaches no node but itself, a walk from it holds it alone,
/// and when it hands its gradient back no gradient changes.
pub proof fn lemma_clearing_detaches<T: Scalar>(graph: Seq<Node<T>>, node: Value)
    requires
        well_formed(graph),
        node@ < graph.len(),
    ensures
        ({
            let cleared = graph.update(node@, graph[node@].cleared());
            &&& well_formed(cleared)
            &&& cleared.update(node@, cleared[node@].cleared()) == cleared
            &&& forall|x: Value| #[trigger] reaches(cleared, node, x) ==> x == node
            &&& topological_order(cleared, node) == seq![node]
            &&& backward_step(cleared, node) == cleared
        }),
{
    let cleared = graph.update(node@, graph[node@].cleared());
    assert forall|at: int| 0 <= at < cleared.len() implies well_formed_at(cleared, at) by {
        assert(well_formed_at(graph, at));
    }
    assert(cleared.update(node@, cleared[node@].cleared()) =~= cleared);
    assert(backward_step(cleared, node) =~= cleared);
}

/// A backward pass after a clearing does not go through the removed
/// edges. Let `node` be cleared and a pass run from `root` then. A node
/// that `root` does not reach in the cleared graph, such as a former
/// operand of `node` to which no other path leads, is left exactly as it
/// was; and whatever the pass does reach, `root` reached before the
/// clearing too.
pub proof fn lemma_pass_after_clearing<T: Scalar>(
    graph: Seq<Node<T>>,
    node: Value,
    root: Value,
    x: Value,
)
    requires
        well_formed(graph),
        node@ < graph.len(),
        root@ < graph.len(),
        x@ < graph.len(),
    ensures
        ({
            let cleared = graph.update(node@, graph[node@].cleared());
            &&& reaches(cleared, root, x) ==> reaches(graph, root, x)
            &&& !reaches(cleared, root, x) ==> backward_pass(cleared, root)[x@] == cleared[x@]
        }),
{
    let cleared = graph.update(node@, graph[node@].cleared());
    lemma_clearing_detaches(graph, node);
    lemma_backward_pass_frame(cleared, root);
    if reaches(cleared, root, x) {
        lemma_clearing_removes_paths(graph, node, root, x);
    }
}

impl Value {
    /// Hands the node's gradient back to its operands by the local rule of
    /// its operation (see [`flow`]): first to the left operand, then to the
    /// right one. On a leaf nothing happens. Nothing is read or changed
    /// but the gradients of the two operands.
    pub fn backward<T: Scalar>(&self, graph: &mut Graph<T>)
        requires
            old(graph).wf(),
            old(graph).holds(*self),
        ensures
            final(graph).wf(),
            final(graph)@ == backward_step(old(graph)@, *self),
    {
        let inner = graph.node(self);
        let operation = inner.operation;
        let gradient = inner.gradient;
        proof {
            assert(well_formed_at(graph@, self@));
        }
        if inner.ancestors.len() == 2 {
            let left = inner.ancestors[0];
            let right = inner.ancestors[1];
            let left_data = left.get_data(graph);
            let right_data = right.get_data(graph);
            match operation {
                ValueOp::Addition => {
                    left.accumulate_gradient(graph, T::one().mul(gradient));
                    right.accumulate_gradient(graph, T::one().mul(gradient));
                },
                ValueOp::Subtraction => {
                    left.accumulate_gradient(graph, T::one().mul(gradient));
                    let rest = right.get_gradient(graph).sub(T::one().mul(gradient));
                    right.set_gradient(graph, rest);
                },
                ValueOp::Multiplication => {
                    left.accumulate_gradient(graph, right_data.mul(gradient));
                    right.accumulate_gradient(graph, left_data.mul(gradient));
                },
                ValueOp::Division => {
                    left.accumulate_gradient(graph, T::one().div(right_data).mul(gradient));
                    let square = right_data.mul(right_data);
                    let rest = right.get_gradient(graph).sub(
                        left_data.div(square).mul(gradient),
                    );
                    right.set_gradient(graph, rest);
                },
                ValueOp::Leaf => {},
            }
            proof {
                assert(handle(left@) == left);
                assert(handle(right@) == right);
            }
        }
        proof {
            let before = old(graph)@;
            old(graph).lemma_len_fits();
            assert forall|i: int| 0 <= i < before.len() implies graph@[i] == before[i].with_gradient(
                received(before, *self, handle(i), before[i].gradient),
            ) by {
                assert(handle(i)@ == i);
            }
            assert(graph@ =~= backward_step(before, *self));
        }
    }

    /// The backward pass from this node: sets the node's gradient to one,
    /// orders the nodes that it reaches topologically and lets them hand
    /// their gradients back, the last of the order first. Gradients that
    /// were there before the pass are added to, not replaced (but for the
    /// node's own).
    pub fn run_grad<T: Scalar>(&self, graph: &mut Graph<T>)
        requires
            old(graph).wf(),
            old(graph).holds(*self),
        ensures
            final(graph).wf(),
            final(graph)@ == backward_pass(old(graph)@, *self),
            same_shape(old(graph)@, final(graph)@),
            final(graph)@[self@].gradient == T::one_spec(),
            forall|x: Value|
                old(graph).holds(x) && !(#[trigger] reaches(old(graph)@, *self, x))
                    ==> final(graph)@[x@] == old(graph)@[x@],
            forall|target: Value|
                old(graph).holds(target) ==> (#[trigger] final(graph)@[target@]).gradient
                    == inflow(
                    final(graph)@,
                    topological_order(old(graph)@, *self),
                    topological_order(old(graph)@, *self).len() as int,
                    target,
                    if target == *self {
                        T::one_spec()
                    } else {
                        old(graph)@[target@].gradient
                    },
                ),
    {
        proof {
            lemma_backward_pass_frame(old(graph)@, *self);
            assert forall|target: Value| old(graph).holds(target) implies (#[trigger] backward_pass(
                old(graph)@,
                *self,
            )[target@]).gradient == inflow(
                backward_pass(old(graph)@, *self),
                topological_order(old(graph)@, *self),
                topological_order(old(graph)@, *self).len() as int,
                target,
                if target == *self {
                    T::one_spec()
                } else {
                    old(graph)@[target@].gradient
                },
            ) by {
                lemma_gradients_accumulate(old(graph)@, *self, target);
            }
        }
        // The derivative of the node with respect to itself.
        self.set_gradient(graph, T::one());
        let topological_graph = build_topological_graph(graph, self);
        let ghost seeded = graph@;
        let ghost order = topological_graph@;
        proof {
            lemma_same_shape_visit(old(graph)@, seeded, *self, Set::empty());
        }
        let mut remaining: usize = topological_graph.len();
        while remaining > 0
            invariant
                remaining <= topological_graph.len(),
                order == topological_graph@,
                graph.wf(),
                graph@.len() == seeded.len(),
                forall|i: int| 0 <= i < order.len() ==> (#[trigger] order[i])@ < seeded.len(),
                sweep(graph@, order, remaining as int) == sweep(seeded, order, order.len() as int),
            decreases remaining,
        {
            remaining = remaining - 1;
            let node = topological_graph[remaining];
            node.backward(graph);
        }
    }
}

} // verus!
