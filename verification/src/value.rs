use vstd::prelude::*;
use vstd::string::StringExecFns;
use crate::scalar::Scalar;
use crate::text::{decimal, push_decimal};

pub use crate::topology::build_topological_graph;

verus! {

/// The arithmetic operation that produced a node.
#[derive(Debug, Clone, Copy, PartialEq, Eq, Structural)]
pub enum ValueOp {
    Addition,
    Subtraction,
    Multiplication,
    Division,
    /// No operation: the node is a constant or an input.
    Leaf,
}

impl ValueOp {
    /// The symbol of the operation as a sequence of characters.
    pub open spec fn symbol(self) -> Seq<char> {
        match self {
            ValueOp::Addition => "+"@,
            ValueOp::Subtraction => "-"@,
            ValueOp::Multiplication => "*"@,
            ValueOp::Division => "/"@,
            ValueOp::Leaf => "none"@,
        }
    }

    /// The forward result of the operation on a left and a right operand.
    /// A leaf has no operands; on it this is the left argument.
    pub open spec fn apply<T: Scalar>(self, left: T, right: T) -> T {
        match self {
            ValueOp::Addition => left.add_spec(right),
            ValueOp::Subtraction => left.sub_spec(right),
            ValueOp::Multiplication => left.mul_spec(right),
            ValueOp::Division => left.div_spec(right),
            ValueOp::Leaf => left,
        }
    }

    pub fn to_str(&self) -> (s: &'static str)
        ensures
            s@ == self.symbol(),
    {
        match self {
            ValueOp::Addition => "+",
            ValueOp::Subtraction => "-",
            ValueOp::Multiplication => "*",
            ValueOp::Division => "/",
            ValueOp::Leaf => "none",
        }
    }
}

/// A handle to one node of a [`Graph`]: the position at which the graph
/// holds the node. The position is the node's identity. It is given once,
/// when the node is made, never changes and is shared with no other node
/// of that graph, whatever numbers or names the nodes carry.
#[derive(Debug, Clone, Copy, PartialEq, Eq, Structural)]
pub struct Value {
    pub index: usize,
}

impl View for Value {
    type V = int;

    open spec fn view(&self) -> int {
        self.index as int
    }
}

/// The handle of the node at `position`.
pub open spec fn handle(position: int) -> Value {
    Value { index: position as usize }
}

/// What a graph stores for one node.
#[derive(Debug)]
pub struct InnerValue<T> {
    /// The number the node stands for.
    pub data: T,
    /// The operands the node was computed from, left before right. Empty
    /// for a leaf.
    pub ancestors: Vec<Value>,
    /// The derivative accumulated so far by backward passes.
    pub gradient: T,
    pub operation: ValueOp,
    /// A name for display. Names need not differ between nodes.
    pub id: String,
}

/// The mathematical content of an [`InnerValue`].
pub struct Node<T> {
    pub data: T,
    pub ancestors: Seq<Value>,
    pub gradient: T,
    pub operation: ValueOp,
    pub id: Seq<char>,
}

impl<T> View for InnerValue<T> {
    type V = Node<T>;

    open spec fn view(&self) -> Node<T> {
        Node {
            data: self.data,
            ancestors: self.ancestors@,
            gradient: self.gradient,
            operation: self.operation,
            id: self.id@,
        }
    }
}

impl<T: Copy> Clone for InnerValue<T> {
    fn clone(&self) -> (copy: Self)
        ensures
            copy@ == self@,
    {
        InnerValue {
            data: self.data,
            ancestors: self.ancestors.clone(),
            gradient: self.gradient,
            operation: self.operation,
            id: self.id.clone(),
        }
    }
}

/// The name a node gets when none is chosen for it: `valueid_` and the
/// node's position in decimal.
pub open spec fn default_id(position: nat) -> Seq<char> {
    "valueid_"@ + decimal(position)
}

impl<T: Scalar> Node<T> {
    /// A node without operands and with nothing accumulated.
    pub open spec fn leaf(data: T, id: Seq<char>) -> Node<T> {
        Node {
            data,
            ancestors: Seq::empty(),
            gradient: T::zero_spec(),
            operation: ValueOp::Leaf,
            id,
        }
    }

    /// The node that `operation` gives on `left` and `right`, two nodes of
    /// `graph`, when it is added to `graph`.
    pub open spec fn derived(
        graph: Seq<Node<T>>,
        operation: ValueOp,
        left: Value,
        right: Value,
    ) -> Node<T> {
        Node {
            data: operation.apply(graph[left@].data, graph[right@].data),
            ancestors: seq![left, right],
            gradient: T::zero_spec(),
            operation,
            id: default_id(graph.len()),
        }
    }

    /// The same node with another gradient.
    pub open spec fn with_gradient(self, gradient: T) -> Node<T> {
        Node { gradient, ..self }
    }

    /// The same node, back to a leaf: nothing accumulated, no operands.
    pub open spec fn cleared(self) -> Node<T> {
        Node {
            ancestors: Seq::empty(),
            gradient: T::zero_spec(),
            operation: ValueOp::Leaf,
            ..self
        }
    }
}

/// Node `at` of `graph` is either a leaf without operands or the result of
/// a binary operation on two nodes that stand before it.
pub open spec fn well_formed_at<T>(graph: Seq<Node<T>>, at: int) -> bool {
    let node = graph[at];
    if node.operation == ValueOp::Leaf {
        node.ancestors.len() == 0
    } else {
        &&& node.ancestors.len() == 2
        &&& node.ancestors[0]@ < at
        &&& node.ancestors[1]@ < at
    }
}

/// Every node of `graph` is well formed. As operands stand before the nodes
/// that use them, such a graph has no cycle.
pub open spec fn well_formed<T>(graph: Seq<Node<T>>) -> bool {
    forall|at: int| 0 <= at < graph.len() ==> well_formed_at(graph, at)
}

/// A computation graph: the owner of all its nodes. Nodes are only ever
/// added at the end, so a handle stays good for the graph that made it.
pub struct Graph<T> {
    nodes: Vec<InnerValue<T>>,
}

impl<T> View for Graph<T> {
    type V = Seq<Node<T>>;

    closed spec fn view(&self) -> Seq<Node<T>> {
        Seq::new(self.nodes@.len(), |i: int| self.nodes@[i]@)
    }
}

impl<T: Scalar> Graph<T> {
    /// The invariant of a graph.
    pub open spec fn wf(&self) -> bool {
        well_formed(self@)
    }

    /// `value` is a handle to a node of this graph.
    pub open spec fn holds(&self, value: Value) -> bool {
        value@ < self@.len()
    }

    /// A graph has no more nodes than a handle can name.
    pub proof fn lemma_len_fits(&self)
        ensures
            self@.len() <= usize::MAX,
    {
        assert(self.nodes.len() == self.nodes@.len());
    }

    /// A graph without nodes.
    pub fn new() -> (graph: Graph<T>)
        ensures
            graph.wf(),
            graph@ == Seq::<Node<T>>::empty(),
    {
        let graph = Graph { nodes: Vec::new() };
        assert(graph@ =~= Seq::<Node<T>>::empty());
        graph
    }

    /// The number of nodes.
    pub fn len(&self) -> (n: usize)
        ensures
            n == self@.len(),
    {
        self.nodes.len()
    }

    /// Whether `value` is a handle to a node of this graph.
    pub fn contains(&self, value: &Value) -> (found: bool)
        ensures
            found == self.holds(*value),
    {
        value.index < self.nodes.len()
    }

    /// What the graph stores for `value`.
    pub fn node(&self, value: &Value) -> (inner: &InnerValue<T>)
        requires
            self.holds(*value),
        ensures
            inner@ == self@[value@],
    {
        &self.nodes[value.index]
    }

    fn push_node(&mut self, inner: InnerValue<T>) -> (value: Value)
        ensures
            value@ == old(self)@.len(),
            final(self)@ == old(self)@.push(inner@),
    {
        let index = self.nodes.len();
        self.nodes.push(inner);
        assert(self@ =~= old(self)@.push(inner@));
        Value { index }
    }

    fn binary(&mut self, operation: ValueOp, left: &Value, right: &Value) -> (value: Value)
        requires
            old(self).wf(),
            old(self).holds(*left),
            old(self).holds(*right),
            operation != ValueOp::Leaf,
        ensures
            final(self).wf(),
            value@ == old(self)@.len(),
            final(self)@ == old(self)@.push(Node::derived(old(self)@, operation, *left, *right)),
    {
        let a = self.nodes[left.index].data;
        let b = self.nodes[right.index].data;
        let data = match operation {
            ValueOp::Addition => a.add(b),
            ValueOp::Subtraction => a.sub(b),
            ValueOp::Multiplication => a.mul(b),
            _ => a.div(b),
        };
        let mut ancestors: Vec<Value> = Vec::new();
        ancestors.push(*left);
        ancestors.push(*right);
        assert(ancestors@ =~= seq![*left, *right]);
        let mut id = String::from_str("valueid_");
        push_decimal(&mut id, self.nodes.len());
        let inner = InnerValue { data, ancestors, gradient: T::zero(), operation, id };
        let value = self.push_node(inner);
        proof {
            let last = old(self)@.len() as int;
            assert forall|at: int| 0 <= at < self@.len() implies well_formed_at(self@, at) by {
                if at < last {
                    assert(well_formed_at(old(self)@, at));
                }
            }
        }
        value
    }
}

impl Value {
    /// Adds a leaf that holds `data` to `graph`. Its gradient is zero and
    /// its name is the default one.
    pub fn new<T: Scalar>(graph: &mut Graph<T>, data: T) -> (value: Value)
        requires
            old(graph).wf(),
        ensures
            final(graph).wf(),
            value@ == old(graph)@.len(),
            final(graph)@ == old(graph)@.push(
                Node::leaf(data, default_id(old(graph)@.len())),
            ),
    {
        let mut id = String::from_str("valueid_");
        push_decimal(&mut id, graph.len());
        Value::named(graph, data, id)
    }

    /// As [`Value::new`], with the number behind a reference.
    pub fn new_from_ref<T: Scalar>(graph: &mut Graph<T>, data: &T) -> (value: Value)
        requires
            old(graph).wf(),
        ensures
            final(graph).wf(),
            value@ == old(graph)@.len(),
            final(graph)@ == old(graph)@.push(
                Node::leaf(*data, default_id(old(graph)@.len())),
            ),
    {
        Value::new(graph, *data)
    }

    /// Adds a leaf that holds `data` and is named `id` to `graph`.
    pub fn new_with_id<T: Scalar>(graph: &mut Graph<T>, data: T, id: &str) -> (value: Value)
        requires
            old(graph).wf(),
        ensures
            final(graph).wf(),
            value@ == old(graph)@.len(),
            final(graph)@ == old(graph)@.push(Node::leaf(data, id@)),
    {
        Value::named(graph, data, String::from_str(id))
    }

    fn named<T: Scalar>(graph: &mut Graph<T>, data: T, id: String) -> (value: Value)
        requires
            old(graph).wf(),
        ensures
            final(graph).wf(),
            value@ == old(graph)@.len(),
            final(graph)@ == old(graph)@.push(Node::leaf(data, id@)),
    {
        let inner = InnerValue {
            data,
            ancestors: Vec::new(),
            gradient: T::zero(),
            operation: ValueOp::Leaf,
            id,
        };
        assert(inner@ =~= Node::leaf(data, id@));
        let value = graph.push_node(inner);
        proof {
            let last = old(graph)@.len() as int;
            assert forall|at: int| 0 <= at < graph@.len() implies well_formed_at(graph@, at) by {
                if at < last {
                    assert(well_formed_at(old(graph)@, at));
                }
            }
        }
        value
    }

    /// The number the node stands for.
    pub fn get_data<T: Scalar>(&self, graph: &Graph<T>) -> (data: T)
        requires
            graph.holds(*self),
        ensures
            data == graph@[self@].data,
    {
        graph.nodes[self.index].data
    }

    /// The gradient accumulated at the node so far.
    pub fn get_gradient<T: Scalar>(&self, graph: &Graph<T>) -> (gradient: T)
        requires
            graph.holds(*self),
        ensures
            gradient == graph@[self@].gradient,
    {
        graph.nodes[self.index].gradient
    }

    /// The operation that produced the node.
    pub fn get_operation<T: Scalar>(&self, graph: &Graph<T>) -> (operation: ValueOp)
        requires
            graph.holds(*self),
        ensures
            operation == graph@[self@].operation,
    {
        graph.nodes[self.index].operation
    }

    /// The node's name.
    pub fn get_id<T: Scalar>(&self, graph: &Graph<T>) -> (id: String)
        requires
            graph.holds(*self),
        ensures
            id@ == graph@[self@].id,
    {
        graph.nodes[self.index].id.clone()
    }

    /// Gives the node another name. Nothing else changes.
    pub fn set_id<T: Scalar>(&self, graph: &mut Graph<T>, id: &str)
        requires
            old(graph).holds(*self),
        ensures
            final(graph)@ == old(graph)@.update(
                self@,
                (Node { id: id@, ..old(graph)@[self@] }),
            ),
            old(graph).wf() ==> final(graph).wf(),
    {
        graph.nodes[self.index].id = String::from_str(id);
        proof {
            assert(graph@ =~= old(graph)@.update(
                self@,
                (Node { id: id@, ..old(graph)@[self@] }),
            ));
            if old(graph).wf() {
                assert forall|at: int| 0 <= at < graph@.len() implies well_formed_at(
                    graph@,
                    at,
                ) by {
                    assert(well_formed_at(old(graph)@, at));
                }
            }
        }
    }

    /// Overwrites the node's gradient with `gradient`. Nothing else
    /// changes.
    pub fn set_gradient<T: Scalar>(&self, graph: &mut Graph<T>, gradient: T)
        requires
            old(graph).holds(*self),
        ensures
            final(graph)@ == old(graph)@.update(
                self@,
                old(graph)@[self@].with_gradient(gradient),
            ),
            old(graph).wf() ==> final(graph).wf(),
    {
        graph.nodes[self.index].gradient = gradient;
        proof {
            assert(graph@ =~= old(graph)@.update(
                self@,
                old(graph)@[self@].with_gradient(gradient),
            ));
            if old(graph).wf() {
                assert forall|at: int| 0 <= at < graph@.len() implies well_formed_at(
                    graph@,
                    at,
                ) by {
                    assert(well_formed_at(old(graph)@, at));
                }
            }
        }
    }

    /// Adds `delta` to the node's gradient. Nothing else changes.
    pub fn accumulate_gradient<T: Scalar>(&self, graph: &mut Graph<T>, delta: T)
        requires
            old(graph).holds(*self),
        ensures
            final(graph)@ == old(graph)@.update(
                self@,
                old(graph)@[self@].with_gradient(old(graph)@[self@].gradient.add_spec(delta)),
            ),
            old(graph).wf() ==> final(graph).wf(),
    {
        let gradient = graph.nodes[self.index].gradient.add(delta);
        self.set_gradient(graph, gradient);
    }

    /// Makes the node a leaf again: its gradient is zero, it has no
    /// operands and no operation. Its number and its name stay, and so
    /// does every other node.
    pub fn clear_gradient<T: Scalar>(&self, graph: &mut Graph<T>)
        requires
            old(graph).holds(*self),
        ensures
            final(graph)@ == old(graph)@.update(self@, old(graph)@[self@].cleared()),
            old(graph).wf() ==> final(graph).wf(),
    {
        graph.nodes[self.index].gradient = T::zero();
        graph.nodes[self.index].ancestors.clear();
        graph.nodes[self.index].operation = ValueOp::Leaf;
        proof {
            assert(graph.nodes@[self@]@ =~= old(graph)@[self@].cleared());
            assert(graph@ =~= old(graph)@.update(self@, old(graph)@[self@].cleared()));
            if old(graph).wf() {
                assert forall|at: int| 0 <= at < graph@.len() implies well_formed_at(
                    graph@,
                    at,
                ) by {
                    assert(well_formed_at(old(graph)@, at));
                }
            }
        }
    }

    /// Adds the node `self + rhs` to `graph`.
    pub fn add<T: Scalar>(&self, graph: &mut Graph<T>, rhs: &Value) -> (value: Value)
        requires
            old(graph).wf(),
            old(graph).holds(*self),
            old(graph).holds(*rhs),
        ensures
            final(graph).wf(),
            value@ == old(graph)@.len(),
            final(graph)@ == old(graph)@.push(
                Node::derived(old(graph)@, ValueOp::Addition, *self, *rhs),
            ),
    {
        graph.binary(ValueOp::Addition, self, rhs)
    }

    /// Adds the node `self - rhs` to `graph`.
    pub fn sub<T: Scalar>(&self, graph: &mut Graph<T>, rhs: &Value) -> (value: Value)
        requires
            old(graph).wf(),
            old(graph).holds(*self),
            old(graph).holds(*rhs),
        ensures
            final(graph).wf(),
            value@ == old(graph)@.len(),
            final(graph)@ == old(graph)@.push(
                Node::derived(old(graph)@, ValueOp::Subtraction, *self, *rhs),
            ),
    {
        graph.binary(ValueOp::Subtraction, self, rhs)
    }

    /// Adds the node `self * rhs` to `graph`.
    pub fn mul<T: Scalar>(&self, graph: &mut Graph<T>, rhs: &Value) -> (value: Value)
        requires
            old(graph).wf(),
            old(graph).holds(*self),
            old(graph).holds(*rhs),
        ensures
            final(graph).wf(),
            value@ == old(graph)@.len(),
            final(graph)@ == old(graph)@.push(
                Node::derived(old(graph)@, ValueOp::Multiplication, *self, *rhs),
            ),
    {
        graph.binary(ValueOp::Multiplication, self, rhs)
    }

    /// Adds the node `self / rhs` to `graph`. A zero divisor is not an
    /// error: the node holds whatever the division of the numbers gives.
    pub fn div<T: Scalar>(&self, graph: &mut Graph<T>, rhs: &Value) -> (value: Value)
        requires
            old(graph).wf(),
            old(graph).holds(*self),
            old(graph).holds(*rhs),
        ensures
            final(graph).wf(),
            value@ == old(graph)@.len(),
            final(graph)@ == old(graph)@.push(
                Node::derived(old(graph)@, ValueOp::Division, *self, *rhs),
            ),
    {
        graph.binary(ValueOp::Division, self, rhs)
    }
}

} // verus!
