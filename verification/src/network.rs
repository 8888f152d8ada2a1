use vstd::prelude::*;
use crate::scalar::Scalar;
use crate::value::{default_id, handle, Graph, Node, Value, ValueOp};

verus! {

/// Why a forward evaluation was refused.
#[derive(Debug, Clone, Copy, PartialEq, Eq, Structural)]
pub enum NetworkError {
    /// A neuron with `expected` weights was given `found` inputs.
    DimensionMismatch { expected: usize, found: usize },
}

/// Where the initial weights and biases of a network come from. Nothing is
/// asked of the numbers: a network is evaluated the same way whatever they
/// are.
pub trait Sampler<T> {
    /// The next initial weight.
    fn weight(&mut self) -> T;

    /// The next initial bias.
    fn bias(&mut self) -> T;
}

/// One neuron: a weight for each input and a bias, all of them nodes of a
/// graph.
pub struct Neuron {
    weights: Vec<Value>,
    bias: Value,
}

/// The mathematical content of a [`Neuron`].
pub struct NeuronModel {
    pub weights: Seq<Value>,
    pub bias: Value,
}

impl View for Neuron {
    type V = NeuronModel;

    closed spec fn view(&self) -> NeuronModel {
        NeuronModel { weights: self.weights@, bias: self.bias }
    }
}

/// The weights and the bias of `neuron` are nodes of `graph`.
pub open spec fn neuron_fits<T>(graph: Seq<Node<T>>, neuron: NeuronModel) -> bool {
    &&& neuron.bias@ < graph.len()
    &&& forall|i: int| 0 <= i < neuron.weights.len() ==> (#[trigger] neuron.weights[i])@ < graph.len()
}

/// The sum of the first `upto` inputs, each multiplied by its weight: the
/// products are added one after another, from the first, to zero.
pub open spec fn weighted_sum<T: Scalar>(
    graph: Seq<Node<T>>,
    weights: Seq<Value>,
    x: Seq<T>,
    upto: int,
) -> T
    decreases upto,
{
    if upto <= 0 {
        T::zero_spec()
    } else {
        weighted_sum(graph, weights, x, upto - 1).add_spec(
            graph[weights[upto - 1]@].data.mul_spec(x[upto - 1]),
        )
    }
}

/// The activation of `neuron` on the inputs `x`: the weighted sum of the
/// inputs, with the bias added, rectified.
pub open spec fn neuron_output<T: Scalar>(
    graph: Seq<Node<T>>,
    neuron: NeuronModel,
    x: Seq<T>,
) -> T {
    weighted_sum(graph, neuron.weights, x, x.len() as int).add_spec(
        graph[neuron.bias@].data,
    ).relu_spec()
}

/// The graph after a neuron has taken in the first `upto` inputs. The
/// evaluation starts with a leaf that holds zero, the running sum. Each
/// input then adds three nodes: a leaf that holds the input, the product
/// of the weight and that leaf, and the sum of the running sum and the
/// product, which is the next running sum.
pub open spec fn neuron_partial<T: Scalar>(
    graph: Seq<Node<T>>,
    neuron: NeuronModel,
    x: Seq<T>,
    upto: int,
) -> Seq<Node<T>>
    decreases upto,
{
    if upto <= 0 {
        graph.push(Node::leaf(T::zero_spec(), default_id(graph.len())))
    } else {
        let before = neuron_partial(graph, neuron, x, upto - 1);
        let running = handle(graph.len() + 3 * (upto - 1));
        let with_input = before.push(Node::leaf(x[upto - 1], default_id(before.len())));
        let with_product = with_input.push(
            Node::derived(
                with_input,
                ValueOp::Multiplication,
                neuron.weights[upto - 1],
                handle(before.len() as int),
            ),
        );
        with_product.push(
            Node::derived(
                with_product,
                ValueOp::Addition,
                running,
                handle(before.len() as int + 1),
            ),
        )
    }
}

/// The graph after a neuron has been evaluated on `x`: all inputs taken
/// in, and a last node that adds the bias to the running sum.
pub open spec fn neuron_graph<T: Scalar>(
    graph: Seq<Node<T>>,
    neuron: NeuronModel,
    x: Seq<T>,
) -> Seq<Node<T>> {
    let summed = neuron_partial(graph, neuron, x, x.len() as int);
    summed.push(
        Node::derived(
            summed,
            ValueOp::Addition,
            handle(graph.len() as int + 3 * x.len()),
            neuron.bias,
        ),
    )
}

/// `longer` starts with the nodes of `graph`, unchanged.
pub open spec fn extends<T>(graph: Seq<Node<T>>, longer: Seq<Node<T>>) -> bool {
    &&& graph.len() <= longer.len()
    &&& forall|i: int| 0 <= i < graph.len() ==> #[trigger] longer[i] == graph[i]
}

/// Leaves that hold `numbers`, as they are when they are added to a graph
/// that has `first` nodes: nothing accumulated, and the default names.
pub open spec fn leaves<T: Scalar>(numbers: Seq<T>, first: nat) -> Seq<Node<T>> {
    Seq::new(numbers.len(), |i: int| Node::leaf(numbers[i], default_id((first + i) as nat)))
}

/// `longer` is `graph` with `count` leaves added. Each of them holds some
/// number, has nothing accumulated and bears the default name.
pub open spec fn adds_leaves<T: Scalar>(
    graph: Seq<Node<T>>,
    longer: Seq<Node<T>>,
    count: int,
) -> bool {
    &&& extends(graph, longer)
    &&& longer.len() == graph.len() + count
    &&& forall|j: int|
        graph.len() <= j < longer.len() ==> #[trigger] longer[j] == Node::leaf(
            longer[j].data,
            default_id(j as nat),
        )
}

/// Taking inputs in only adds nodes: one, and three for each input. Where
/// handles can name them all, the node added last holds the weighted sum
/// of the inputs taken in.
pub proof fn lemma_neuron_partial<T: Scalar>(
    graph: Seq<Node<T>>,
    neuron: NeuronModel,
    x: Seq<T>,
    upto: int,
)
    requires
        neuron_fits(graph, neuron),
        0 <= upto <= x.len(),
        x.len() == neuron.weights.len(),
    ensures
        ({
            let after = neuron_partial(graph, neuron, x, upto);
            &&& extends(graph, after)
            &&& after.len() == graph.len() + 1 + 3 * upto
            &&& graph.len() + 3 * upto <= usize::MAX ==> after[graph.len() + 3 * upto].data
                == weighted_sum(graph, neuron.weights, x, upto)
        }),
    decreases upto,
{
    if upto > 0 {
        lemma_neuron_partial(graph, neuron, x, upto - 1);
        let before = neuron_partial(graph, neuron, x, upto - 1);
        let weight = neuron.weights[upto - 1];
        assert(weight@ < graph.len());
        assert(before[weight@] == graph[weight@]);
        if graph.len() + 3 * upto <= usize::MAX {
            assert(handle(graph.len() + 3 * (upto - 1))@ == graph.len() + 3 * (upto - 1));
            assert(handle(before.len() as int)@ == before.len());
            assert(handle(before.len() as int + 1)@ == before.len() + 1);
        }
    }
}

/// Evaluating a neuron only adds nodes to the graph: two, and three for
/// each input.
pub proof fn lemma_neuron_graph_extends<T: Scalar>(
    graph: Seq<Node<T>>,
    neuron: NeuronModel,
    x: Seq<T>,
)
    requires
        neuron_fits(graph, neuron),
        x.len() == neuron.weights.len(),
    ensures
        extends(graph, neuron_graph(graph, neuron, x)),
        neuron_graph(graph, neuron, x).len() == graph.len() + 2 + 3 * x.len(),
{
    lemma_neuron_partial(graph, neuron, x, x.len() as int);
}

/// What a neuron gives depends on the numbers of its weights and of its
/// bias alone, so nodes added to the graph later do not change it.
pub proof fn lemma_neuron_output_extends<T: Scalar>(
    graph: Seq<Node<T>>,
    longer: Seq<Node<T>>,
    neuron: NeuronModel,
    x: Seq<T>,
)
    requires
        neuron_fits(graph, neuron),
        extends(graph, longer),
        x.len() == neuron.weights.len(),
    ensures
        neuron_output(longer, neuron, x) == neuron_output(graph, neuron, x),
{
    lemma_weighted_sum_extends(graph, longer, neuron.weights, x, x.len() as int);
    assert(longer[neuron.bias@] == graph[neuron.bias@]);
}

proof fn lemma_weighted_sum_extends<T: Scalar>(
    graph: Seq<Node<T>>,
    longer: Seq<Node<T>>,
    weights: Seq<Value>,
    x: Seq<T>,
    upto: int,
)
    requires
        extends(graph, longer),
        upto <= weights.len(),
        forall|i: int| 0 <= i < weights.len() ==> (#[trigger] weights[i])@ < graph.len(),
    ensures
        weighted_sum(longer, weights, x, upto) == weighted_sum(graph, weights, x, upto),
    decreases upto,
{
    if upto > 0 {
        lemma_weighted_sum_extends(graph, longer, weights, x, upto - 1);
        assert(longer[weights[upto - 1]@] == graph[weights[upto - 1]@]);
    }
}

impl Neuron {
    /// A neuron with the given weights and bias, which are added to
    /// `graph` as leaves: the weights in their order, then the bias.
    pub fn with_weights<T: Scalar>(graph: &mut Graph<T>, weights: &Vec<T>, bias: T) -> (neuron:
        Neuron)
        requires
            old(graph).wf(),
        ensures
            final(graph).wf(),
            final(graph)@ == old(graph)@ + leaves(weights@.push(bias), old(graph)@.len()),
            neuron@.weights.len() == weights@.len(),
            forall|i: int|
                0 <= i < weights@.len() ==> (#[trigger] neuron@.weights[i])@ == old(graph)@.len()
                    + i,
            neuron@.bias@ == old(graph)@.len() + weights@.len(),
            neuron_fits(final(graph)@, neuron@),
    {
        let ghost start = graph@;
        let ghost numbers = weights@.push(bias);
        let mut nodes: Vec<Value> = Vec::new();
        let mut made: usize = 0;
        while made < weights.len()
            invariant
                made <= weights@.len(),
                numbers == weights@.push(bias),
                graph.wf(),
                graph@ == start + leaves(numbers.take(made as int), start.len()),
                nodes@.len() == made,
                forall|i: int| 0 <= i < made ==> (#[trigger] nodes@[i])@ == start.len() + i,
            decreases weights@.len() - made,
        {
            let weight = Value::new(graph, weights[made]);
            nodes.push(weight);
            made = made + 1;
            assert(graph@ =~= start + leaves(numbers.take(made as int), start.len()));
        }
        let bias = Value::new(graph, bias);
        proof {
            assert(numbers.take(numbers.len() as int) =~= numbers);
            assert(graph@ =~= start + leaves(numbers, start.len()));
        }
        Neuron { weights: nodes, bias }
    }

    /// A neuron for `inputs` inputs. Its weights and then its bias are
    /// taken from `sampler`, in that order, and added to `graph` as leaves.
    pub fn new<T: Scalar, S: Sampler<T>>(graph: &mut Graph<T>, inputs: u64, sampler: &mut S) -> (neuron:
        Neuron)
        requires
            old(graph).wf(),
        ensures
            final(graph).wf(),
            adds_leaves(old(graph)@, final(graph)@, inputs + 1),
            neuron@.weights.len() == inputs,
            forall|i: int|
                0 <= i < inputs ==> (#[trigger] neuron@.weights[i])@ == old(graph)@.len() + i,
            neuron@.bias@ == old(graph)@.len() + inputs,
            neuron_fits(final(graph)@, neuron@),
    {
        let mut weights: Vec<T> = Vec::new();
        let mut drawn: u64 = 0;
        while drawn < inputs
            invariant
                drawn <= inputs,
                weights@.len() == drawn,
            decreases inputs - drawn,
        {
            let raw_weight = sampler.weight();
            weights.push(raw_weight);
            drawn = drawn + 1;
        }
        let raw_bias = sampler.bias();
        Neuron::with_weights(graph, &weights, raw_bias)
    }

    /// The neuron's weights, one for each input.
    pub fn weights(&self) -> (weights: &Vec<Value>)
        ensures
            weights@ == self@.weights,
    {
        &self.weights
    }

    /// The neuron's bias.
    pub fn bias(&self) -> (bias: Value)
        ensures
            bias == self@.bias,
    {
        self.bias
    }

    /// Whether the weights and the bias are nodes of `graph`.
    pub fn fits<T: Scalar>(&self, graph: &Graph<T>) -> (fits: bool)
        ensures
            fits == neuron_fits(graph@, self@),
    {
        let count = graph.len();
        if self.bias.index >= count {
            return false;
        }
        let mut i: usize = 0;
        while i < self.weights.len()
            invariant
                i <= self.weights@.len(),
                count == graph@.len(),
                self.weights@ == self@.weights,
                forall|j: int| 0 <= j < i ==> (#[trigger] self@.weights[j])@ < count,
            decreases self.weights@.len() - i,
        {
            if self.weights[i].index >= count {
                return false;
            }
            i = i + 1;
        }
        true
    }

    /// The larger of zero and `x`.
    pub fn relu<T: Scalar>(x: T) -> (r: T)
        ensures
            r == x.relu_spec(),
    {
        x.relu()
    }

    /// Performs the forward pass on the inputs `x` and returns the
    /// activation. The weighted sum and the addition of the bias are
    /// recorded in `graph`; the rectification is applied to the number of
    /// the last node and is not a node itself, so a backward pass from that
    /// node differentiates what the neuron computes before it rectifies.
    /// Where the number of inputs is not the number of weights, nothing is
    /// computed and `graph` stays as it is.
    pub fn forward<T: Scalar>(&self, graph: &mut Graph<T>, x: &Vec<T>) -> (result: Result<
        T,
        NetworkError,
    >)
        requires
            old(graph).wf(),
            neuron_fits(old(graph)@, self@),
        ensures
            final(graph).wf(),
            x@.len() != self@.weights.len() ==> final(graph)@ == old(graph)@ && result == Err::<
                T,
                NetworkError,
            >(
                NetworkError::DimensionMismatch {
                    expected: self@.weights.len() as usize,
                    found: x@.len() as usize,
                },
            ),
            x@.len() == self@.weights.len() ==> final(graph)@ == neuron_graph(
                old(graph)@,
                self@,
                x@,
            ) && result == Ok::<T, NetworkError>(neuron_output(old(graph)@, self@, x@)),
    {
        if x.len() != self.weights.len() {
            return Err(
                NetworkError::DimensionMismatch { expected: self.weights.len(), found: x.len() },
            );
        }
        let ghost start = graph@;
        let mut weighted_sum = Value::new(graph, T::zero());
        let mut i: usize = 0;
        while i < x.len()
            invariant
                i <= x@.len(),
                x@.len() == self@.weights.len(),
                self.weights@ == self@.weights,
                neuron_fits(start, self@),
                graph.wf(),
                graph@ == neuron_partial(start, self@, x@, i as int),
                weighted_sum@ == start.len() + 3 * i,
            decreases x@.len() - i,
        {
            proof {
                graph.lemma_len_fits();
                lemma_neuron_partial(start, self@, x@, i as int);
            }
            let input_dim = Value::new_from_ref(graph, &x[i]);
            let weight = self.weights[i];
            let item = weight.mul(graph, &input_dim);
            weighted_sum = weighted_sum.add(graph, &item);
            i = i + 1;
        }
        proof {
            graph.lemma_len_fits();
            lemma_neuron_partial(start, self@, x@, x@.len() as int);
        }
        let weight_and_bias = weighted_sum.add(graph, &self.bias);
        Ok(Neuron::relu(weight_and_bias.get_data(graph)))
    }
}

/// A layer: neurons that share their inputs.
pub struct Layer {
    neurons: Vec<Neuron>,
}

impl View for Layer {
    type V = Seq<NeuronModel>;

    closed spec fn view(&self) -> Seq<NeuronModel> {
        Seq::new(self.neurons@.len(), |k: int| self.neurons@[k]@)
    }
}

/// The neurons are neurons of `graph`, and all take as many inputs as the
/// first of them.
pub open spec fn layer_fits<T>(graph: Seq<Node<T>>, neurons: Seq<NeuronModel>) -> bool {
    forall|k: int|
        0 <= k < neurons.len() ==> neuron_fits(graph, #[trigger] neurons[k])
            && neurons[k].weights.len() == neurons[0].weights.len()
}

/// A layer takes `width` inputs if its neurons do. One without neurons
/// takes any number.
pub open spec fn layer_accepts(neurons: Seq<NeuronModel>, width: nat) -> bool {
    neurons.len() == 0 || neurons[0].weights.len() == width
}

/// The graph after the first `upto` neurons of a layer have been evaluated
/// on `x`, one after another.
pub open spec fn layer_graph<T: Scalar>(
    graph: Seq<Node<T>>,
    neurons: Seq<NeuronModel>,
    x: Seq<T>,
    upto: int,
) -> Seq<Node<T>>
    decreases upto,
{
    if upto <= 0 {
        graph
    } else {
        neuron_graph(layer_graph(graph, neurons, x, upto - 1), neurons[upto - 1], x)
    }
}

/// The activations of the neurons of a layer on `x`, in the order of the
/// neurons.
pub open spec fn layer_outputs<T: Scalar>(
    graph: Seq<Node<T>>,
    neurons: Seq<NeuronModel>,
    x: Seq<T>,
) -> Seq<T> {
    Seq::new(neurons.len(), |k: int| neuron_output(graph, neurons[k], x))
}

/// What evaluating a layer on `x` gives: the graph after it, and the
/// activations or the refusal.
pub open spec fn layer_run<T: Scalar>(
    graph: Seq<Node<T>>,
    neurons: Seq<NeuronModel>,
    x: Seq<T>,
) -> (Seq<Node<T>>, Result<Seq<T>, NetworkError>) {
    if layer_accepts(neurons, x.len()) {
        (
            layer_graph(graph, neurons, x, neurons.len() as int),
            Ok(layer_outputs(graph, neurons, x)),
        )
    } else {
        (
            graph,
            Err(
                NetworkError::DimensionMismatch {
                    expected: neurons[0].weights.len() as usize,
                    found: x.len() as usize,
                },
            ),
        )
    }
}

/// What was computed, as a sequence.
pub open spec fn outcome<T>(result: Result<Vec<T>, NetworkError>) -> Result<
    Seq<T>,
    NetworkError,
> {
    match result {
        Ok(outputs) => Ok(outputs@),
        Err(error) => Err(error),
    }
}

/// Evaluating neurons of a layer only adds nodes to the graph.
pub proof fn lemma_layer_graph_extends<T: Scalar>(
    graph: Seq<Node<T>>,
    neurons: Seq<NeuronModel>,
    x: Seq<T>,
    upto: int,
)
    requires
        layer_fits(graph, neurons),
        layer_accepts(neurons, x.len()),
        0 <= upto <= neurons.len(),
    ensures
        extends(graph, layer_graph(graph, neurons, x, upto)),
        layer_graph(graph, neurons, x, upto).len() == graph.len() + upto * (2 + 3 * x.len()),
    decreases upto,
{
    if upto > 0 {
        lemma_layer_graph_extends(graph, neurons, x, upto - 1);
        let before = layer_graph(graph, neurons, x, upto - 1);
        assert(neuron_fits(graph, neurons[upto - 1]));
        lemma_neuron_graph_extends(before, neurons[upto - 1], x);
        assert(upto * (2 + 3 * x.len()) == (upto - 1) * (2 + 3 * x.len()) + (2 + 3 * x.len()))
            by (nonlinear_arith);
    }
}

impl Layer {
    /// A layer of `num_outputs` neurons for `num_inputs` inputs each, made
    /// one after another with [`Neuron::new`].
    pub fn new<T: Scalar, S: Sampler<T>>(
        graph: &mut Graph<T>,
        num_inputs: u64,
        num_outputs: u64,
        sampler: &mut S,
    ) -> (layer: Layer)
        requires
            old(graph).wf(),
        ensures
            final(graph).wf(),
            adds_leaves(old(graph)@, final(graph)@, num_outputs * (num_inputs + 1)),
            layer@.len() == num_outputs,
            layer_fits(final(graph)@, layer@),
            forall|k: int|
                #![trigger layer@[k]]
                0 <= k < num_outputs ==> {
                    &&& layer@[k].weights.len() == num_inputs
                    &&& layer@[k].bias@ == old(graph)@.len() + k * (num_inputs + 1) + num_inputs
                    &&& forall|i: int|
                        0 <= i < num_inputs ==> (#[trigger] layer@[k].weights[i])@ == old(
                            graph,
                        )@.len() + k * (num_inputs + 1) + i
                },
    {
        let ghost start = graph@;
        let mut neurons: Vec<Neuron> = Vec::new();
        let mut made: u64 = 0;
        while made < num_outputs
            invariant
                made <= num_outputs,
                graph.wf(),
                adds_leaves(start, graph@, made * (num_inputs + 1)),
                neurons@.len() == made,
                forall|k: int|
                    #![trigger neurons@[k]]
                    0 <= k < made ==> {
                        &&& neurons@[k]@.weights.len() == num_inputs
                        &&& neurons@[k]@.bias@ == start.len() + k * (num_inputs + 1) + num_inputs
                        &&& forall|i: int|
                            0 <= i < num_inputs ==> (#[trigger] neurons@[k]@.weights[i])@
                                == start.len() + k * (num_inputs + 1) + i
                    },
            decreases num_outputs - made,
        {
            let ghost before = graph@;
            let neuron = Neuron::new(graph, num_inputs, sampler);
            proof {
                assert((made + 1) * (num_inputs + 1) == made * (num_inputs + 1) + (num_inputs + 1))
                    by (nonlinear_arith);
                assert(adds_leaves(start, graph@, (made + 1) * (num_inputs + 1)));
            }
            neurons.push(neuron);
            made = made + 1;
        }
        let layer = Layer { neurons };
        proof {
            assert forall|k: int| 0 <= k < layer@.len() implies neuron_fits(
                graph@,
                #[trigger] layer@[k],
            ) && layer@[k].weights.len() == layer@[0].weights.len() by {
                let neuron = neurons@[k]@;
                assert(layer@[k] == neuron);
                assert(layer@[0] == neurons@[0]@);
                assert(k * (num_inputs + 1) + (num_inputs + 1) <= num_outputs * (num_inputs + 1))
                    by (nonlinear_arith)
                    requires
                        0 <= k < num_outputs,
                ;
                assert(0 <= k * (num_inputs + 1)) by (nonlinear_arith)
                    requires
                        0 <= k,
                ;
                assert forall|i: int| 0 <= i < neuron.weights.len() implies (
                #[trigger] neuron.weights[i])@ < graph@.len() by {}
            }
        }
        layer
    }

    /// The layer of the given neurons.
    pub fn from_neurons(neurons: Vec<Neuron>) -> (layer: Layer)
        ensures
            layer@ == Seq::new(neurons@.len(), |k: int| neurons@[k]@),
    {
        Layer { neurons }
    }

    /// The number of neurons, which is the number of activations that the
    /// layer gives.
    pub fn len(&self) -> (n: usize)
        ensures
            n == self@.len(),
    {
        self.neurons.len()
    }

    /// Whether the neurons are neurons of `graph` and all take the same
    /// number of inputs.
    pub fn fits<T: Scalar>(&self, graph: &Graph<T>) -> (fits: bool)
        ensures
            fits == layer_fits(graph@, self@),
    {
        let mut k: usize = 0;
        while k < self.neurons.len()
            invariant
                k <= self.neurons@.len(),
                self@.len() == self.neurons@.len(),
                forall|j: int| 0 <= j < self.neurons@.len() ==> self@[j] == self.neurons@[j]@,
                forall|j: int|
                    0 <= j < k ==> neuron_fits(graph@, #[trigger] self@[j])
                        && self@[j].weights.len() == self@[0].weights.len(),
            decreases self.neurons@.len() - k,
        {
            let neuron = &self.neurons[k];
            let first = &self.neurons[0];
            proof {
                assert(neuron@ == self@[k as int]);
                assert(first@ == self@[0]);
            }
            if !neuron.fits(graph) || neuron.weights().len() != first.weights().len() {
                return false;
            }
            k = k + 1;
        }
        true
    }

    /// Evaluates every neuron of the layer on `inputs`, from the first
    /// one, and returns their activations in that order. Where the neurons
    /// take another number of inputs, nothing is computed.
    pub fn forward<T: Scalar>(&self, graph: &mut Graph<T>, inputs: &Vec<T>) -> (result: Result<
        Vec<T>,
        NetworkError,
    >)
        requires
            old(graph).wf(),
            layer_fits(old(graph)@, self@),
        ensures
            final(graph).wf(),
            final(graph)@ == layer_run(old(graph)@, self@, inputs@).0,
            outcome(result) == layer_run(old(graph)@, self@, inputs@).1,
    {
        let ghost start = graph@;
        let mut outputs: Vec<T> = Vec::new();
        let mut k: usize = 0;
        while k < self.neurons.len()
            invariant
                k <= self.neurons@.len(),
                start == old(graph)@,
                self@.len() == self.neurons@.len(),
                forall|j: int| 0 <= j < self.neurons@.len() ==> self@[j] == self.neurons@[j]@,
                layer_fits(start, self@),
                k > 0 ==> layer_accepts(self@, inputs@.len()),
                graph.wf(),
                graph@ == layer_graph(start, self@, inputs@, k as int),
                outputs@.len() == k,
                forall|j: int|
                    0 <= j < k ==> outputs@[j] == neuron_output(start, #[trigger] self@[j], inputs@),
            decreases self.neurons@.len() - k,
        {
            let neuron = &self.neurons[k];
            proof {
                assert(neuron@ == self@[k as int]);
                assert(neuron_fits(start, self@[k as int]));
                if k > 0 {
                    lemma_layer_graph_extends(start, self@, inputs@, k as int);
                    lemma_neuron_output_extends(start, graph@, neuron@, inputs@);
                }
            }
            match neuron.forward(graph, inputs) {
                Ok(neuron_result) => {
                    outputs.push(neuron_result);
                },
                Err(error) => {
                    proof {
                        assert(inputs@.len() != neuron@.weights.len());
                        assert(self@[k as int].weights.len() == self@[0].weights.len());
                        assert(k == 0);
                    }
                    return Err(error);
                },
            }
            k = k + 1;
        }
        proof {
            if self@.len() > 0 {
                assert(layer_accepts(self@, inputs@.len()));
            }
            assert(outputs@ =~= layer_outputs(start, self@, inputs@));
        }
        Ok(outputs)
    }
}

/// An ordered sequence of layers. Each layer takes what the one before it
/// gives.
pub struct Network {
    pub layers: Vec<Layer>,
}

impl View for Network {
    type V = Seq<Seq<NeuronModel>>;

    open spec fn view(&self) -> Seq<Seq<NeuronModel>> {
        Seq::new(self.layers@.len(), |k: int| self.layers@[k]@)
    }
}

/// Every layer fits `graph`.
pub open spec fn network_fits<T>(graph: Seq<Node<T>>, layers: Seq<Seq<NeuronModel>>) -> bool {
    forall|k: int| 0 <= k < layers.len() ==> layer_fits(graph, #[trigger] layers[k])
}

/// What evaluating the first `upto` layers gives: the graph after them,
/// and the activations of the last of them or the first refusal. The first
/// layer takes `inputs`, every other layer the activations of the layer
/// before it, and after a refusal nothing more is evaluated. No layers
/// give no activations.
pub open spec fn network_run<T: Scalar>(
    graph: Seq<Node<T>>,
    layers: Seq<Seq<NeuronModel>>,
    inputs: Seq<T>,
    upto: int,
) -> (Seq<Node<T>>, Result<Seq<T>, NetworkError>)
    decreases upto,
{
    if upto <= 0 {
        (graph, Ok(Seq::empty()))
    } else {
        let before = network_run(graph, layers, inputs, upto - 1);
        match before.1 {
            Ok(outputs) => layer_run(
                before.0,
                layers[upto - 1],
                if upto == 1 {
                    inputs
                } else {
                    outputs
                },
            ),
            Err(_) => before,
        }
    }
}

/// The widths of the layers fit: the first layer takes `width` inputs, and
/// every other layer as many as the layer before it has neurons.
pub open spec fn chained(layers: Seq<Seq<NeuronModel>>, width: nat) -> bool {
    forall|k: int|
        0 <= k < layers.len() ==> layer_accepts(
            #[trigger] layers[k],
            if k == 0 {
                width
            } else {
                layers[k - 1].len()
            },
        )
}

/// Shape propagation. Where the widths of the layers fit one another and
/// the inputs, evaluation is not refused, and each layer gives as many
/// activations as it has neurons: a network gives as many as its last
/// layer has.
pub proof fn lemma_network_shape<T: Scalar>(
    graph: Seq<Node<T>>,
    layers: Seq<Seq<NeuronModel>>,
    inputs: Seq<T>,
    upto: int,
)
    requires
        chained(layers, inputs.len()),
        0 < upto <= layers.len(),
    ensures
        network_run(graph, layers, inputs, upto).1 is Ok,
        network_run(graph, layers, inputs, upto).1->Ok_0.len() == layers[upto - 1].len(),
    decreases upto,
{
    let before = network_run(graph, layers, inputs, upto - 1);
    if upto > 1 {
        lemma_network_shape(graph, layers, inputs, upto - 1);
        assert(layer_accepts(layers[upto - 1], layers[upto - 2].len()));
    } else {
        assert(before.1 == Ok::<Seq<T>, NetworkError>(Seq::empty()));
        assert(layer_accepts(layers[0], inputs.len()));
    }
}

/// After a refusal nothing changes any more.
pub proof fn lemma_network_run_refused<T: Scalar>(
    graph: Seq<Node<T>>,
    layers: Seq<Seq<NeuronModel>>,
    inputs: Seq<T>,
    at: int,
    upto: int,
)
    requires
        0 <= at <= upto,
        network_run(graph, layers, inputs, at).1 is Err,
    ensures
        network_run(graph, layers, inputs, upto) == network_run(graph, layers, inputs, at),
    decreases upto - at,
{
    if at < upto {
        lemma_network_run_refused(graph, layers, inputs, at, upto - 1);
    }
}

/// Evaluating layers only adds nodes to the graph.
pub proof fn lemma_network_run_extends<T: Scalar>(
    graph: Seq<Node<T>>,
    layers: Seq<Seq<NeuronModel>>,
    inputs: Seq<T>,
    upto: int,
)
    requires
        network_fits(graph, layers),
        0 <= upto <= layers.len(),
    ensures
        extends(graph, network_run(graph, layers, inputs, upto).0),
    decreases upto,
{
    if upto > 0 {
        lemma_network_run_extends(graph, layers, inputs, upto - 1);
        let before = network_run(graph, layers, inputs, upto - 1);
        if let Ok(outputs) = before.1 {
            let x = if upto == 1 {
                inputs
            } else {
                outputs
            };
            let neurons = layers[upto - 1];
            lemma_layer_fits_extends(graph, before.0, neurons);
            if layer_accepts(neurons, x.len()) {
                lemma_layer_graph_extends(before.0, neurons, x, neurons.len() as int);
            }
        }
    }
}

/// A layer of a graph is a layer of every graph that extends it.
pub proof fn lemma_layer_fits_extends<T>(
    graph: Seq<Node<T>>,
    longer: Seq<Node<T>>,
    neurons: Seq<NeuronModel>,
)
    requires
        layer_fits(graph, neurons),
        graph.len() <= longer.len(),
    ensures
        layer_fits(longer, neurons),
{
    assert forall|k: int| 0 <= k < neurons.len() implies neuron_fits(
        longer,
        #[trigger] neurons[k],
    ) && neurons[k].weights.len() == neurons[0].weights.len() by {
        assert(neuron_fits(graph, neurons[k]));
    }
}

impl Network {
    /// Whether every layer fits `graph`.
    pub fn fits<T: Scalar>(&self, graph: &Graph<T>) -> (fits: bool)
        ensures
            fits == network_fits(graph@, self@),
    {
        let mut k: usize = 0;
        while k < self.layers.len()
            invariant
                k <= self.layers@.len(),
                forall|j: int| 0 <= j < k ==> layer_fits(graph@, #[trigger] self@[j]),
            decreases self.layers@.len() - k,
        {
            let layer = &self.layers[k];
            proof {
                assert(layer@ == self@[k as int]);
            }
            if !layer.fits(graph) {
                return false;
            }
            k = k + 1;
        }
        true
    }

    /// Evaluates the layers on `inputs`, from the first one: it takes
    /// `inputs`, and every other layer takes the activations of the layer
    /// before it. The result is what the last layer gives, or the refusal
    /// of the first layer whose neurons take another number of inputs
    /// than it is given; the layers before that one have been evaluated
    /// then, and no other.
    pub fn forward<T: Scalar>(&self, graph: &mut Graph<T>, inputs: &Vec<T>) -> (result: Result<
        Vec<T>,
        NetworkError,
    >)
        requires
            old(graph).wf(),
            network_fits(old(graph)@, self@),
        ensures
            final(graph).wf(),
            final(graph)@ == network_run(old(graph)@, self@, inputs@, self@.len() as int).0,
            outcome(result) == network_run(old(graph)@, self@, inputs@, self@.len() as int).1,
            self@.len() > 0 && chained(self@, inputs@.len()) ==> result is Ok
                && result->Ok_0@.len() == self@[self@.len() - 1].len(),
    {
        proof {
            if self@.len() > 0 && chained(self@, inputs@.len()) {
                lemma_network_shape(old(graph)@, self@, inputs@, self@.len() as int);
            }
        }
        let ghost start = graph@;
        let mut result: Vec<T> = Vec::new();
        let mut index: usize = 0;
        while index < self.layers.len()
            invariant
                index <= self.layers@.len(),
                start == old(graph)@,
                network_fits(start, self@),
                graph.wf(),
                graph@ == network_run(start, self@, inputs@, index as int).0,
                network_run(start, self@, inputs@, index as int).1 == Ok::<Seq<T>, NetworkError>(
                    result@,
                ),
            decreases self.layers@.len() - index,
        {
            let layer = &self.layers[index];
            let ghost before = graph@;
            proof {
                lemma_network_run_extends(start, self@, inputs@, index as int);
                assert(layer@ == self@[index as int]);
                lemma_layer_fits_extends(start, graph@, layer@);
            }
            let step = if index == 0 {
                // The first layer receives the inputs directly
                layer.forward(graph, inputs)
            } else {
                // Subsequent layers receive the previous layer's output
                layer.forward(graph, &result)
            };
            proof {
                let x = if index == 0 {
                    inputs@
                } else {
                    result@
                };
                assert(network_run(start, self@, inputs@, index + 1) == layer_run(
                    before,
                    self@[index as int],
                    x,
                ));
            }
            match step {
                Ok(outputs) => {
                    result = outputs;
                },
                Err(error) => {
                    proof {
                        lemma_network_run_refused(
                            start,
                            self@,
                            inputs@,
                            index + 1,
                            self@.len() as int,
                        );
                    }
                    return Err(error);
                },
            }
            index = index + 1;
        }
        Ok(result)
    }
}

} // verus!
