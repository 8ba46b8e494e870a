use vstd::prelude::*;

use crate::layers::{is_valid_topology, valid_topology, Layer};
use crate::activations::ActivationFunction;
use crate::matrix::{column, difference_of, inner, lemma_row_major, transposed, Matrix};
use crate::scalar::Scalar;

verus! {

/// Why a network refused a call. No call that returns one of these has
/// changed the network.
#[derive(Clone, Copy, Debug, PartialEq, Eq, Structural)]
pub enum NetworkError {
    /// Fewer than two layers, a layer without neurons, an activation on the
    /// input layer or a later layer without one.
    InvalidTopology,
    /// A learning rate that is not greater than zero.
    InvalidLearningRate,
    /// A weight or bias matrix whose shape does not fit the layers it joins,
    /// or a backward pass without a fitting trace of a forward pass.
    DimensionMismatch,
    /// An input vector whose width is not the input layer's size.
    InputSizeMismatch,
    /// A target vector whose width is not the output layer's size or the
    /// outputs' length, or a training set with a different number of targets
    /// than inputs.
    TargetSizeMismatch,
}

/// A fully connected feed-forward network.
pub struct Network<T> {
    /// Size and activation of each layer.
    pub layers: Vec<Layer>,
    /// `weights[i]` maps layer `i` to layer `i + 1`.
    pub weights: Vec<Matrix<T>>,
    /// `biases[i]` is added to layer `i + 1`'s weighted input.
    pub biases: Vec<Matrix<T>>,
    /// The trace of the last forward pass: the input column, then each
    /// layer's activated output.
    pub data: Vec<Matrix<T>>,
    pub learning_rate: T,
}

/// The weight and bias matrices fit the layers they join: `weights[i]` is
/// `layers[i + 1].size` by `layers[i].size`, `biases[i]` a column of
/// `layers[i + 1].size`.
pub open spec fn shapes_fit<T: Copy>(
    layers: Seq<Layer>,
    weights: Seq<Matrix<T>>,
    biases: Seq<Matrix<T>>,
) -> bool {
    &&& layers.len() >= 1
    &&& weights.len() == layers.len() - 1
    &&& biases.len() == layers.len() - 1
    &&& forall|i: int| 0 <= i < weights.len() ==> {
        &&& (#[trigger] weights[i]).wf()
        &&& weights[i].rows == layers[i + 1].size
        &&& weights[i].cols == layers[i].size
    }
    &&& forall|i: int| 0 <= i < biases.len() ==> {
        &&& (#[trigger] biases[i]).wf()
        &&& biases[i].rows == layers[i + 1].size
        &&& biases[i].cols == 1
    }
}

/// `trace` holds one column per layer, each as tall as its layer.
pub open spec fn is_trace<T: Copy>(layers: Seq<Layer>, trace: Seq<Matrix<T>>) -> bool {
    &&& trace.len() == layers.len()
    &&& forall|i: int| 0 <= i < trace.len() ==> {
        &&& (#[trigger] trace[i]).wf()
        &&& trace[i].rows == layers[i].size
        &&& trace[i].cols == 1
    }
}

/// Every entry of `m` lies in `[0, 1)`.
pub open spec fn all_in_unit<T: Scalar>(m: Matrix<T>) -> bool {
    forall|i: int| 0 <= i < m.data.len() ==> (#[trigger] m.data@[i]).in_unit()
}

/// One layer of the forward pass on the column `x`: entry `r` is `act`
/// applied to row `r` of the weights `w` times `x`, plus `b[r]`.
pub open spec fn layer_values<T: Scalar>(w: Seq<Seq<T>>, b: Seq<T>, x: Seq<T>, act: ActivationFunction) -> Seq<T> {
    Seq::new(w.len(), |r: int| inner(w[r], x).spec_plus(b[r]).spec_activate(act))
}

/// The column that layer `k` holds after a forward pass of `inputs`, given
/// the weights `w` (as rows) and biases `b` (as columns): the input itself
/// for `k == 0`, else layer `k - 1`'s column carried through `w[k - 1]`,
/// `b[k - 1]` and layer `k`'s activation.
pub open spec fn forward_values<T: Scalar>(
    layers: Seq<Layer>,
    w: Seq<Seq<Seq<T>>>,
    b: Seq<Seq<T>>,
    inputs: Seq<T>,
    k: nat,
) -> Seq<T>
    decreases k,
{
    if k == 0 {
        inputs
    } else {
        layer_values(
            w[k - 1],
            b[k - 1],
            forward_values(layers, w, b, inputs, (k - 1) as nat),
            layers[k as int].activation.unwrap(),
        )
    }
}

/// The weights and biases after one example: a forward pass of `input`,
/// then a backward pass towards `target` over its trace and output.
pub open spec fn example_step<T: Scalar>(
    layers: Seq<Layer>,
    lr: T,
    w: Seq<Seq<Seq<T>>>,
    b: Seq<Seq<T>>,
    input: Seq<T>,
    target: Seq<T>,
) -> (Seq<Seq<Seq<T>>>, Seq<Seq<T>>) {
    let last = (layers.len() - 1) as nat;
    let trace = Seq::new(layers.len(), |k: int| forward_values(layers, w, b, input, k as nat));
    let out = forward_values(layers, w, b, input, last);
    backward_pass(
        layers,
        trace,
        lr,
        w,
        b,
        difference_of(target, out),
        Seq::new(out.len(), |r: int| out[r].spec_derivative(layers.last().activation.unwrap())),
        last,
    )
}

/// The weights and biases after the first `j` examples, in order.
pub open spec fn examples_step<T: Scalar>(
    layers: Seq<Layer>,
    lr: T,
    w: Seq<Seq<Seq<T>>>,
    b: Seq<Seq<T>>,
    inputs: Seq<Vec<T>>,
    targets: Seq<Vec<T>>,
    j: nat,
) -> (Seq<Seq<Seq<T>>>, Seq<Seq<T>>)
    decreases j,
{
    if j == 0 {
        (w, b)
    } else {
        let prev = examples_step(layers, lr, w, b, inputs, targets, (j - 1) as nat);
        example_step(layers, lr, prev.0, prev.1, inputs[j - 1]@, targets[j - 1]@)
    }
}

/// The weights and biases after `e` epochs over all the examples.
pub open spec fn epochs_step<T: Scalar>(
    layers: Seq<Layer>,
    lr: T,
    w: Seq<Seq<Seq<T>>>,
    b: Seq<Seq<T>>,
    inputs: Seq<Vec<T>>,
    targets: Seq<Vec<T>>,
    e: nat,
) -> (Seq<Seq<Seq<T>>>, Seq<Seq<T>>)
    decreases e,
{
    if e == 0 {
        (w, b)
    } else {
        let prev = epochs_step(layers, lr, w, b, inputs, targets, (e - 1) as nat);
        examples_step(layers, lr, prev.0, prev.1, inputs, targets, inputs.len())
    }
}

/// The rows of each matrix.
pub open spec fn views_of<T: Copy>(ms: Seq<Matrix<T>>) -> Seq<Seq<Seq<T>>> {
    Seq::new(ms.len(), |k: int| ms[k].view())
}

/// The buffer of each matrix.
pub open spec fn buffers_of<T: Copy>(ms: Seq<Matrix<T>>) -> Seq<Seq<T>> {
    Seq::new(ms.len(), |k: int| ms[k].data@)
}

/// The steps of a backward pass still to come, from layer `i - 1` down to
/// layer 0, as a function of the weights `w` (as rows) and biases `b` (as
/// columns) so far, the error column `err` and the gradient column `grad`.
/// Each step scales gradient times error by `lr`, adds the outer product of
/// that column and `trace[k]` to `w[k]` and the column itself to `b[k]`, then
/// carries the error back through the updated `w[k]`; the next gradient is
/// the derivative of layer `k + 1`'s activation on `trace[k]`. The result is
/// the final weights and biases.
pub open spec fn backward_pass<T: Scalar>(
    layers: Seq<Layer>,
    trace: Seq<Seq<T>>,
    lr: T,
    w: Seq<Seq<Seq<T>>>,
    b: Seq<Seq<T>>,
    err: Seq<T>,
    grad: Seq<T>,
    i: nat,
) -> (Seq<Seq<Seq<T>>>, Seq<Seq<T>>)
    decreases i,
{
    if i == 0 {
        (w, b)
    } else {
        let k = i - 1;
        let s = Seq::new(grad.len(), |r: int| grad[r].spec_times(err[r]).spec_times(lr));
        let x = trace[k];
        let nw = Seq::new(
            w[k].len(),
            |r: int| Seq::new(x.len(), |c: int| w[k][r][c].spec_plus(inner(seq![s[r]], seq![x[c]]))),
        );
        let nb = Seq::new(b[k].len(), |r: int| b[k][r].spec_plus(s[r]));
        let ne = Seq::new(x.len(), |c: int| inner(column(nw, c), err));
        let ng = Seq::new(x.len(), |c: int| x[c].spec_derivative(layers[k + 1].activation.unwrap()));
        backward_pass(layers, trace, lr, w.update(k, nw), b.update(k, nb), ne, ng, k as nat)
    }
}

/// A column's rows are its buffer.
pub proof fn lemma_column_view<T: Copy>(m: Matrix<T>)
    requires
        m.wf(),
        m.cols == 1,
    ensures
        column(m.view(), 0) == m.data@,
        forall|r: int| 0 <= r < m.rows ==> #[trigger] m.view()[r][0] == m.data@[r],
{
    assert forall|r: int| 0 <= r < m.rows implies #[trigger] m.view()[r][0] == m.data@[r] by {
        assert(r * m.cols == r);
    }
    assert(column(m.view(), 0) =~= m.data@);
}

/// Every vector in `vs` has `width` entries.
pub open spec fn all_of_width<T>(vs: Seq<Vec<T>>, width: nat) -> bool {
    forall|j: int| 0 <= j < vs.len() ==> (#[trigger] vs[j]).len() == width
}

/// Whether progress is reported after `epoch` of `epochs`: after every epoch
/// of a run under a hundred, else after every hundredth part of the run.
pub open spec fn spec_reports(epoch: int, epochs: int) -> bool {
    epochs < 100 || epoch % (epochs / 100) == 0
}

/// Whether a training run of `epochs` reports its progress after `epoch`.
pub fn reports_progress(epoch: u16, epochs: u16) -> (res: bool)
    ensures
        res == spec_reports(epoch as int, epochs as int),
{
    epochs < 100 || epoch % (epochs / 100) == 0
}

fn copy_values<T: Copy>(v: &Vec<T>) -> (res: Vec<T>)
    ensures
        res@ == v@,
{
    let mut res: Vec<T> = Vec::with_capacity(v.len());
    let mut i: usize = 0;
    while i < v.len()
        invariant
            i <= v.len(),
            res@ == v@.subrange(0, i as int),
        decreases v.len() - i,
    {
        res.push(v[i]);
        i = i + 1;
    }
    assert(res@ =~= v@);
    res
}

impl<T: Scalar> Network<T> {
    /// The topology is valid and every matrix fits it.
    pub open spec fn wf(&self) -> bool {
        &&& valid_topology(self.layers@)
        &&& shapes_fit(self.layers@, self.weights@, self.biases@)
    }

    /// The weights (as rows) and biases (as columns).
    pub open spec fn state(&self) -> (Seq<Seq<Seq<T>>>, Seq<Seq<T>>) {
        (views_of(self.weights@), buffers_of(self.biases@))
    }

    /// The size of the output layer.
    pub open spec fn output_size(&self) -> nat {
        self.layers@.last().size as nat
    }

    /// A network over `layers` with weights and biases drawn from `[0, 1)`
    /// and an empty trace; refused unless the topology is valid and the
    /// learning rate is positive.
    pub fn new(layers: Vec<Layer>, learning_rate: T) -> (res: Result<Self, NetworkError>)
        requires
            forall|i: int|
                0 <= i < layers.len() - 1 ==> #[trigger] layers@[i].size * layers@[i + 1].size
                    <= usize::MAX,
        ensures
            valid_topology(layers@) && learning_rate.is_positive() <==> res is Ok,
            res is Err ==> res->Err_0 == if valid_topology(layers@) {
                NetworkError::InvalidLearningRate
            } else {
                NetworkError::InvalidTopology
            },
            res is Ok ==> {
                let n = res->Ok_0;
                &&& n.wf()
                &&& n.layers@ == layers@
                &&& n.learning_rate == learning_rate
                &&& n.data@.len() == 0
                &&& forall|i: int| 0 <= i < n.weights.len() ==> all_in_unit(#[trigger] n.weights@[i])
                &&& forall|i: int| 0 <= i < n.biases.len() ==> all_in_unit(#[trigger] n.biases@[i])
            },
    {
        if !is_valid_topology(&layers) {
            return Err(NetworkError::InvalidTopology);
        }
        if !learning_rate.positive() {
            return Err(NetworkError::InvalidLearningRate);
        }
        let n: usize = layers.len() - 1;
        let mut weights: Vec<Matrix<T>> = Vec::with_capacity(n);
        let mut biases: Vec<Matrix<T>> = Vec::with_capacity(n);
        let mut i: usize = 0;
        while i < n
            invariant
                valid_topology(layers@),
                n == layers.len() - 1,
                forall|i: int|
                    0 <= i < layers.len() - 1 ==> #[trigger] layers@[i].size * layers@[i + 1].size
                        <= usize::MAX,
                i <= n,
                weights.len() == i,
                biases.len() == i,
                forall|j: int| 0 <= j < i ==> {
                    &&& (#[trigger] weights@[j]).wf()
                    &&& weights@[j].rows == layers@[j + 1].size
                    &&& weights@[j].cols == layers@[j].size
                    &&& all_in_unit(weights@[j])
                },
                forall|j: int| 0 <= j < i ==> {
                    &&& (#[trigger] biases@[j]).wf()
                    &&& biases@[j].rows == layers@[j + 1].size
                    &&& biases@[j].cols == 1
                    &&& all_in_unit(biases@[j])
                },
            decreases n - i,
        {
            assert(layers@[i as int].size * layers@[i + 1].size <= usize::MAX);
            assert(layers@[i + 1].size * layers@[i as int].size <= usize::MAX) by (nonlinear_arith)
                requires layers@[i as int].size * layers@[i + 1].size <= usize::MAX;
            weights.push(Matrix::random(layers[i + 1].size, layers[i].size));
            biases.push(Matrix::random(layers[i + 1].size, 1));
            i = i + 1;
        }
        Ok(Network { layers, weights, biases, data: Vec::new(), learning_rate })
    }

    /// A network over stored parts with an empty trace; refused unless the
    /// topology is valid, every matrix fits it and the learning rate is
    /// positive.
    pub fn from_parts(
        layers: Vec<Layer>,
        weights: Vec<Matrix<T>>,
        biases: Vec<Matrix<T>>,
        learning_rate: T,
    ) -> (res: Result<Self, NetworkError>)
        ensures
            res is Ok <==> valid_topology(layers@) && shapes_fit(layers@, weights@, biases@)
                && learning_rate.is_positive(),
            res is Ok ==> {
                let n = res->Ok_0;
                &&& n.layers@ == layers@
                &&& n.weights@ == weights@
                &&& n.biases@ == biases@
                &&& n.learning_rate == learning_rate
                &&& n.data@.len() == 0
            },
            res is Err ==> res->Err_0 == if !valid_topology(layers@) {
                NetworkError::InvalidTopology
            } else if !shapes_fit(layers@, weights@, biases@) {
                NetworkError::DimensionMismatch
            } else {
                NetworkError::InvalidLearningRate
            },
    {
        if !is_valid_topology(&layers) {
            return Err(NetworkError::InvalidTopology);
        }
        let n: usize = layers.len() - 1;
        if weights.len() != n || biases.len() != n {
            return Err(NetworkError::DimensionMismatch);
        }
        let mut i: usize = 0;
        while i < n
            invariant
                valid_topology(layers@),
                n == layers.len() - 1,
                weights.len() == n,
                biases.len() == n,
                i <= n,
                forall|j: int| 0 <= j < i ==> {
                    &&& (#[trigger] weights@[j]).wf()
                    &&& weights@[j].rows == layers@[j + 1].size
                    &&& weights@[j].cols == layers@[j].size
                },
                forall|j: int| 0 <= j < i ==> {
                    &&& (#[trigger] biases@[j]).wf()
                    &&& biases@[j].rows == layers@[j + 1].size
                    &&& biases@[j].cols == 1
                },
            decreases n - i,
        {
            let w = &weights[i];
            let b = &biases[i];
            if w.rows != layers[i + 1].size || w.cols != layers[i].size || b.rows != layers[i + 1].size
                || b.cols != 1 {
                return Err(NetworkError::DimensionMismatch);
            }
            match w.rows.checked_mul(w.cols) {
                Some(len) => {
                    if len != w.data.len() {
                        return Err(NetworkError::DimensionMismatch);
                    }
                },
                None => {
                    return Err(NetworkError::DimensionMismatch);
                },
            }
            if b.data.len() != b.rows {
                return Err(NetworkError::DimensionMismatch);
            }
            assert(b.rows * b.cols == b.rows * 1);
            i = i + 1;
        }
        if !learning_rate.positive() {
            return Err(NetworkError::InvalidLearningRate);
        }
        Ok(Network { layers, weights, biases, data: Vec::new(), learning_rate })
    }

    /// One layer of the forward pass: `f(weights * input + bias)`, entry by
    /// entry, where `f` is the activation `act`.
    fn layer_forward(
        weights: &Matrix<T>,
        bias: &Matrix<T>,
        input: &Matrix<T>,
        act: crate::activations::ActivationFunction,
    ) -> (res: Matrix<T>)
        requires
            weights.wf(),
            bias.wf(),
            input.wf(),
            weights.cols == input.rows,
            input.cols == 1,
            bias.rows == weights.rows,
            bias.cols == 1,
        ensures
            res.wf(),
            res.rows == weights.rows,
            res.cols == 1,
            res.data@ == layer_values(weights.view(), bias.data@, input.data@, act),
    {
        assert(weights.rows * input.cols == weights.rows * 1);
        let pre = weights.mul(input).unwrap();
        let z = pre.add(bias).unwrap();
        let res = z.map(|x: T| -> (r: T)
            ensures
                r == x.spec_activate(act),
            { x.activate(act) });
        proof {
            lemma_column_view(*input);
            lemma_column_view(pre);
            assert(res.data@ =~= layer_values(weights.view(), bias.data@, input.data@, act));
        }
        res
    }

    /// The output of a forward pass of `inputs`.
    pub open spec fn forward(&self, inputs: Seq<T>) -> Seq<T> {
        forward_values(
            self.layers@,
            views_of(self.weights@),
            buffers_of(self.biases@),
            inputs,
            (self.layers.len() - 1) as nat,
        )
    }

    /// Runs `inputs` through the network and returns the output layer's
    /// values. The trace of the pass replaces the previous one; weights and
    /// biases are left as they were. Refused unless `inputs` is as wide as
    /// the input layer.
    pub fn feed_forward(&mut self, inputs: Vec<T>) -> (res: Result<Vec<T>, NetworkError>)
        requires
            old(self).wf(),
        ensures
            final(self).wf(),
            final(self).layers == old(self).layers,
            final(self).weights == old(self).weights,
            final(self).biases == old(self).biases,
            final(self).learning_rate == old(self).learning_rate,
            (inputs.len() == old(self).layers@[0].size) <==> res is Ok,
            res is Err ==> res->Err_0 == NetworkError::InputSizeMismatch && final(self).data
                == old(self).data,
            res is Ok ==> {
                let trace = final(self).data@;
                &&& is_trace(final(self).layers@, trace)
                &&& forall|k: int|
                    0 <= k < trace.len() ==> (#[trigger] trace[k]).data@ == forward_values(
                        final(self).layers@,
                        views_of(final(self).weights@),
                        buffers_of(final(self).biases@),
                        inputs@,
                        k as nat,
                    )
                &&& (res->Ok_0)@ == old(self).forward(inputs@)
                &&& (res->Ok_0)@ == trace.last().data@
                &&& (res->Ok_0)@.len() == final(self).output_size()
            },
    {
        if inputs.len() != self.layers[0].size {
            return Err(NetworkError::InputSizeMismatch);
        }
        let ghost given = inputs@;
        let n: usize = self.layers.len() - 1;
        let mut trace: Vec<Matrix<T>> = Vec::with_capacity(n + 1);
        trace.push(Matrix::column(inputs));
        let mut i: usize = 0;
        while i < n
            invariant
                self.wf(),
                n == self.layers.len() - 1,
                i <= n,
                trace.len() == i + 1,
                forall|j: int|
                    0 <= j <= i ==> (#[trigger] trace@[j]).data@ == forward_values(
                        self.layers@,
                        views_of(self.weights@),
                        buffers_of(self.biases@),
                        given,
                        j as nat,
                    ),
                forall|j: int| 0 <= j <= i ==> {
                    &&& (#[trigger] trace@[j]).wf()
                    &&& trace@[j].rows == self.layers@[j].size
                    &&& trace@[j].cols == 1
                },
            decreases n - i,
        {
            assert(self.layers@[i + 1].activation is Some);
            let act = self.layers[i + 1].activation.unwrap();
            assert(self.weights@[i as int].wf() && self.biases@[i as int].wf());
            let next = Self::layer_forward(&self.weights[i], &self.biases[i], &trace[i], act);
            trace.push(next);
            i = i + 1;
        }
        let out = copy_values(&trace[n].data);
        self.data = trace;
        Ok(out)
    }

    /// The trace of the last forward pass fits the network.
    pub open spec fn has_trace(&self) -> bool {
        is_trace(self.layers@, self.data@)
    }

    /// One backward pass for the example whose forward pass produced
    /// `outputs` and left the trace. Walking from the last layer to the
    /// first, each step scales gradient times error by the learning rate,
    /// adds `gradient * trace[i]^T` to `weights[i]` and the gradient to
    /// `biases[i]`, then carries the error back through the updated
    /// `weights[i]`; the next gradient is the derivative of layer `i + 1`'s
    /// activation taken on `trace[i]`. Refused, with nothing changed, when
    /// `targets` is not as wide as the output layer or as `outputs`, or when
    /// there is no fitting trace.
    pub fn back_propogate(&mut self, outputs: Vec<T>, targets: Vec<T>) -> (res: Result<(), NetworkError>)
        requires
            old(self).wf(),
        ensures
            final(self).wf(),
            final(self).layers == old(self).layers,
            final(self).data == old(self).data,
            final(self).learning_rate == old(self).learning_rate,
            res is Ok <==> {
                &&& targets.len() == old(self).output_size()
                &&& outputs.len() == old(self).output_size()
                &&& old(self).has_trace()
            },
            res is Ok ==> (views_of(final(self).weights@), buffers_of(final(self).biases@))
                == backward_pass(
                old(self).layers@,
                buffers_of(old(self).data@),
                old(self).learning_rate,
                views_of(old(self).weights@),
                buffers_of(old(self).biases@),
                difference_of(targets@, outputs@),
                Seq::new(
                    outputs@.len(),
                    |r: int| outputs@[r].spec_derivative(old(self).layers@.last().activation.unwrap()),
                ),
                (old(self).layers.len() - 1) as nat,
            ),
            res is Err ==> {
                &&& res->Err_0 == if targets.len() != old(self).output_size() || outputs.len() != targets.len() {
                    NetworkError::TargetSizeMismatch
                } else {
                    NetworkError::DimensionMismatch
                }
                &&& final(self).weights == old(self).weights
                &&& final(self).biases == old(self).biases
            },
    {
        let last: usize = self.layers.len() - 1;
        if targets.len() != self.layers[last].size || outputs.len() != targets.len() {
            return Err(NetworkError::TargetSizeMismatch);
        }
        if !self.trace_fits() {
            return Err(NetworkError::DimensionMismatch);
        }
        let ghost outs = outputs@;
        let ghost tr = buffers_of(self.data@);
        let out_col = Matrix::column(outputs);
        let target_col = Matrix::column(targets);
        let mut errors = target_col.sub(&out_col).unwrap();
        assert(self.layers@[last as int].activation is Some);
        let act_last = self.layers[last].activation.unwrap();
        let mut gradients = out_col.map(|y: T| -> (r: T)
            ensures
                r == y.spec_derivative(act_last),
            { y.derivative(act_last) });
        let lr = self.learning_rate;
        let ghost goal = backward_pass(
            self.layers@,
            tr,
            lr,
            views_of(self.weights@),
            buffers_of(self.biases@),
            difference_of(targets@, outs),
            Seq::new(outs.len(), |r: int| outs[r].spec_derivative(self.layers@.last().activation.unwrap())),
            last as nat,
        );
        assert(gradients.data@ =~= Seq::new(
            outs.len(),
            |r: int| outs[r].spec_derivative(self.layers@.last().activation.unwrap()),
        ));
        let mut i: usize = last;
        while i > 0
            invariant
                self.wf(),
                self.has_trace(),
                self.layers == old(self).layers,
                self.data == old(self).data,
                tr == buffers_of(self.data@),
                last == self.layers.len() - 1,
                self.learning_rate == lr,
                i <= last,
                errors.wf(),
                errors.rows == self.layers@[i as int].size,
                errors.cols == 1,
                gradients.wf(),
                gradients.rows == self.layers@[i as int].size,
                gradients.cols == 1,
                backward_pass(
                    self.layers@,
                    tr,
                    lr,
                    views_of(self.weights@),
                    buffers_of(self.biases@),
                    errors.data@,
                    gradients.data@,
                    i as nat,
                ) == goal,
            decreases i,
        {
            i = i - 1;
            let ghost k = i as int;
            let ghost w0 = views_of(self.weights@);
            let ghost b0 = buffers_of(self.biases@);
            let ghost e0 = errors.data@;
            let ghost g0 = gradients.data@;
            let ghost x = tr[k];
            let ghost sv = Seq::new(g0.len(), |r: int| g0[r].spec_times(e0[r]).spec_times(lr));
            let prod = gradients.dot(&errors).unwrap();
            let scaled = prod.map(|v: T| -> (r: T)
                ensures
                    r == v.spec_times(lr),
                { v.times(lr) });
            let trace_row = self.data[i].transpose();
            assert(self.weights@[k].wf());
            let delta = scaled.mul(&trace_row).unwrap();
            let new_weights = self.weights[i].add(&delta).unwrap();
            let new_bias = self.biases[i].add(&scaled).unwrap();
            let ghost n = self.layers@[k + 1].size as int;
            let ghost m = self.layers@[k].size as int;
            let ghost nw = Seq::new(
                w0[k].len(),
                |r: int| Seq::new(x.len(), |c: int| w0[k][r][c].spec_plus(inner(seq![sv[r]], seq![x[c]]))),
            );
            let ghost nb = Seq::new(b0[k].len(), |r: int| b0[k][r].spec_plus(sv[r]));
            proof {
                assert(scaled.data@ =~= sv);
                lemma_column_view(scaled);
                lemma_column_view(self.data@[k]);
                assert forall|r: int, c: int| 0 <= r < n && 0 <= c < m implies #[trigger] new_weights.view()[r][c]
                    == nw[r][c] by {
                    lemma_row_major(r, c, n, m);
                    assert(scaled.view()[r] =~= seq![sv[r]]);
                    assert(column(trace_row.view(), c) =~= seq![x[c]]);
                    assert(delta.view()[r][c] == inner(scaled.view()[r], column(trace_row.view(), c)));
                }
                assert forall|r: int| 0 <= r < n implies #[trigger] new_weights.view()[r] == nw[r] by {
                    assert(new_weights.view()[r] =~= nw[r]);
                }
                assert(new_weights.view() =~= nw);
                assert(new_bias.data@ =~= nb);
            }
            self.weights.set(i, new_weights);
            self.biases.set(i, new_bias);
            proof {
                assert(views_of(self.weights@) =~= w0.update(k, nw));
                assert(buffers_of(self.biases@) =~= b0.update(k, nb));
            }
            let back = self.weights[i].transpose();
            assert(back.rows * errors.cols == back.rows * 1);
            let new_errors = back.mul(&errors).unwrap();
            assert(self.layers@[i + 1].activation is Some);
            let act = self.layers[i + 1].activation.unwrap();
            let new_gradients = self.data[i].map(|y: T| -> (r: T)
                ensures
                    r == y.spec_derivative(act),
                { y.derivative(act) });
            proof {
                let ne = Seq::new(x.len(), |c: int| inner(column(nw, c), e0));
                let ng = Seq::new(x.len(), |c: int| x[c].spec_derivative(act));
                lemma_column_view(errors);
                lemma_column_view(new_errors);
                assert forall|c: int| 0 <= c < m implies #[trigger] new_errors.data@[c] == ne[c] by {
                    assert(back.view()[c] =~= column(nw, c));
                    assert(new_errors.view()[c][0] == inner(back.view()[c], column(errors.view(), 0)));
                }
                assert(new_errors.data@ =~= ne);
                assert(new_gradients.data@ =~= ng);
            }
            errors = new_errors;
            gradients = new_gradients;
        }
        Ok(())
    }

    /// Whether the trace of the last forward pass fits the network.
    fn trace_fits(&self) -> (res: bool)
        requires
            self.wf(),
        ensures
            res == self.has_trace(),
    {
        if self.data.len() != self.layers.len() {
            return false;
        }
        let mut i: usize = 0;
        while i < self.data.len()
            invariant
                self.wf(),
                self.data.len() == self.layers.len(),
                i <= self.data.len(),
                forall|j: int| 0 <= j < i ==> {
                    &&& (#[trigger] self.data@[j]).wf()
                    &&& self.data@[j].rows == self.layers@[j].size
                    &&& self.data@[j].cols == 1
                },
            decreases self.data.len() - i,
        {
            let m = &self.data[i];
            if m.rows != self.layers[i].size || m.cols != 1 || m.data.len() != m.rows {
                return false;
            }
            assert(m.rows * m.cols == m.rows * 1);
            i = i + 1;
        }
        true
    }

    /// A training set fits the network: as many targets as inputs, every
    /// input as wide as the input layer, every target as wide as the output
    /// layer.
    pub open spec fn fits_examples(&self, inputs: Seq<Vec<T>>, targets: Seq<Vec<T>>) -> bool {
        &&& all_of_width(inputs, self.layers@[0].size as nat)
        &&& inputs.len() == targets.len()
        &&& all_of_width(targets, self.output_size())
    }

    /// The error a training call with this set is refused with.
    pub open spec fn examples_error(&self, inputs: Seq<Vec<T>>, targets: Seq<Vec<T>>) -> NetworkError {
        if !all_of_width(inputs, self.layers@[0].size as nat) {
            NetworkError::InputSizeMismatch
        } else {
            NetworkError::TargetSizeMismatch
        }
    }

    fn check_examples(&self, inputs: &Vec<Vec<T>>, targets: &Vec<Vec<T>>) -> (res: Result<(), NetworkError>)
        requires
            self.wf(),
        ensures
            res is Ok <==> self.fits_examples(inputs@, targets@),
            res is Err ==> res->Err_0 == self.examples_error(inputs@, targets@),
    {
        if !widths_match(inputs, self.layers[0].size) {
            return Err(NetworkError::InputSizeMismatch);
        }
        let last: usize = self.layers.len() - 1;
        if inputs.len() != targets.len() || !widths_match(targets, self.layers[last].size) {
            return Err(NetworkError::TargetSizeMismatch);
        }
        Ok(())
    }

    /// One forward and one backward pass for each example, in order.
    fn run_epoch(&mut self, inputs: &Vec<Vec<T>>, targets: &Vec<Vec<T>>)
        requires
            old(self).wf(),
            old(self).fits_examples(inputs@, targets@),
        ensures
            final(self).wf(),
            final(self).layers == old(self).layers,
            final(self).learning_rate == old(self).learning_rate,
            inputs.len() == 0 ==> *final(self) == *old(self),
            final(self).state() == examples_step(
                old(self).layers@,
                old(self).learning_rate,
                old(self).state().0,
                old(self).state().1,
                inputs@,
                targets@,
                inputs.len() as nat,
            ),
    {
        let ghost start = self.state();
        let mut j: usize = 0;
        while j < inputs.len()
            invariant
                self.wf(),
                self.layers == old(self).layers,
                self.learning_rate == old(self).learning_rate,
                self.fits_examples(inputs@, targets@),
                inputs.len() == 0 ==> *self == *old(self),
                j <= inputs.len(),
                start == old(self).state(),
                self.state() == examples_step(
                    self.layers@,
                    self.learning_rate,
                    start.0,
                    start.1,
                    inputs@,
                    targets@,
                    j as nat,
                ),
            decreases inputs.len() - j,
        {
            assert(inputs@[j as int].len() == self.layers@[0].size);
            assert(targets@[j as int].len() == self.output_size());
            let ghost before = self.state();
            let ghost input = inputs@[j as int]@;
            let outputs = self.feed_forward(copy_values(&inputs[j])).unwrap();
            proof {
                assert(buffers_of(self.data@) =~= Seq::new(
                    self.layers@.len(),
                    |k: int| forward_values(self.layers@, before.0, before.1, input, k as nat),
                ));
            }
            self.back_propogate(outputs, copy_values(&targets[j])).unwrap();
            j = j + 1;
        }
    }

    /// One epoch: a forward and a backward pass for each example, in the
    /// order given. Refused, with nothing changed, unless the set fits the
    /// network.
    pub fn train_epoch(&mut self, inputs: &Vec<Vec<T>>, targets: &Vec<Vec<T>>) -> (res: Result<(), NetworkError>)
        requires
            old(self).wf(),
        ensures
            final(self).wf(),
            final(self).layers == old(self).layers,
            final(self).learning_rate == old(self).learning_rate,
            res is Ok <==> old(self).fits_examples(inputs@, targets@),
            res is Err ==> res->Err_0 == old(self).examples_error(inputs@, targets@) && *final(self)
                == *old(self),
            inputs.len() == 0 ==> *final(self) == *old(self),
            res is Ok ==> final(self).state() == examples_step(
                old(self).layers@,
                old(self).learning_rate,
                old(self).state().0,
                old(self).state().1,
                inputs@,
                targets@,
                inputs.len() as nat,
            ),
    {
        match self.check_examples(inputs, targets) {
            Ok(()) => {},
            Err(e) => {
                return Err(e);
            },
        }
        self.run_epoch(inputs, targets);
        Ok(())
    }

    /// Trains for `epochs` epochs on the examples, strictly in order, with
    /// no shuffling. Refused, with nothing changed, unless the set fits the
    /// network.
    pub fn train(&mut self, inputs: &Vec<Vec<T>>, targets: &Vec<Vec<T>>, epochs: u16) -> (res: Result<(), NetworkError>)
        requires
            old(self).wf(),
        ensures
            final(self).wf(),
            final(self).layers == old(self).layers,
            final(self).learning_rate == old(self).learning_rate,
            res is Ok <==> old(self).fits_examples(inputs@, targets@),
            res is Err ==> res->Err_0 == old(self).examples_error(inputs@, targets@) && *final(self)
                == *old(self),
            epochs == 0 || inputs.len() == 0 ==> *final(self) == *old(self),
            res is Ok ==> final(self).state() == epochs_step(
                old(self).layers@,
                old(self).learning_rate,
                old(self).state().0,
                old(self).state().1,
                inputs@,
                targets@,
                epochs as nat,
            ),
    {
        match self.check_examples(inputs, targets) {
            Ok(()) => {},
            Err(e) => {
                return Err(e);
            },
        }
        let mut epoch: u16 = 0;
        while epoch < epochs
            invariant
                self.wf(),
                self.layers == old(self).layers,
                self.learning_rate == old(self).learning_rate,
                self.fits_examples(inputs@, targets@),
                inputs.len() == 0 || epoch == 0 ==> *self == *old(self),
                epoch <= epochs,
                self.state() == epochs_step(
                    old(self).layers@,
                    old(self).learning_rate,
                    old(self).state().0,
                    old(self).state().1,
                    inputs@,
                    targets@,
                    epoch as nat,
                ),
            decreases epochs - epoch,
        {
            self.run_epoch(inputs, targets);
            epoch = epoch + 1;
        }
        Ok(())
    }
}

/// Whether every vector in `vs` has `width` entries.
fn widths_match<T>(vs: &Vec<Vec<T>>, width: usize) -> (res: bool)
    ensures
        res == all_of_width(vs@, width as nat),
{
    let mut j: usize = 0;
    while j < vs.len()
        invariant
            j <= vs.len(),
            forall|k: int| 0 <= k < j ==> (#[trigger] vs@[k]).len() == width,
        decreases vs.len() - j,
    {
        if vs[j].len() != width {
            return false;
        }
        j = j + 1;
    }
    true
}

} // verus!
