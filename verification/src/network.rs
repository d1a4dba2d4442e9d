//! The trainable feed-forward network: construction, forward pass,
//! backward pass and the training loop.
//!
//! The network owns one weight matrix and one bias column per layer
//! transition, a learning rate, and the cache of layer activations written
//! by the most recent forward pass and consumed by the next backward pass.
//! The scalar arithmetic and the activation pair are supplied by the
//! caller as closures; every contract relates the new state to the old one
//! through those closures' postconditions.
//!
//! Two details of the backward pass are deliberate design decisions.
//! First, the update rule is the standard stochastic-gradient one: for
//! each transition, taken from the last to the first, the outer product of
//! the scaled gradient column with the transposed cached input is added to
//! the weight matrix itself — never to its transpose, whose shape only
//! matches for square transitions — the gradient column is added to the
//! bias, and the error column is pushed backward through the updated
//! weight's transpose. Second, the initial gradient applies the activation
//! derivative to the output column, not to the error column: the
//! derivative convention (see [`crate::activation`]) admits only already
//! activated values, and an error entry is no activation. Seeding the
//! gradient from the errors would square the error factor, making every
//! update term of one sign and driving the weights into saturation.

use vstd::prelude::*;

use crate::activation::Activation;
use crate::matrix::Matrix;
use crate::matrix::col;
use crate::matrix::column_view;
use crate::matrix::entrywise_rel;
use crate::matrix::fold_rel;
use crate::matrix::map_rel;
use crate::matrix::ncols;
use crate::matrix::product_rel;
use crate::matrix::random_rel;
use crate::matrix::rect;
use crate::matrix::transpose_view;
use crate::rng::Rng;
use crate::rng::lemma_state_compose;
use crate::rng::state_after;

verus! {

/// The ways the network can be misused.
#[derive(Clone, Copy, Debug, PartialEq, Eq, Structural)]
pub enum NetworkError {
    /// A topology needs at least two layers.
    TopologyTooShort,
    /// Every layer needs at least one neuron.
    ZeroLayer,
    /// The input vector's length differs from the first layer size.
    InputSizeMismatch,
    /// The output vector's length differs from the last layer size.
    OutputSizeMismatch,
    /// The target vector's length differs from the last layer size.
    TargetSizeMismatch,
    /// Training was given differently many inputs and targets.
    SampleCountMismatch,
    /// The backward pass needs the activation cache of a forward pass.
    NoForwardPass,
}

/// The number of generator draws consumed by the first `k` layer
/// transitions: transition `t` draws `layers[t + 1] * layers[t]` weight
/// entries and `layers[t + 1]` bias entries.
pub open spec fn init_draws(layers: Seq<usize>, k: int) -> nat
    decreases k,
{
    if k <= 0 {
        0
    } else {
        (init_draws(layers, k - 1) + layers[k] * (layers[k - 1] + 1)) as nat
    }
}

/// Column `y` arises from column `x` through one layer: a matrix product
/// of `w` with `x`, an entrywise sum with the bias `b`, and the activation
/// applied to every entry.
pub open spec fn layer_step_rel<T, FA: Fn(T, T) -> T, FM: Fn(T, T) -> T, FF: Fn(T) -> T>(
    plus: FA,
    times: FM,
    act: FF,
    zero: T,
    w: Seq<Seq<T>>,
    x: Seq<Seq<T>>,
    b: Seq<Seq<T>>,
    y: Seq<Seq<T>>,
) -> bool {
    exists|prod: Seq<Seq<T>>, s: Seq<Seq<T>>|
        {
            &&& product_rel(plus, times, zero, w, x, prod)
            &&& #[trigger] entrywise_rel(plus, prod, b, s)
            &&& map_rel(act, s, y)
        }
}

/// Weights `w1` and biases `b1` arise from `w0` and `b0` by one gradient
/// update with gradient column `g` against the cached input column `x`:
/// the product of `g` with the transpose of `x` is added to the weights,
/// and `g` itself is added to the bias.
pub open spec fn gradient_update_rel<T, FA: Fn(T, T) -> T, FM: Fn(T, T) -> T>(
    plus: FA,
    times: FM,
    zero: T,
    g: Seq<Seq<T>>,
    x: Seq<Seq<T>>,
    w0: Seq<Seq<T>>,
    w1: Seq<Seq<T>>,
    b0: Seq<Seq<T>>,
    b1: Seq<Seq<T>>,
) -> bool {
    &&& g.len() == w0.len()
    &&& ncols(g) == 1
    &&& exists|delta: Seq<Seq<T>>|
        {
            &&& #[trigger] product_rel(plus, times, zero, g, transpose_view(x), delta)
            &&& entrywise_rel(plus, w0, delta, w1)
        }
    &&& entrywise_rel(plus, b0, g, b1)
}

/// Column `g` is the scaled gradient built from the activated column `x`
/// and the error column `e`: the derivative is applied to `x`, the result
/// is multiplied entrywise with `e`, and `scale` rescales every entry.
pub open spec fn scaled_gradient_rel<T, FM: Fn(T, T) -> T, FSc: Fn(T) -> T, FD: Fn(T) -> T>(
    times: FM,
    scale: FSc,
    deriv: FD,
    x: Seq<Seq<T>>,
    e: Seq<Seq<T>>,
    g: Seq<Seq<T>>,
) -> bool {
    exists|d1: Seq<Seq<T>>, t1: Seq<Seq<T>>|
        {
            &&& map_rel(deriv, x, d1)
            &&& #[trigger] entrywise_rel(times, d1, e, t1)
            &&& map_rel(scale, t1, g)
        }
}

/// One whole backward pass, witnessed by the gradient columns `gs[k]` and
/// the error columns `es[k]` entering each transition `k`, taken from the
/// last transition to the first over a topology of `layers_len` layers:
/// the last error column is the entrywise difference of the target and
/// output columns; every earlier error column is the error pushed through
/// the already updated next weight matrix's transpose; the last gradient
/// is built from the output column, every earlier one from the cached
/// activation of the layer above; and every transition's weights and bias
/// absorb its gradient against its cached input column.
pub open spec fn backward_pass_rel<
    T,
    FA: Fn(T, T) -> T,
    FS: Fn(T, T) -> T,
    FM: Fn(T, T) -> T,
    FSc: Fn(T) -> T,
    FD: Fn(T) -> T,
>(
    plus: FA,
    minus: FS,
    times: FM,
    scale: FSc,
    deriv: FD,
    zero: T,
    outputs: Seq<T>,
    targets: Seq<T>,
    cache: Seq<Seq<Seq<T>>>,
    w0: Seq<Seq<Seq<T>>>,
    w1: Seq<Seq<Seq<T>>>,
    b0: Seq<Seq<Seq<T>>>,
    b1: Seq<Seq<Seq<T>>>,
    gs: Seq<Seq<Seq<T>>>,
    es: Seq<Seq<Seq<T>>>,
    layers_len: int,
) -> bool {
    &&& gs.len() == layers_len - 1
    &&& es.len() == layers_len - 1
    &&& entrywise_rel(minus, column_view(targets), column_view(outputs), es[layers_len - 2])
    &&& forall|k: int|
        0 <= k < layers_len - 2 ==> product_rel(
            plus,
            times,
            zero,
            transpose_view(w1[k + 1]),
            es[k + 1],
            #[trigger] es[k],
        )
    &&& scaled_gradient_rel(
        times,
        scale,
        deriv,
        column_view(outputs),
        es[layers_len - 2],
        gs[layers_len - 2],
    )
    &&& forall|k: int|
        0 <= k < layers_len - 2 ==> scaled_gradient_rel(
            times,
            scale,
            deriv,
            cache[k + 1],
            es[k],
            #[trigger] gs[k],
        )
    &&& forall|k: int|
        0 <= k < layers_len - 1 ==> gradient_update_rel(
            plus,
            times,
            zero,
            #[trigger] gs[k],
            cache[k],
            w0[k],
            w1[k],
            b0[k],
            b1[k],
        )
}

/// One whole forward pass over weights `ws` and biases `bs`: the cache
/// holds one column per layer, the first being exactly the input column,
/// each later one arising from the previous by one layer step, and `out`
/// reads the entries of the last column.
pub open spec fn forward_pass_rel<T, FA: Fn(T, T) -> T, FM: Fn(T, T) -> T, FF: Fn(T) -> T>(
    plus: FA,
    times: FM,
    actf: FF,
    zero: T,
    topology: Seq<usize>,
    ws: Seq<Seq<Seq<T>>>,
    bs: Seq<Seq<Seq<T>>>,
    input: Seq<T>,
    cache: Seq<Seq<Seq<T>>>,
    out: Seq<T>,
) -> bool {
    &&& cache.len() == topology.len()
    &&& forall|k: int|
        0 <= k < topology.len() ==> {
            &&& (#[trigger] cache[k]).len() == topology[k]
            &&& ncols(cache[k]) == 1
        }
    &&& cache[0] == column_view(input)
    &&& forall|k: int|
        0 <= k < topology.len() - 1 ==> layer_step_rel(
            plus,
            times,
            actf,
            zero,
            ws[k],
            cache[k],
            bs[k],
            #[trigger] cache[k + 1],
        )
    &&& out.len() == topology[topology.len() - 1]
    &&& forall|t: int| 0 <= t < out.len() ==> #[trigger] out[t] == cache[topology.len() - 1][t][0]
}

/// One training step on one sample: a forward pass from the state
/// `(w0, b0)` leaves the cache `c1` and some output, and the backward
/// pass on that output against `target` carries the state to `(w1, b1)`,
/// leaving the cache in place.
pub open spec fn sample_step_rel<
    T,
    FA: Fn(T, T) -> T,
    FS: Fn(T, T) -> T,
    FM: Fn(T, T) -> T,
    FSc: Fn(T) -> T,
    FF: Fn(T) -> T,
    FD: Fn(T) -> T,
>(
    plus: FA,
    minus: FS,
    times: FM,
    scale: FSc,
    actf: FF,
    deriv: FD,
    zero: T,
    topology: Seq<usize>,
    w0: Seq<Seq<Seq<T>>>,
    b0: Seq<Seq<Seq<T>>>,
    input: Seq<T>,
    target: Seq<T>,
    w1: Seq<Seq<Seq<T>>>,
    b1: Seq<Seq<Seq<T>>>,
    c1: Seq<Seq<Seq<T>>>,
) -> bool {
    exists|out: Seq<T>, gs: Seq<Seq<Seq<T>>>, es: Seq<Seq<Seq<T>>>|
        {
            &&& forward_pass_rel(plus, times, actf, zero, topology, w0, b0, input, c1, out)
            &&& #[trigger] backward_pass_rel(
                plus,
                minus,
                times,
                scale,
                deriv,
                zero,
                out,
                target,
                c1,
                w0,
                w1,
                b0,
                b1,
                gs,
                es,
                topology.len() as int,
            )
        }
}

/// One whole training run, witnessed by the states after every step.
/// A run of `epochs` epochs over the given samples performs exactly
/// `epochs * inputs.len()` training steps — one forward pass and one
/// backward pass each — taking the samples in the given, fixed order
/// within every epoch, with no early exit and no shuffling: `whist[t]`
/// and `bhist[t]` are the weights and biases after `t` steps, starting
/// from `(w0, b0, c0)` and ending at `(w1, b1, c1)`, and `chist[t]` is
/// the activation cache the `t`-th step leaves behind.
pub open spec fn train_history_rel<
    T,
    FA: Fn(T, T) -> T,
    FS: Fn(T, T) -> T,
    FM: Fn(T, T) -> T,
    FSc: Fn(T) -> T,
    FF: Fn(T) -> T,
    FD: Fn(T) -> T,
>(
    plus: FA,
    minus: FS,
    times: FM,
    scale: FSc,
    actf: FF,
    deriv: FD,
    zero: T,
    topology: Seq<usize>,
    inputs: Seq<Vec<T>>,
    targets: Seq<Vec<T>>,
    epochs: int,
    w0: Seq<Seq<Seq<T>>>,
    b0: Seq<Seq<Seq<T>>>,
    c0: Seq<Seq<Seq<T>>>,
    w1: Seq<Seq<Seq<T>>>,
    b1: Seq<Seq<Seq<T>>>,
    c1: Seq<Seq<Seq<T>>>,
    whist: Seq<Seq<Seq<Seq<T>>>>,
    bhist: Seq<Seq<Seq<Seq<T>>>>,
    chist: Seq<Seq<Seq<Seq<T>>>>,
) -> bool {
    let steps = epochs * inputs.len();
    &&& whist.len() == steps + 1
    &&& bhist.len() == steps + 1
    &&& chist.len() == steps + 1
    &&& whist[0] == w0
    &&& bhist[0] == b0
    &&& chist[0] == c0
    &&& whist[steps] == w1
    &&& bhist[steps] == b1
    &&& chist[steps] == c1
    &&& forall|t: int|
        0 <= t < steps ==> sample_step_rel(
            plus,
            minus,
            times,
            scale,
            actf,
            deriv,
            zero,
            topology,
            whist[t],
            bhist[t],
            inputs[t % (inputs.len() as int)]@,
            targets[t % (inputs.len() as int)]@,
            #[trigger] whist[t + 1],
            bhist[t + 1],
            chist[t + 1],
        )
}

/// The input and target vectors conform to the topology: equally many of
/// each, every input as long as the first layer, every target as long as
/// the last.
pub open spec fn samples_conform<T>(
    layers: Seq<usize>,
    inputs: Seq<Vec<T>>,
    targets: Seq<Vec<T>>,
) -> bool {
    &&& inputs.len() == targets.len()
    &&& forall|j: int| 0 <= j < inputs.len() ==> (#[trigger] inputs[j])@.len() == layers[0]
    &&& forall|j: int|
        0 <= j < targets.len() ==> (#[trigger] targets[j])@.len() == layers[layers.len() - 1]
}

/// The trainable model: a topology, one weight matrix and one bias column
/// per transition, the learning rate, the fold seed for matrix products,
/// and the activation cache of the most recent forward pass.
#[derive(Debug)]
pub struct Network<T> {
    layers: Vec<usize>,
    weights: Vec<Matrix<T>>,
    biases: Vec<Matrix<T>>,
    data: Vec<Matrix<T>>,
    learning_rate: T,
    zero: T,
}

impl<T: Copy> Network<T> {
    /// The topology: the ordered layer sizes.
    pub closed spec fn topology(&self) -> Seq<usize> {
        self.layers@
    }

    /// The grids of the weight matrices, one per transition.
    pub closed spec fn weights_view(&self) -> Seq<Seq<Seq<T>>> {
        Seq::new(self.weights@.len(), |k: int| self.weights@[k]@)
    }

    /// The grids of the bias columns, one per transition.
    pub closed spec fn biases_view(&self) -> Seq<Seq<Seq<T>>> {
        Seq::new(self.biases@.len(), |k: int| self.biases@[k]@)
    }

    /// The grids of the cached layer activations, one column per layer;
    /// empty until a forward pass has run.
    pub closed spec fn cache_view(&self) -> Seq<Seq<Seq<T>>> {
        Seq::new(self.data@.len(), |k: int| self.data@[k]@)
    }

    /// The stored learning rate.
    pub closed spec fn rate_spec(&self) -> T {
        self.learning_rate
    }

    /// The stored additive identity used to seed product folds.
    pub closed spec fn zero_spec(&self) -> T {
        self.zero
    }

    /// The cache holds one well-shaped activation column per layer.
    pub closed spec fn cache_full(&self) -> bool {
        &&& self.data@.len() == self.layers@.len()
        &&& forall|k: int|
            0 <= k < self.data@.len() ==> {
                &&& (#[trigger] self.data@[k]).wf()
                &&& self.data@[k]@.len() == self.layers@[k]
                &&& ncols(self.data@[k]@) == 1
            }
    }

    /// The network is internally consistent: at least two layers, every
    /// layer of positive size, one weight matrix of shape
    /// `layers[k + 1]` by `layers[k]` and one bias column of shape
    /// `layers[k + 1]` by `1` per transition, and a cache that is either
    /// empty or full.
    pub closed spec fn wf(&self) -> bool {
        &&& self.layers@.len() >= 2
        &&& forall|i: int| 0 <= i < self.layers@.len() ==> #[trigger] self.layers@[i] >= 1
        &&& self.weights@.len() == self.layers@.len() - 1
        &&& self.biases@.len() == self.layers@.len() - 1
        &&& forall|k: int|
            0 <= k < self.weights@.len() ==> {
                &&& (#[trigger] self.weights@[k]).wf()
                &&& self.weights@[k]@.len() == self.layers@[k + 1]
                &&& ncols(self.weights@[k]@) == self.layers@[k]
            }
        &&& forall|k: int|
            0 <= k < self.biases@.len() ==> {
                &&& (#[trigger] self.biases@[k]).wf()
                &&& self.biases@[k]@.len() == self.layers@[k + 1]
                &&& ncols(self.biases@[k]@) == 1
            }
        &&& (self.data@.len() == 0 || self.cache_full())
    }

    /// Everything but the activation cache agrees between two states:
    /// topology, weights, biases, learning rate and fold seed.
    pub open spec fn same_structure(&self, other: &Network<T>) -> bool {
        &&& self.topology() == other.topology()
        &&& self.weights_view() == other.weights_view()
        &&& self.biases_view() == other.biases_view()
        &&& self.rate_spec() == other.rate_spec()
        &&& self.zero_spec() == other.zero_spec()
    }

    /// The ordered layer sizes.
    pub fn layer_sizes(&self) -> (r: &Vec<usize>)
        ensures
            r@ == self.topology(),
    {
        &self.layers
    }

    /// The stored learning rate.
    pub fn rate(&self) -> (r: T)
        ensures
            r == self.rate_spec(),
    {
        self.learning_rate
    }

    /// Builds a network for the given topology: one weight matrix of shape
    /// `layers[k + 1]` by `layers[k]` and one bias column of shape
    /// `layers[k + 1]` by `1` per adjacent pair of layer sizes, every
    /// entry drawn from the generator and converted by `conv`, weight
    /// matrix before bias column, transitions in order. Construction
    /// succeeds exactly when the topology has at least two layers, all of
    /// positive size; nothing is drawn otherwise.
    pub fn new<F: Fn(u64) -> T>(
        layers: Vec<usize>,
        learning_rate: T,
        zero: T,
        rng: &mut Rng,
        conv: &F,
    ) -> (r: Result<Network<T>, NetworkError>)
        requires
            forall|x: u64| #[trigger] call_requires(*conv, (x,)),
            forall|i: int|
                0 <= i < layers@.len() - 1 ==> (#[trigger] layers@[i]) * layers@[i + 1]
                    <= usize::MAX,
        ensures
            r.is_ok() <==> (layers@.len() >= 2 && (forall|i: int|
                0 <= i < layers@.len() ==> #[trigger] layers@[i] >= 1)),
            match r {
                Ok(n) => {
                    &&& n.wf()
                    &&& n.topology() == layers@
                    &&& n.rate_spec() == learning_rate
                    &&& n.zero_spec() == zero
                    &&& n.cache_view().len() == 0
                    &&& final(rng)@ == state_after(
                        old(rng)@,
                        init_draws(layers@, layers@.len() - 1),
                    )
                    &&& forall|k: int|
                        0 <= k < layers@.len() - 1 ==> #[trigger] random_rel(
                            *conv,
                            state_after(old(rng)@, init_draws(layers@, k)),
                            n.weights_view()[k],
                        )
                    &&& forall|k: int|
                        0 <= k < layers@.len() - 1 ==> #[trigger] random_rel(
                            *conv,
                            state_after(
                                old(rng)@,
                                (init_draws(layers@, k) + layers@[k + 1] * layers@[k]) as nat,
                            ),
                            n.biases_view()[k],
                        )
                },
                Err(e) => {
                    &&& final(rng)@ == old(rng)@
                    &&& (e == NetworkError::TopologyTooShort <==> layers@.len() < 2)
                    &&& (e == NetworkError::ZeroLayer <==> (layers@.len() >= 2 && exists|i: int|
                        0 <= i < layers@.len() && #[trigger] layers@[i] == 0))
                },
            },
    {
        if layers.len() < 2 {
            return Err(NetworkError::TopologyTooShort);
        }
        let mut i: usize = 0;
        while i < layers.len()
            invariant
                layers@.len() >= 2,
                0 <= i <= layers@.len(),
                forall|t: int| 0 <= t < i ==> #[trigger] layers@[t] >= 1,
            decreases layers@.len() - i,
        {
            if layers[i] == 0 {
                return Err(NetworkError::ZeroLayer);
            }
            i += 1;
        }
        let ghost s0: u64 = rng@;
        let mut weights: Vec<Matrix<T>> = Vec::new();
        let mut biases: Vec<Matrix<T>> = Vec::new();
        let mut k: usize = 0;
        proof {
            assert(init_draws(layers@, 0) == 0);
        }
        while k < layers.len() - 1
            invariant
                layers@.len() >= 2,
                0 <= k <= layers@.len() - 1,
                forall|t: int| 0 <= t < layers@.len() ==> #[trigger] layers@[t] >= 1,
                forall|i: int|
                    0 <= i < layers@.len() - 1 ==> (#[trigger] layers@[i]) * layers@[i + 1]
                        <= usize::MAX,
                forall|x: u64| #[trigger] call_requires(*conv, (x,)),
                weights@.len() == k,
                biases@.len() == k,
                rng@ == state_after(s0, init_draws(layers@, k as int)),
                forall|t: int|
                    0 <= t < k ==> {
                        &&& (#[trigger] weights@[t]).wf()
                        &&& weights@[t]@.len() == layers@[t + 1]
                        &&& ncols(weights@[t]@) == layers@[t]
                        &&& random_rel(
                            *conv,
                            state_after(s0, init_draws(layers@, t)),
                            weights@[t]@,
                        )
                    },
                forall|t: int|
                    0 <= t < k ==> {
                        &&& (#[trigger] biases@[t]).wf()
                        &&& biases@[t]@.len() == layers@[t + 1]
                        &&& ncols(biases@[t]@) == 1
                        &&& random_rel(
                            *conv,
                            state_after(
                                s0,
                                (init_draws(layers@, t) + layers@[t + 1] * layers@[t]) as nat,
                            ),
                            biases@[t]@,
                        )
                    },
            decreases layers@.len() - 1 - k,
        {
            let rows = layers[k + 1];
            let cols = layers[k];
            let ghost d: nat = init_draws(layers@, k as int);
            let w = Matrix::random(rows, cols, rng, conv);
            proof {
                lemma_state_compose(s0, d, (rows * cols) as nat);
            }
            let b = Matrix::random(rows, 1, rng, conv);
            proof {
                lemma_state_compose(s0, (d + rows * cols) as nat, rows as nat);
                assert(init_draws(layers@, k + 1) == (init_draws(layers@, k as int) + layers@[k
                    + 1] * (layers@[k as int] + 1)) as nat);
                assert(rows * (cols + 1) == rows * cols + rows) by (nonlinear_arith);
            }
            weights.push(w);
            biases.push(b);
            k += 1;
        }
        let n = Network { layers, weights, biases, data: Vec::new(), learning_rate, zero };
        Ok(n)
    }

    /// Runs one forward pass: converts the input into a column, then for
    /// each transition in order multiplies by the weight matrix, adds the
    /// bias and applies the activation, caching every layer's column,
    /// the raw input first. Returns the entries of the last column.
    /// Succeeds exactly when the input's length is the first layer size;
    /// on failure nothing changes.
    pub fn feed_forward<FA: Fn(T, T) -> T, FM: Fn(T, T) -> T, FF: Fn(T) -> T, FD: Fn(T) -> T>(
        &mut self,
        inputs: Vec<T>,
        plus: &FA,
        times: &FM,
        act: &Activation<FF, FD>,
    ) -> (r: Result<Vec<T>, NetworkError>)
        requires
            old(self).wf(),
            forall|x: T, y: T| #[trigger] call_requires(*plus, (x, y)),
            forall|x: T, y: T| #[trigger] call_requires(*times, (x, y)),
            forall|x: T| #[trigger] call_requires(act.function, (x,)),
        ensures
            final(self).wf(),
            final(self).same_structure(old(self)),
            r.is_ok() <==> inputs@.len() == old(self).topology()[0],
            match r {
                Ok(out) => {
                    &&& final(self).cache_view().len() == final(self).topology().len()
                    &&& forall|k: int|
                        0 <= k < final(self).topology().len() ==> {
                            &&& (#[trigger] final(self).cache_view()[k]).len() == final(self).topology()[k]
                            &&& ncols(final(self).cache_view()[k]) == 1
                        }
                    &&& forall|i: int|
                        0 <= i < inputs@.len() ==> #[trigger] final(self).cache_view()[0][i][0]
                            == inputs@[i]
                    &&& forall|k: int|
                        0 <= k < final(self).topology().len() - 1 ==> layer_step_rel(
                            *plus,
                            *times,
                            act.function,
                            old(self).zero_spec(),
                            old(self).weights_view()[k],
                            final(self).cache_view()[k],
                            old(self).biases_view()[k],
                            #[trigger] final(self).cache_view()[k + 1],
                        )
                    &&& out@.len() == final(self).topology()[final(self).topology().len() - 1]
                    &&& forall|t: int|
                        0 <= t < out@.len() ==> #[trigger] out@[t] == final(self).cache_view()[final(self).topology().len() - 1][t][0]
                    &&& final(self).cache_view()[0] == column_view(inputs@)
                    &&& forward_pass_rel(
                        *plus,
                        *times,
                        act.function,
                        old(self).zero_spec(),
                        old(self).topology(),
                        old(self).weights_view(),
                        old(self).biases_view(),
                        inputs@,
                        final(self).cache_view(),
                        out@,
                    )
                },
                Err(e) => {
                    &&& e == NetworkError::InputSizeMismatch
                    &&& final(self).cache_view() == old(self).cache_view()
                },
            },
    {
        if inputs.len() != self.layers[0] {
            return Err(NetworkError::InputSizeMismatch);
        }
        let current = Matrix::column(&inputs);
        let mut cache: Vec<Matrix<T>> = Vec::new();
        cache.push(current);
        let mut k: usize = 0;
        while k < self.layers.len() - 1
            invariant
                self.wf(),
                inputs@.len() == self.layers@[0],
                0 <= k <= self.layers@.len() - 1,
                cache@.len() == k + 1,
                forall|x: T, y: T| #[trigger] call_requires(*plus, (x, y)),
                forall|x: T, y: T| #[trigger] call_requires(*times, (x, y)),
                forall|x: T| #[trigger] call_requires(act.function, (x,)),
                forall|t: int|
                    0 <= t <= k ==> {
                        &&& (#[trigger] cache@[t]).wf()
                        &&& cache@[t]@.len() == self.layers@[t]
                        &&& ncols(cache@[t]@) == 1
                    },
                forall|i: int| 0 <= i < inputs@.len() ==> #[trigger] cache@[0]@[i][0] == inputs@[i],
                cache@[0]@ == column_view(inputs@),
                forall|t: int|
                    0 <= t < k ==> layer_step_rel(
                        *plus,
                        *times,
                        act.function,
                        self.zero_spec(),
                        self.weights_view()[t],
                        cache@[t]@,
                        self.biases_view()[t],
                        #[trigger] cache@[t + 1]@,
                    ),
            decreases self.layers@.len() - 1 - k,
        {
            let prod = self.weights[k].multiply(&cache[k], plus, times, self.zero).unwrap();
            let summed = prod.sum(&self.biases[k], plus).unwrap();
            let activated = summed.map(&act.function);
            proof {
                assert(entrywise_rel(*plus, prod@, self.biases@[k as int]@, summed@));
                assert(layer_step_rel(
                    *plus,
                    *times,
                    act.function,
                    self.zero_spec(),
                    self.weights_view()[k as int],
                    cache@[k as int]@,
                    self.biases_view()[k as int],
                    activated@,
                ));
            }
            cache.push(activated);
            k += 1;
        }
        self.data = cache;
        let last = self.layers.len() - 1;
        let n_out = self.layers[last];
        let mut out: Vec<T> = Vec::new();
        let mut t: usize = 0;
        while t < n_out
            invariant
                0 <= t <= n_out,
                out@.len() == t,
                last == self.layers@.len() - 1,
                n_out == self.layers@[last as int],
                self.wf(),
                self.data@.len() == self.layers@.len(),
                self.data@[last as int].wf(),
                self.data@[last as int]@.len() == n_out,
                ncols(self.data@[last as int]@) == 1,
                forall|u: int| 0 <= u < t ==> #[trigger] out@[u] == self.data@[last as int]@[u][0],
            decreases n_out - t,
        {
            out.push(self.data[last].at(t, 0));
            t += 1;
        }
        proof {
            assert(forward_pass_rel(
                *plus,
                *times,
                act.function,
                old(self).zero_spec(),
                old(self).topology(),
                old(self).weights_view(),
                old(self).biases_view(),
                inputs@,
                self.cache_view(),
                out@,
            ));
        }
        Ok(out)
    }

    /// Runs one backward pass against the cached activations of the most
    /// recent forward pass, updating every weight matrix and bias column
    /// from the last transition to the first. The initial error column is
    /// the entrywise difference of targets and outputs, and the initial
    /// gradient applies the activation derivative to the output
    /// activations — a deliberate design decision, with the update rule
    /// itself, explained in the module documentation: the derivative
    /// always takes already activated values. At each
    /// transition, the gradient is multiplied entrywise with the error and
    /// rescaled by `scale` (the caller's multiplication by the learning
    /// rate), the product of that column with the transposed cached input
    /// is added to the weights, the column itself is added to the bias,
    /// the error is pushed backward through the updated weight's
    /// transpose, and the next gradient applies the derivative to the
    /// cached activations. The cache itself is left unchanged. Succeeds
    /// exactly when both vectors are as long as the last layer and a
    /// forward pass has filled the cache; on failure nothing changes.
    pub fn back_propagate<
        FA: Fn(T, T) -> T,
        FS: Fn(T, T) -> T,
        FM: Fn(T, T) -> T,
        FSc: Fn(T) -> T,
        FF: Fn(T) -> T,
        FD: Fn(T) -> T,
    >(
        &mut self,
        outputs: Vec<T>,
        targets: Vec<T>,
        plus: &FA,
        minus: &FS,
        times: &FM,
        scale: &FSc,
        act: &Activation<FF, FD>,
    ) -> (r: Result<(), NetworkError>)
        requires
            old(self).wf(),
            forall|x: T, y: T| #[trigger] call_requires(*plus, (x, y)),
            forall|x: T, y: T| #[trigger] call_requires(*minus, (x, y)),
            forall|x: T, y: T| #[trigger] call_requires(*times, (x, y)),
            forall|x: T| #[trigger] call_requires(*scale, (x,)),
            forall|x: T, r: T|
                #[trigger] call_ensures(*scale, (x,), r) ==> call_ensures(
                    *times,
                    (x, old(self).rate_spec()),
                    r,
                ),
            forall|x: T| #[trigger] call_requires(act.derivative, (x,)),
        ensures
            final(self).wf(),
            final(self).topology() == old(self).topology(),
            final(self).rate_spec() == old(self).rate_spec(),
            final(self).zero_spec() == old(self).zero_spec(),
            final(self).cache_view() == old(self).cache_view(),
            ({
                let nl = old(self).topology()[old(self).topology().len() - 1];
                let cached = old(self).cache_view().len() == old(self).topology().len();
                &&& (r.is_ok() <==> (targets@.len() == nl && outputs@.len() == nl && cached))
                &&& match r {
                    Ok(u) => exists|gs: Seq<Seq<Seq<T>>>, es: Seq<Seq<Seq<T>>>|
                        #[trigger] backward_pass_rel(
                            *plus,
                            *minus,
                            *times,
                            *scale,
                            act.derivative,
                            old(self).zero_spec(),
                            outputs@,
                            targets@,
                            old(self).cache_view(),
                            old(self).weights_view(),
                            final(self).weights_view(),
                            old(self).biases_view(),
                            final(self).biases_view(),
                            gs,
                            es,
                            old(self).topology().len() as int,
                        ),
                    Err(e) => {
                        &&& final(self).weights_view() == old(self).weights_view()
                        &&& final(self).biases_view() == old(self).biases_view()
                        &&& (e == NetworkError::TargetSizeMismatch <==> targets@.len() != nl)
                        &&& (e == NetworkError::OutputSizeMismatch <==> (targets@.len() == nl
                            && outputs@.len() != nl))
                        &&& (e == NetworkError::NoForwardPass <==> (targets@.len() == nl
                            && outputs@.len() == nl && !cached))
                    },
                }
            }),
    {
        let last = self.layers.len() - 1;
        let nl = self.layers[last];
        if targets.len() != nl {
            return Err(NetworkError::TargetSizeMismatch);
        }
        if outputs.len() != nl {
            return Err(NetworkError::OutputSizeMismatch);
        }
        if self.data.len() != self.layers.len() {
            return Err(NetworkError::NoForwardPass);
        }
        let outputs_col = Matrix::column(&outputs);
        let targets_col = Matrix::column(&targets);
        let mut errors = targets_col.subtract(&outputs_col, minus).unwrap();
        let mut gradients = outputs_col.map(&act.derivative);
        let ghost mut gs: Seq<Seq<Seq<T>>> = Seq::new(
            (old(self).topology().len() - 1) as nat,
            |k: int| Seq::empty(),
        );
        let ghost mut es: Seq<Seq<Seq<T>>> = Seq::new(
            (old(self).topology().len() - 1) as nat,
            |k: int| Seq::empty(),
        );
        let mut i: usize = last;
        while i > 0
            invariant
                0 <= i <= old(self).topology().len() - 1,
                self.wf(),
                self.topology() == old(self).topology(),
                self.rate_spec() == old(self).rate_spec(),
                self.zero_spec() == old(self).zero_spec(),
                self.cache_view() == old(self).cache_view(),
                self.cache_view().len() == self.topology().len(),
                forall|x: T, y: T| #[trigger] call_requires(*plus, (x, y)),
                forall|x: T, y: T| #[trigger] call_requires(*times, (x, y)),
                forall|x: T| #[trigger] call_requires(*scale, (x,)),
                forall|x: T| #[trigger] call_requires(act.derivative, (x,)),
                errors.wf(),
                errors@.len() == self.topology()[i as int],
                ncols(errors@) == 1,
                gradients.wf(),
                gradients@.len() == self.topology()[i as int],
                ncols(gradients@) == 1,
                gs.len() == old(self).topology().len() - 1,
                es.len() == old(self).topology().len() - 1,
                i == old(self).topology().len() - 1 ==> entrywise_rel(
                    *minus,
                    column_view(targets@),
                    column_view(outputs@),
                    errors@,
                ) && map_rel(act.derivative, column_view(outputs@), gradients@),
                i < old(self).topology().len() - 1 ==> {
                    &&& entrywise_rel(
                        *minus,
                        column_view(targets@),
                        column_view(outputs@),
                        es[old(self).topology().len() - 2],
                    )
                    &&& scaled_gradient_rel(
                        *times,
                        *scale,
                        act.derivative,
                        column_view(outputs@),
                        es[old(self).topology().len() - 2],
                        gs[old(self).topology().len() - 2],
                    )
                    &&& product_rel(
                        *plus,
                        *times,
                        old(self).zero_spec(),
                        transpose_view(self.weights_view()[i as int]),
                        es[i as int],
                        errors@,
                    )
                    &&& map_rel(act.derivative, old(self).cache_view()[i as int], gradients@)
                },
                forall|k: int|
                    0 <= k < i ==> #[trigger] self.weights_view()[k] == old(self).weights_view()[k],
                forall|k: int|
                    0 <= k < i ==> #[trigger] self.biases_view()[k] == old(self).biases_view()[k],
                forall|k: int|
                    i <= k < self.topology().len() - 1 ==> gradient_update_rel(
                        *plus,
                        *times,
                        old(self).zero_spec(),
                        #[trigger] gs[k],
                        old(self).cache_view()[k],
                        old(self).weights_view()[k],
                        self.weights_view()[k],
                        old(self).biases_view()[k],
                        self.biases_view()[k],
                    ),
                forall|k: int|
                    i <= k < self.topology().len() - 2 ==> product_rel(
                        *plus,
                        *times,
                        old(self).zero_spec(),
                        transpose_view(self.weights_view()[k + 1]),
                        es[k + 1],
                        #[trigger] es[k],
                    ),
                forall|k: int|
                    i <= k < self.topology().len() - 2 ==> scaled_gradient_rel(
                        *times,
                        *scale,
                        act.derivative,
                        old(self).cache_view()[k + 1],
                        es[k],
                        #[trigger] gs[k],
                    ),
            decreases i,
        {
            let k = i - 1;
            proof {
                es = es.update(k as int, errors@);
            }
            let hadamard = gradients.dot(&errors, times).unwrap();
            let gi = hadamard.map(scale);
            proof {
                gs = gs.update(k as int, gi@);
                assert(entrywise_rel(*times, gradients@, errors@, hadamard@));
                if i == old(self).topology().len() - 1 {
                    assert(scaled_gradient_rel(
                        *times,
                        *scale,
                        act.derivative,
                        column_view(outputs@),
                        es[k as int],
                        gi@,
                    ));
                } else {
                    assert(scaled_gradient_rel(
                        *times,
                        *scale,
                        act.derivative,
                        old(self).cache_view()[k + 1],
                        es[k as int],
                        gi@,
                    ));
                }
            }
            let xt = self.data[k].transpose();
            let delta = gi.multiply(&xt, plus, times, self.zero).unwrap();
            let neww = self.weights[k].sum(&delta, plus).unwrap();
            let newb = self.biases[k].sum(&gi, plus).unwrap();
            let ghost old_wk = self.weights@[k as int]@;
            let ghost old_bk = self.biases@[k as int]@;
            let ghost pre_w = self.weights@;
            let ghost pre_b = self.biases@;
            let ghost pre_wv = self.weights_view();
            let ghost pre_bv = self.biases_view();
            proof {
                assert(pre_wv[k as int] == old_wk);
                assert(pre_bv[k as int] == old_bk);
                assert(old_wk == old(self).weights_view()[k as int]);
                assert(old_bk == old(self).biases_view()[k as int]);
            }
            self.weights[k] = neww;
            self.biases[k] = newb;
            proof {
                assert(self.weights@ == pre_w.update(k as int, neww));
                assert(self.biases@ == pre_b.update(k as int, newb));
                assert forall|t: int| 0 <= t < pre_w.len() && t != k implies #[trigger] self.weights_view()[t]
                    == pre_wv[t] by {
                    assert(self.weights@[t] == pre_w[t]);
                }
                assert forall|t: int| 0 <= t < pre_b.len() && t != k implies #[trigger] self.biases_view()[t]
                    == pre_bv[t] by {
                    assert(self.biases@[t] == pre_b[t]);
                }
                assert(self.weights_view()[k as int] == neww@);
                assert(self.biases_view()[k as int] == newb@);
                assert(product_rel(
                    *plus,
                    *times,
                    self.zero_spec(),
                    gi@,
                    transpose_view(self.data@[k as int]@),
                    delta@,
                ));
                assert(self.cache_view()[k as int] == self.data@[k as int]@);
                assert(gradient_update_rel(
                    *plus,
                    *times,
                    old(self).zero_spec(),
                    gi@,
                    old(self).cache_view()[k as int],
                    old(self).weights_view()[k as int],
                    self.weights_view()[k as int],
                    old(self).biases_view()[k as int],
                    self.biases_view()[k as int],
                ));
            }
            errors = self.weights[k].transpose().multiply(&errors, plus, times, self.zero).unwrap();
            gradients = self.data[k].map(&act.derivative);
            proof {
                assert(product_rel(
                    *plus,
                    *times,
                    old(self).zero_spec(),
                    transpose_view(self.weights_view()[k as int]),
                    es[k as int],
                    errors@,
                ));
                assert(map_rel(act.derivative, old(self).cache_view()[k as int], gradients@));
            }
            i -= 1;
        }
        proof {
            assert(backward_pass_rel(
                *plus,
                *minus,
                *times,
                *scale,
                act.derivative,
                old(self).zero_spec(),
                outputs@,
                targets@,
                old(self).cache_view(),
                old(self).weights_view(),
                self.weights_view(),
                old(self).biases_view(),
                self.biases_view(),
                gs,
                es,
                old(self).topology().len() as int,
            ));
        }
        Ok(())
    }

    /// Trains the network in place: for each epoch, for each sample in
    /// the given, fixed order, one forward pass followed immediately by
    /// one backward pass on that sample's output and target. The samples
    /// are validated against the topology up front; training succeeds
    /// exactly when they conform, and on failure nothing changes.
    pub fn train<
        FA: Fn(T, T) -> T,
        FS: Fn(T, T) -> T,
        FM: Fn(T, T) -> T,
        FSc: Fn(T) -> T,
        FF: Fn(T) -> T,
        FD: Fn(T) -> T,
    >(
        &mut self,
        inputs: Vec<Vec<T>>,
        targets: Vec<Vec<T>>,
        epochs: u16,
        plus: &FA,
        minus: &FS,
        times: &FM,
        scale: &FSc,
        act: &Activation<FF, FD>,
    ) -> (r: Result<(), NetworkError>)
        requires
            old(self).wf(),
            forall|x: T, y: T| #[trigger] call_requires(*plus, (x, y)),
            forall|x: T, y: T| #[trigger] call_requires(*minus, (x, y)),
            forall|x: T, y: T| #[trigger] call_requires(*times, (x, y)),
            forall|x: T| #[trigger] call_requires(*scale, (x,)),
            forall|x: T, r: T|
                #[trigger] call_ensures(*scale, (x,), r) ==> call_ensures(
                    *times,
                    (x, old(self).rate_spec()),
                    r,
                ),
            forall|x: T| #[trigger] call_requires(act.function, (x,)),
            forall|x: T| #[trigger] call_requires(act.derivative, (x,)),
        ensures
            final(self).wf(),
            final(self).topology() == old(self).topology(),
            final(self).rate_spec() == old(self).rate_spec(),
            final(self).zero_spec() == old(self).zero_spec(),
            r.is_ok() <==> samples_conform(old(self).topology(), inputs@, targets@),
            match r {
                Ok(u) => exists|
                    whist: Seq<Seq<Seq<Seq<T>>>>,
                    bhist: Seq<Seq<Seq<Seq<T>>>>,
                    chist: Seq<Seq<Seq<Seq<T>>>>,
                |
                    #[trigger] train_history_rel(
                        *plus,
                        *minus,
                        *times,
                        *scale,
                        act.function,
                        act.derivative,
                        old(self).zero_spec(),
                        old(self).topology(),
                        inputs@,
                        targets@,
                        epochs as int,
                        old(self).weights_view(),
                        old(self).biases_view(),
                        old(self).cache_view(),
                        final(self).weights_view(),
                        final(self).biases_view(),
                        final(self).cache_view(),
                        whist,
                        bhist,
                        chist,
                    ),
                Err(e) => {
                    &&& final(self).same_structure(old(self))
                    &&& final(self).cache_view() == old(self).cache_view()
                    &&& (e == NetworkError::SampleCountMismatch <==> inputs@.len()
                        != targets@.len())
                    &&& (e == NetworkError::InputSizeMismatch <==> (inputs@.len()
                        == targets@.len() && exists|j: int|
                        0 <= j < inputs@.len() && (#[trigger] inputs@[j])@.len() != old(
                            self,
                        ).topology()[0]))
                    &&& (e == NetworkError::TargetSizeMismatch <==> (inputs@.len()
                        == targets@.len() && (forall|j: int|
                        0 <= j < inputs@.len() ==> (#[trigger] inputs@[j])@.len() == old(
                            self,
                        ).topology()[0]) && exists|j: int|
                        0 <= j < targets@.len() && (#[trigger] targets@[j])@.len() != old(
                            self,
                        ).topology()[old(self).topology().len() - 1]))
                },
            },
    {
        if inputs.len() != targets.len() {
            return Err(NetworkError::SampleCountMismatch);
        }
        let l0 = self.layers[0];
        let ll = self.layers[self.layers.len() - 1];
        let mut j: usize = 0;
        while j < inputs.len()
            invariant
                0 <= j <= inputs@.len(),
                *self == *old(self),
                self.wf(),
                inputs@.len() == targets@.len(),
                l0 == self.topology()[0],
                forall|t: int| 0 <= t < j ==> (#[trigger] inputs@[t])@.len() == l0,
            decreases inputs@.len() - j,
        {
            if inputs[j].len() != l0 {
                return Err(NetworkError::InputSizeMismatch);
            }
            j += 1;
        }
        let mut j: usize = 0;
        while j < targets.len()
            invariant
                0 <= j <= targets@.len(),
                *self == *old(self),
                self.wf(),
                inputs@.len() == targets@.len(),
                forall|t: int|
                    0 <= t < inputs@.len() ==> (#[trigger] inputs@[t])@.len() == self.topology()[0],
                ll == self.topology()[self.topology().len() - 1],
                forall|t: int| 0 <= t < j ==> (#[trigger] targets@[t])@.len() == ll,
            decreases targets@.len() - j,
        {
            if targets[j].len() != ll {
                return Err(NetworkError::TargetSizeMismatch);
            }
            j += 1;
        }
        let ghost mut whist: Seq<Seq<Seq<Seq<T>>>> = Seq::empty().push(self.weights_view());
        let ghost mut bhist: Seq<Seq<Seq<Seq<T>>>> = Seq::empty().push(self.biases_view());
        let ghost mut chist: Seq<Seq<Seq<Seq<T>>>> = Seq::empty().push(self.cache_view());
        let ghost n: int = inputs@.len() as int;
        let mut e: u16 = 0;
        while e < epochs
            invariant
                0 <= e <= epochs,
                self.wf(),
                self.topology() == old(self).topology(),
                self.rate_spec() == old(self).rate_spec(),
                self.zero_spec() == old(self).zero_spec(),
                inputs@.len() == targets@.len(),
                n == inputs@.len() as int,
                forall|t: int|
                    0 <= t < inputs@.len() ==> (#[trigger] inputs@[t])@.len()
                        == self.topology()[0],
                forall|t: int|
                    0 <= t < targets@.len() ==> (#[trigger] targets@[t])@.len()
                        == self.topology()[self.topology().len() - 1],
                forall|x: T, y: T| #[trigger] call_requires(*plus, (x, y)),
                forall|x: T, y: T| #[trigger] call_requires(*minus, (x, y)),
                forall|x: T, y: T| #[trigger] call_requires(*times, (x, y)),
                forall|x: T| #[trigger] call_requires(*scale, (x,)),
                forall|x: T, r: T|
                    #[trigger] call_ensures(*scale, (x,), r) ==> call_ensures(
                        *times,
                        (x, old(self).rate_spec()),
                        r,
                    ),
                forall|x: T| #[trigger] call_requires(act.function, (x,)),
                forall|x: T| #[trigger] call_requires(act.derivative, (x,)),
                whist.len() == e * n + 1,
                bhist.len() == e * n + 1,
                chist.len() == e * n + 1,
                whist[0] == old(self).weights_view(),
                bhist[0] == old(self).biases_view(),
                chist[0] == old(self).cache_view(),
                whist[e * n] == self.weights_view(),
                bhist[e * n] == self.biases_view(),
                chist[e * n] == self.cache_view(),
                forall|t: int|
                    0 <= t < e * n ==> sample_step_rel(
                        *plus,
                        *minus,
                        *times,
                        *scale,
                        act.function,
                        act.derivative,
                        old(self).zero_spec(),
                        old(self).topology(),
                        whist[t],
                        bhist[t],
                        inputs@[t % n]@,
                        targets@[t % n]@,
                        #[trigger] whist[t + 1],
                        bhist[t + 1],
                        chist[t + 1],
                    ),
            decreases epochs - e,
        {
            proof {
                assert(e * n + n == (e + 1) * n) by (nonlinear_arith);
                assert(e * n >= 0) by (nonlinear_arith)
                    requires
                        e >= 0,
                        n >= 0,
                ;
            }
            let mut j: usize = 0;
            while j < inputs.len()
                invariant
                    0 <= j <= inputs@.len(),
                    self.wf(),
                    self.topology() == old(self).topology(),
                    self.rate_spec() == old(self).rate_spec(),
                    self.zero_spec() == old(self).zero_spec(),
                    inputs@.len() == targets@.len(),
                    n == inputs@.len() as int,
                    e * n >= 0,
                    forall|t: int|
                        0 <= t < inputs@.len() ==> (#[trigger] inputs@[t])@.len()
                            == self.topology()[0],
                    forall|t: int|
                        0 <= t < targets@.len() ==> (#[trigger] targets@[t])@.len()
                            == self.topology()[self.topology().len() - 1],
                    forall|x: T, y: T| #[trigger] call_requires(*plus, (x, y)),
                    forall|x: T, y: T| #[trigger] call_requires(*minus, (x, y)),
                    forall|x: T, y: T| #[trigger] call_requires(*times, (x, y)),
                    forall|x: T| #[trigger] call_requires(*scale, (x,)),
                    forall|x: T, r: T|
                        #[trigger] call_ensures(*scale, (x,), r) ==> call_ensures(
                            *times,
                            (x, old(self).rate_spec()),
                            r,
                        ),
                    forall|x: T| #[trigger] call_requires(act.function, (x,)),
                    forall|x: T| #[trigger] call_requires(act.derivative, (x,)),
                    whist.len() == e * n + j + 1,
                    bhist.len() == e * n + j + 1,
                    chist.len() == e * n + j + 1,
                    whist[0] == old(self).weights_view(),
                    bhist[0] == old(self).biases_view(),
                    chist[0] == old(self).cache_view(),
                    whist[e * n + j] == self.weights_view(),
                    bhist[e * n + j] == self.biases_view(),
                    chist[e * n + j] == self.cache_view(),
                    forall|t: int|
                        0 <= t < e * n + j ==> sample_step_rel(
                            *plus,
                            *minus,
                            *times,
                            *scale,
                            act.function,
                            act.derivative,
                            old(self).zero_spec(),
                            old(self).topology(),
                            whist[t],
                            bhist[t],
                            inputs@[t % n]@,
                            targets@[t % n]@,
                            #[trigger] whist[t + 1],
                            bhist[t + 1],
                            chist[t + 1],
                        ),
                decreases inputs@.len() - j,
            {
                let ghost wj = self.weights_view();
                let ghost bj = self.biases_view();
                let ghost pre_w = whist;
                let ghost pre_b = bhist;
                let ghost pre_c = chist;
                let sample = copied(&inputs[j]);
                let outs = self.feed_forward(sample, plus, times, act).unwrap();
                let ghost outsv = outs@;
                let ghost cj1 = self.cache_view();
                proof {
                    assert(forward_pass_rel(
                        *plus,
                        *times,
                        act.function,
                        old(self).zero_spec(),
                        old(self).topology(),
                        wj,
                        bj,
                        inputs@[j as int]@,
                        cj1,
                        outsv,
                    ));
                }
                let goal = copied(&targets[j]);
                let res = self.back_propagate(outs, goal, plus, minus, times, scale, act);
                proof {
                    assert(res.is_ok());
                    let (gsw, esw) = choose|gs: Seq<Seq<Seq<T>>>, es: Seq<Seq<Seq<T>>>|
                        #[trigger] backward_pass_rel(
                            *plus,
                            *minus,
                            *times,
                            *scale,
                            act.derivative,
                            old(self).zero_spec(),
                            outsv,
                            targets@[j as int]@,
                            cj1,
                            wj,
                            self.weights_view(),
                            bj,
                            self.biases_view(),
                            gs,
                            es,
                            old(self).topology().len() as int,
                        );
                    assert(self.cache_view() == cj1);
                    assert(sample_step_rel(
                        *plus,
                        *minus,
                        *times,
                        *scale,
                        act.function,
                        act.derivative,
                        old(self).zero_spec(),
                        old(self).topology(),
                        wj,
                        bj,
                        inputs@[j as int]@,
                        targets@[j as int]@,
                        self.weights_view(),
                        self.biases_view(),
                        self.cache_view(),
                    ));
                    whist = whist.push(self.weights_view());
                    bhist = bhist.push(self.biases_view());
                    chist = chist.push(self.cache_view());
                    let ghost tn: int = e * n + j;
                    assert(tn % n == j) by (nonlinear_arith)
                        requires
                            0 <= j < n,
                            tn == e * n + j,
                            e >= 0,
                    ;
                    assert forall|t: int| 0 <= t < tn + 1 implies sample_step_rel(
                        *plus,
                        *minus,
                        *times,
                        *scale,
                        act.function,
                        act.derivative,
                        old(self).zero_spec(),
                        old(self).topology(),
                        whist[t],
                        bhist[t],
                        inputs@[t % n]@,
                        targets@[t % n]@,
                        #[trigger] whist[t + 1],
                        bhist[t + 1],
                        chist[t + 1],
                    ) by {
                        if t < tn {
                            assert(whist[t] == pre_w[t]);
                            assert(whist[t + 1] == pre_w[t + 1]);
                            assert(bhist[t] == pre_b[t]);
                            assert(bhist[t + 1] == pre_b[t + 1]);
                            assert(chist[t + 1] == pre_c[t + 1]);
                        } else {
                            assert(whist[t] == wj);
                            assert(bhist[t] == bj);
                            assert(whist[t + 1] == self.weights_view());
                            assert(bhist[t + 1] == self.biases_view());
                            assert(chist[t + 1] == self.cache_view());
                        }
                    }
                }
                j += 1;
            }
            e += 1;
        }
        proof {
            assert(train_history_rel(
                *plus,
                *minus,
                *times,
                *scale,
                act.function,
                act.derivative,
                old(self).zero_spec(),
                old(self).topology(),
                inputs@,
                targets@,
                epochs as int,
                old(self).weights_view(),
                old(self).biases_view(),
                old(self).cache_view(),
                self.weights_view(),
                self.biases_view(),
                self.cache_view(),
                whist,
                bhist,
                chist,
            ));
        }
        Ok(())
    }
}

/// The shape facts every well-formed network guarantees: at least two
/// layers, all of positive size; one weight grid of shape
/// `(layers[k + 1], layers[k])` and one bias column of shape
/// `(layers[k + 1], 1)` per transition, all rectangular; and a cache that
/// is empty or holds one rectangular column per layer.
pub proof fn lemma_wf_shapes<T: Copy>(n: Network<T>)
    requires
        n.wf(),
    ensures
        n.topology().len() >= 2,
        forall|i: int| 0 <= i < n.topology().len() ==> #[trigger] n.topology()[i] >= 1,
        n.weights_view().len() == n.topology().len() - 1,
        n.biases_view().len() == n.topology().len() - 1,
        forall|k: int|
            0 <= k < n.topology().len() - 1 ==> {
                &&& (#[trigger] n.weights_view()[k]).len() == n.topology()[k + 1]
                &&& ncols(n.weights_view()[k]) == n.topology()[k]
                &&& rect(n.weights_view()[k])
            },
        forall|k: int|
            0 <= k < n.topology().len() - 1 ==> {
                &&& (#[trigger] n.biases_view()[k]).len() == n.topology()[k + 1]
                &&& ncols(n.biases_view()[k]) == 1
                &&& rect(n.biases_view()[k])
            },
        n.cache_view().len() == 0 || n.cache_view().len() == n.topology().len(),
        n.cache_view().len() == n.topology().len() ==> forall|k: int|
            0 <= k < n.topology().len() ==> {
                &&& (#[trigger] n.cache_view()[k]).len() == n.topology()[k]
                &&& ncols(n.cache_view()[k]) == 1
                &&& rect(n.cache_view()[k])
            },
{
    assert forall|k: int| 0 <= k < n.topology().len() - 1 implies {
        &&& (#[trigger] n.weights_view()[k]).len() == n.topology()[k + 1]
        &&& ncols(n.weights_view()[k]) == n.topology()[k]
        &&& rect(n.weights_view()[k])
    } by {
        crate::matrix::lemma_wf_rect(n.weights@[k]);
    }
    assert forall|k: int| 0 <= k < n.topology().len() - 1 implies {
        &&& (#[trigger] n.biases_view()[k]).len() == n.topology()[k + 1]
        &&& ncols(n.biases_view()[k]) == 1
        &&& rect(n.biases_view()[k])
    } by {
        crate::matrix::lemma_wf_rect(n.biases@[k]);
    }
    if n.cache_view().len() == n.topology().len() {
        assert forall|k: int| 0 <= k < n.topology().len() implies {
            &&& (#[trigger] n.cache_view()[k]).len() == n.topology()[k]
            &&& ncols(n.cache_view()[k]) == 1
            &&& rect(n.cache_view()[k])
        } by {
            crate::matrix::lemma_wf_rect(n.data@[k]);
        }
    }
}

/// Seeded construction is reproducible: two well-formed networks of the
/// same topology whose weight and bias grids were drawn from the same
/// seed through the same deterministic conversion have equal weights and
/// equal biases, so they predict identically before any training.
pub proof fn lemma_seeded_init_deterministic<T: Copy, F: Fn(u64) -> T>(
    conv: F,
    seed: u64,
    a: Network<T>,
    b: Network<T>,
)
    requires
        a.wf(),
        b.wf(),
        a.topology() == b.topology(),
        forall|k: int|
            0 <= k < a.topology().len() - 1 ==> #[trigger] random_rel(
                conv,
                state_after(seed, init_draws(a.topology(), k)),
                a.weights_view()[k],
            ),
        forall|k: int|
            0 <= k < b.topology().len() - 1 ==> #[trigger] random_rel(
                conv,
                state_after(seed, init_draws(b.topology(), k)),
                b.weights_view()[k],
            ),
        forall|k: int|
            0 <= k < a.topology().len() - 1 ==> #[trigger] random_rel(
                conv,
                state_after(
                    seed,
                    (init_draws(a.topology(), k) + a.topology()[k + 1] * a.topology()[k]) as nat,
                ),
                a.biases_view()[k],
            ),
        forall|k: int|
            0 <= k < b.topology().len() - 1 ==> #[trigger] random_rel(
                conv,
                state_after(
                    seed,
                    (init_draws(b.topology(), k) + b.topology()[k + 1] * b.topology()[k]) as nat,
                ),
                b.biases_view()[k],
            ),
        forall|x: u64, r1: T, r2: T|
            #[trigger] call_ensures(conv, (x,), r1) && #[trigger] call_ensures(conv, (x,), r2)
                ==> r1 == r2,
    ensures
        a.weights_view() == b.weights_view(),
        a.biases_view() == b.biases_view(),
{
    assert forall|k: int|
        0 <= k < a.weights_view().len() implies #[trigger] a.weights_view()[k]
        == b.weights_view()[k] by {
        crate::matrix::lemma_wf_rect(a.weights@[k]);
        crate::matrix::lemma_wf_rect(b.weights@[k]);
        crate::matrix::lemma_random_deterministic(
            conv,
            state_after(seed, init_draws(a.topology(), k)),
            a.weights_view()[k],
            b.weights_view()[k],
        );
    }
    assert(a.weights_view() =~= b.weights_view());
    assert forall|k: int|
        0 <= k < a.biases_view().len() implies #[trigger] a.biases_view()[k]
        == b.biases_view()[k] by {
        crate::matrix::lemma_wf_rect(a.biases@[k]);
        crate::matrix::lemma_wf_rect(b.biases@[k]);
        crate::matrix::lemma_random_deterministic(
            conv,
            state_after(
                seed,
                (init_draws(a.topology(), k) + a.topology()[k + 1] * a.topology()[k]) as nat,
            ),
            a.biases_view()[k],
            b.biases_view()[k],
        );
    }
    assert(a.biases_view() =~= b.biases_view());
}

/// One layer step under deterministic scalar operations is deterministic:
/// two activation columns the same step can produce from entrywise-equal
/// input columns are entrywise equal.
pub proof fn lemma_layer_step_deterministic<T, FA: Fn(T, T) -> T, FM: Fn(T, T) -> T, FF: Fn(
    T,
) -> T>(
    plus: FA,
    times: FM,
    act: FF,
    zero: T,
    w: Seq<Seq<T>>,
    b: Seq<Seq<T>>,
    x1: Seq<Seq<T>>,
    x2: Seq<Seq<T>>,
    y1: Seq<Seq<T>>,
    y2: Seq<Seq<T>>,
)
    requires
        layer_step_rel(plus, times, act, zero, w, x1, b, y1),
        layer_step_rel(plus, times, act, zero, w, x2, b, y2),
        x1.len() == x2.len(),
        ncols(x1) == 1,
        ncols(x2) == 1,
        forall|t: int| 0 <= t < x1.len() ==> (#[trigger] x1[t])[0] == x2[t][0],
        forall|x: T, y: T, a: T, c: T|
            #[trigger] call_ensures(plus, (x, y), a) && #[trigger] call_ensures(plus, (x, y), c)
                ==> a == c,
        forall|x: T, y: T, a: T, c: T|
            #[trigger] call_ensures(times, (x, y), a) && #[trigger] call_ensures(times, (x, y), c)
                ==> a == c,
        forall|x: T, a: T, c: T|
            #[trigger] call_ensures(act, (x,), a) && #[trigger] call_ensures(act, (x,), c) ==> a
                == c,
    ensures
        y1.len() == w.len(),
        y2.len() == w.len(),
        ncols(y1) == 1,
        ncols(y2) == 1,
        forall|t: int| 0 <= t < w.len() ==> (#[trigger] y1[t])[0] == y2[t][0],
{
    assert forall|t: int| 0 <= t < x1.len() implies #[trigger] col(x1, 0)[t] == col(x2, 0)[t] by {
        assert(x1[t][0] == x2[t][0]);
    }
    assert(col(x1, 0) =~= col(x2, 0));
    let (prod1, s1) = choose|prod: Seq<Seq<T>>, s: Seq<Seq<T>>|
        {
            &&& product_rel(plus, times, zero, w, x1, prod)
            &&& #[trigger] entrywise_rel(plus, prod, b, s)
            &&& map_rel(act, s, y1)
        };
    let (prod2, s2) = choose|prod: Seq<Seq<T>>, s: Seq<Seq<T>>|
        {
            &&& product_rel(plus, times, zero, w, x2, prod)
            &&& #[trigger] entrywise_rel(plus, prod, b, s)
            &&& map_rel(act, s, y2)
        };
    assert(ncols(prod1) == ncols(x1));
    assert(ncols(prod2) == ncols(x2));
    assert forall|t: int| 0 <= t < w.len() implies (#[trigger] y1[t])[0] == y2[t][0] by {
        assert(fold_rel(plus, times, w[t], col(x1, 0), ncols(w) as int, zero, prod1[t][0]));
        assert(fold_rel(plus, times, w[t], col(x2, 0), ncols(w) as int, zero, prod2[t][0]));
        crate::matrix::lemma_fold_deterministic(
            plus,
            times,
            w[t],
            col(x1, 0),
            ncols(w) as int,
            zero,
            prod1[t][0],
            prod2[t][0],
        );
        assert(call_ensures(plus, (prod1[t][0], b[t][0]), s1[t][0]));
        assert(call_ensures(plus, (prod2[t][0], b[t][0]), s2[t][0]));
        assert(call_ensures(act, (s1[t][0],), y1[t][0]));
        assert(call_ensures(act, (s2[t][0],), y2[t][0]));
    }
}

/// The forward pass is deterministic under deterministic scalar
/// operations: two activation caches built over the same weights, biases
/// and fold seed, whose input columns agree entrywise, agree entrywise at
/// every layer up to `k`.
pub proof fn lemma_cache_deterministic<T, FA: Fn(T, T) -> T, FM: Fn(T, T) -> T, FF: Fn(T) -> T>(
    plus: FA,
    times: FM,
    act: FF,
    zero: T,
    topology: Seq<usize>,
    ws: Seq<Seq<Seq<T>>>,
    bs: Seq<Seq<Seq<T>>>,
    cache1: Seq<Seq<Seq<T>>>,
    cache2: Seq<Seq<Seq<T>>>,
    k: int,
)
    requires
        0 <= k < topology.len(),
        ws.len() == topology.len() - 1,
        cache1.len() == topology.len(),
        cache2.len() == topology.len(),
        forall|t: int| 0 <= t < ws.len() ==> (#[trigger] ws[t]).len() == topology[t + 1],
        forall|t: int|
            0 <= t < topology.len() ==> {
                &&& (#[trigger] cache1[t]).len() == topology[t]
                &&& ncols(cache1[t]) == 1
            },
        forall|t: int|
            0 <= t < topology.len() ==> {
                &&& (#[trigger] cache2[t]).len() == topology[t]
                &&& ncols(cache2[t]) == 1
            },
        forall|t: int|
            0 <= t < topology.len() - 1 ==> layer_step_rel(
                plus,
                times,
                act,
                zero,
                ws[t],
                cache1[t],
                bs[t],
                #[trigger] cache1[t + 1],
            ),
        forall|t: int|
            0 <= t < topology.len() - 1 ==> layer_step_rel(
                plus,
                times,
                act,
                zero,
                ws[t],
                cache2[t],
                bs[t],
                #[trigger] cache2[t + 1],
            ),
        forall|t: int| 0 <= t < topology[0] ==> (#[trigger] cache1[0][t])[0] == cache2[0][t][0],
        forall|x: T, y: T, a: T, c: T|
            #[trigger] call_ensures(plus, (x, y), a) && #[trigger] call_ensures(plus, (x, y), c)
                ==> a == c,
        forall|x: T, y: T, a: T, c: T|
            #[trigger] call_ensures(times, (x, y), a) && #[trigger] call_ensures(times, (x, y), c)
                ==> a == c,
        forall|x: T, a: T, c: T|
            #[trigger] call_ensures(act, (x,), a) && #[trigger] call_ensures(act, (x,), c) ==> a
                == c,
    ensures
        forall|t: int| 0 <= t < topology[k] ==> (#[trigger] cache1[k][t])[0] == cache2[k][t][0],
    decreases k,
{
    if k > 0 {
        lemma_cache_deterministic(
            plus,
            times,
            act,
            zero,
            topology,
            ws,
            bs,
            cache1,
            cache2,
            k - 1,
        );
        lemma_layer_step_deterministic(
            plus,
            times,
            act,
            zero,
            ws[k - 1],
            bs[k - 1],
            cache1[k - 1],
            cache2[k - 1],
            cache1[k],
            cache2[k],
        );
    }
}

/// Predictions are reproducible: two forward passes over equal weights,
/// biases and fold seed, on entrywise-equal input columns, return equal
/// output vectors. Together with seeded construction being reproducible,
/// two freshly built networks with the same seed, topology and arithmetic
/// predict identically.
pub proof fn lemma_prediction_deterministic<T, FA: Fn(T, T) -> T, FM: Fn(T, T) -> T, FF: Fn(
    T,
) -> T>(
    plus: FA,
    times: FM,
    act: FF,
    zero: T,
    topology: Seq<usize>,
    ws: Seq<Seq<Seq<T>>>,
    bs: Seq<Seq<Seq<T>>>,
    cache1: Seq<Seq<Seq<T>>>,
    cache2: Seq<Seq<Seq<T>>>,
    out1: Seq<T>,
    out2: Seq<T>,
)
    requires
        topology.len() >= 2,
        ws.len() == topology.len() - 1,
        cache1.len() == topology.len(),
        cache2.len() == topology.len(),
        forall|t: int| 0 <= t < ws.len() ==> (#[trigger] ws[t]).len() == topology[t + 1],
        forall|t: int|
            0 <= t < topology.len() ==> {
                &&& (#[trigger] cache1[t]).len() == topology[t]
                &&& ncols(cache1[t]) == 1
            },
        forall|t: int|
            0 <= t < topology.len() ==> {
                &&& (#[trigger] cache2[t]).len() == topology[t]
                &&& ncols(cache2[t]) == 1
            },
        forall|t: int|
            0 <= t < topology.len() - 1 ==> layer_step_rel(
                plus,
                times,
                act,
                zero,
                ws[t],
                cache1[t],
                bs[t],
                #[trigger] cache1[t + 1],
            ),
        forall|t: int|
            0 <= t < topology.len() - 1 ==> layer_step_rel(
                plus,
                times,
                act,
                zero,
                ws[t],
                cache2[t],
                bs[t],
                #[trigger] cache2[t + 1],
            ),
        forall|t: int| 0 <= t < topology[0] ==> (#[trigger] cache1[0][t])[0] == cache2[0][t][0],
        out1.len() == topology[topology.len() - 1],
        out2.len() == topology[topology.len() - 1],
        forall|t: int|
            0 <= t < out1.len() ==> #[trigger] out1[t] == cache1[topology.len() - 1][t][0],
        forall|t: int|
            0 <= t < out2.len() ==> #[trigger] out2[t] == cache2[topology.len() - 1][t][0],
        forall|x: T, y: T, a: T, c: T|
            #[trigger] call_ensures(plus, (x, y), a) && #[trigger] call_ensures(plus, (x, y), c)
                ==> a == c,
        forall|x: T, y: T, a: T, c: T|
            #[trigger] call_ensures(times, (x, y), a) && #[trigger] call_ensures(times, (x, y), c)
                ==> a == c,
        forall|x: T, a: T, c: T|
            #[trigger] call_ensures(act, (x,), a) && #[trigger] call_ensures(act, (x,), c) ==> a
                == c,
    ensures
        out1 == out2,
{
    lemma_cache_deterministic(
        plus,
        times,
        act,
        zero,
        topology,
        ws,
        bs,
        cache1,
        cache2,
        topology.len() - 1,
    );
    assert(out1 =~= out2);
}

/// An entrywise copy of a vector of scalars.
fn copied<T: Copy>(v: &Vec<T>) -> (r: Vec<T>)
    ensures
        r@ == v@,
{
    let mut out: Vec<T> = Vec::new();
    let mut i: usize = 0;
    while i < v.len()
        invariant
            0 <= i <= v@.len(),
            out@.len() == i,
            forall|t: int| 0 <= t < i ==> #[trigger] out@[t] == v@[t],
        decreases v@.len() - i,
    {
        out.push(v[i]);
        i += 1;
    }
    proof {
        assert(out@ =~= v@);
    }
    out
}

} // verus!
