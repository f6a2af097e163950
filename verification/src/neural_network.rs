//! Fixed-topology feedforward networks over fixed-point scalars: random
//! creation, inference through a squashing activation, and the bounded
//! random mutation that drives learning.

use vstd::prelude::*;
use crate::fixed::{SCALE, div_trunc, abs_spec, clamp_spec, div_fx, abs_fx, clamp_fx};
use crate::random::random_in_range;
use vstd::arithmetic::div_mod::{lemma_div_pos_is_pos, lemma_multiply_divide_lt};

verus! {

/// Upper limit on a single layer's width, so that inference arithmetic
/// provably fits in 64 bits.
pub const DIM_LIMIT: usize = 100_000;

/// A feedforward network: one weight matrix (rows of incoming weights)
/// and one bias vector per layer transition.  Weight and bias scalars are
/// fixed-point values in `[-SCALE, SCALE]`.
pub struct NeuralNetwork {
    pub input_size: usize,
    pub output_size: usize,
    pub weights: Vec<Vec<Vec<i64>>>,
    pub biases: Vec<Vec<i64>>,
}

/// Every element of `v` lies in `[-m, m]`.
pub open spec fn seq_bounded(v: Seq<i64>, m: int) -> bool {
    forall|j: int| 0 <= j < v.len() ==> -m <= #[trigger] v[j] <= m
}

/// Every element of every row lies in `[-m, m]`.
pub open spec fn mat_bounded(mm: Seq<Seq<i64>>, m: int) -> bool {
    forall|i: int| 0 <= i < mm.len() ==> seq_bounded(#[trigger] mm[i], m)
}

/// Every element of every matrix lies in `[-m, m]`.
pub open spec fn tensor_bounded(ww: Seq<Seq<Seq<i64>>>, m: int) -> bool {
    forall|t: int| 0 <= t < ww.len() ==> mat_bounded(#[trigger] ww[t], m)
}

/// The squashing activation: `x / (1 + |x|)` in fixed-point form.  It maps
/// every integer strictly inside `(-SCALE, SCALE)`.
pub open spec fn act(x: int) -> int {
    div_trunc(x * SCALE, SCALE + abs_spec(x))
}

/// The activation output is strictly inside `(-SCALE, SCALE)`, whatever
/// its argument.
pub proof fn lemma_act_strict(x: int)
    ensures
        -SCALE < act(x) < SCALE,
        x >= 0 ==> act(x) >= 0,
        x < 0 ==> act(x) <= 0,
{
    let den = SCALE + abs_spec(x);
    if x >= 0 {
        lemma_div_pos_is_pos(x * SCALE, den);
        assert(x * SCALE < den * SCALE) by (nonlinear_arith)
            requires
                den == SCALE + x,
                x >= 0,
                SCALE == 1000,
        ;
        lemma_multiply_divide_lt(x * SCALE, den, SCALE as int);
    } else {
        lemma_div_pos_is_pos(-(x * SCALE), den);
        assert(-(x * SCALE) < den * SCALE && -(x * SCALE) == (-x) * SCALE)
            by (nonlinear_arith)
            requires
                den == SCALE + -x,
                x < 0,
                SCALE == 1000,
        ;
        lemma_multiply_divide_lt(-(x * SCALE), den, SCALE as int);
        assert(div_trunc(x * SCALE, den) == -((-(x * SCALE)) / den));
    }
}

/// Dot product of the first `k` coordinates.
pub open spec fn dot_prefix(row: Seq<i64>, v: Seq<i64>, k: int) -> int
    decreases k,
{
    if k <= 0 {
        0
    } else {
        dot_prefix(row, v, k - 1) + row[k - 1] * v[k - 1]
    }
}

/// One neuron: activation of the scaled dot product plus the bias.
pub open spec fn neuron_out(row: Seq<i64>, b: i64, v: Seq<i64>) -> int {
    act(div_trunc(dot_prefix(row, v, row.len() as int), SCALE as int) + b)
}

/// One layer transition applied to the signal vector `v`.
pub open spec fn layer_out(m: Seq<Seq<i64>>, b: Seq<i64>, v: Seq<i64>) -> Seq<i64> {
    Seq::new(m.len(), |i: int| neuron_out(m[i], b[i], v) as i64)
}

/// The signal vector after the first `t` layer transitions.
pub open spec fn forward(
    ww: Seq<Seq<Seq<i64>>>,
    bb: Seq<Seq<i64>>,
    v: Seq<i64>,
    t: int,
) -> Seq<i64>
    decreases t,
{
    if t <= 0 {
        v
    } else {
        layer_out(ww[t - 1], bb[t - 1], forward(ww, bb, v, t - 1))
    }
}

impl NeuralNetwork {
    /// Width of the signal vector entering layer transition `t`.
    pub open spec fn layer_in(&self, t: int) -> int {
        if t <= 0 {
            self.input_size as int
        } else {
            self.weights.deep_view()[t - 1].len() as int
        }
    }

    /// Structural well-formedness: matching matrix and bias shapes, layer
    /// widths under `DIM_LIMIT`, and all scalars in `[-SCALE, SCALE]`.
    pub open spec fn wf(&self) -> bool {
        let ww = self.weights.deep_view();
        let bb = self.biases.deep_view();
        &&& ww.len() == bb.len()
        &&& self.input_size <= DIM_LIMIT
        &&& forall|t: int|
            0 <= t < ww.len() ==> (#[trigger] ww[t]).len() == bb[t].len()
                && ww[t].len() <= DIM_LIMIT
        &&& forall|t: int, i: int|
            0 <= t < ww.len() && 0 <= i < ww[t].len() ==> (#[trigger] ww[t][i]).len()
                == self.layer_in(t)
        &&& self.output_size == self.layer_in(ww.len() as int)
        &&& tensor_bounded(ww, SCALE as int)
        &&& mat_bounded(bb, SCALE as int)
    }

    /// The inference function: the signal vector after every layer.
    pub open spec fn infer_spec(&self, input: Seq<i64>) -> Seq<i64> {
        forward(
            self.weights.deep_view(),
            self.biases.deep_view(),
            input,
            self.weights.deep_view().len() as int,
        )
    }

    /// Two networks hold identical sizes, weights and biases.
    pub open spec fn equivalent(&self, other: &NeuralNetwork) -> bool {
        &&& self.input_size == other.input_size
        &&& self.output_size == other.output_size
        &&& self.weights.deep_view() == other.weights.deep_view()
        &&& self.biases.deep_view() == other.biases.deep_view()
    }
}

/// Shapes and bounds of the signal vector after `t` transitions: the width
/// follows the layer structure, and from the first transition on every
/// signal is strictly inside `(-SCALE, SCALE)`.
pub proof fn lemma_forward_props(net: &NeuralNetwork, input: Seq<i64>, t: int)
    requires
        net.wf(),
        input.len() == net.input_size,
        seq_bounded(input, SCALE as int),
        0 <= t <= net.weights.deep_view().len(),
    ensures
        forward(net.weights.deep_view(), net.biases.deep_view(), input, t).len()
            == net.layer_in(t),
        seq_bounded(
            forward(net.weights.deep_view(), net.biases.deep_view(), input, t),
            SCALE as int,
        ),
        t >= 1 ==> forall|j: int|
            0 <= j < forward(net.weights.deep_view(), net.biases.deep_view(), input, t).len()
                ==> -SCALE < #[trigger] forward(
                net.weights.deep_view(),
                net.biases.deep_view(),
                input,
                t,
            )[j] < SCALE,
    decreases t,
{
    let ww = net.weights.deep_view();
    let bb = net.biases.deep_view();
    if t > 0 {
        lemma_forward_props(net, input, t - 1);
        let prev = forward(ww, bb, input, t - 1);
        let cur = forward(ww, bb, input, t);
        assert(cur == layer_out(ww[t - 1], bb[t - 1], prev));
        assert forall|j: int| 0 <= j < cur.len() implies -SCALE < #[trigger] cur[j]
            < SCALE by {
            lemma_act_strict(
                div_trunc(
                    dot_prefix(ww[t - 1][j], prev, ww[t - 1][j].len() as int),
                    SCALE as int,
                ) + bb[t - 1][j],
            );
        }
    }
}

/// A fresh vector holding the same signals.
fn copy_signals(v: &Vec<i64>) -> (r: Vec<i64>)
    ensures
        r@ == v@,
{
    let mut r: Vec<i64> = Vec::new();
    let mut j: usize = 0;
    while j < v.len()
        invariant
            0 <= j <= v@.len(),
            r@ == v@.subrange(0, j as int),
        decreases v@.len() - j,
    {
        r.push(v[j]);
        proof {
            assert(r@ =~= v@.subrange(0, j + 1 as int));
        }
        j = j + 1;
    }
    proof {
        assert(r@ =~= v@);
    }
    r
}

/// The fixed-point squashing activation, executable.
fn activation_function(value: i64) -> (r: i64)
    requires
        -1_000_000_000_000 <= value <= 1_000_000_000_000,
    ensures
        r == act(value as int),
        -SCALE < r < SCALE,
{
    proof {
        lemma_act_strict(value as int);
    }
    let a = abs_fx(value);
    div_fx(value * SCALE, SCALE + a)
}

/// Dot product of a weight row with the signal vector.
fn dot_row(row: &Vec<i64>, v: &Vec<i64>) -> (acc: i64)
    requires
        row@.len() == v@.len(),
        row@.len() <= DIM_LIMIT,
        seq_bounded(row@, SCALE as int),
        seq_bounded(v@, SCALE as int),
    ensures
        acc == dot_prefix(row@, v@, row@.len() as int),
        -100_000_000_000 <= acc <= 100_000_000_000,
{
    let mut acc: i64 = 0;
    let mut j: usize = 0;
    while j < row.len()
        invariant
            0 <= j <= row@.len(),
            row@.len() == v@.len() <= DIM_LIMIT,
            seq_bounded(row@, SCALE as int),
            seq_bounded(v@, SCALE as int),
            acc == dot_prefix(row@, v@, j as int),
            -(j as int) * 1_000_000 <= acc <= (j as int) * 1_000_000,
        decreases row@.len() - j,
    {
        proof {
            assert(-1_000_000 <= row@[j as int] * v@[j as int] <= 1_000_000)
                by (nonlinear_arith)
                requires
                    -1000 <= row@[j as int] <= 1000,
                    -1000 <= v@[j as int] <= 1000,
            ;
        }
        acc = acc + row[j] * v[j];
        j = j + 1;
    }
    proof {
        assert((row@.len() as int) * 1_000_000 <= 100_000_000_000) by (nonlinear_arith)
            requires
                row@.len() <= 100_000,
        ;
    }
    acc
}

/// Apply one layer transition to the signal vector.
fn layer_apply(m: &Vec<Vec<i64>>, b: &Vec<i64>, v: &Vec<i64>) -> (r: Vec<i64>)
    requires
        m@.len() == b@.len(),
        m@.len() <= DIM_LIMIT,
        v@.len() <= DIM_LIMIT,
        forall|i: int| 0 <= i < m@.len() ==> (#[trigger] m.deep_view()[i]).len() == v@.len(),
        mat_bounded(m.deep_view(), SCALE as int),
        seq_bounded(b@, SCALE as int),
        seq_bounded(v@, SCALE as int),
    ensures
        r@ == layer_out(m.deep_view(), b@, v@),
        r@.len() == m@.len(),
        forall|j: int| 0 <= j < r@.len() ==> -SCALE < #[trigger] r@[j] < SCALE,
{
    let ghost dm = m.deep_view();
    let mut r: Vec<i64> = Vec::new();
    let mut i: usize = 0;
    while i < m.len()
        invariant
            0 <= i <= m@.len(),
            dm == m.deep_view(),
            m@.len() == b@.len() <= DIM_LIMIT,
            v@.len() <= DIM_LIMIT,
            forall|k: int| 0 <= k < m@.len() ==> (#[trigger] dm[k]).len() == v@.len(),
            mat_bounded(dm, SCALE as int),
            seq_bounded(b@, SCALE as int),
            seq_bounded(v@, SCALE as int),
            r@.len() == i,
            forall|k: int| 0 <= k < i ==> r@[k] == layer_out(dm, b@, v@)[k],
            forall|k: int| 0 <= k < i ==> -SCALE < #[trigger] r@[k] < SCALE,
        decreases m@.len() - i,
    {
        proof {
            assert(m@[i as int].deep_view() == dm[i as int]);
            assert(m@[i as int]@ =~= dm[i as int]);
        }
        let acc = dot_row(&m[i], v);
        let pre = div_fx(acc, SCALE) + b[i];
        let out = activation_function(pre);
        proof {
            lemma_act_strict(pre as int);
            assert(out == neuron_out(dm[i as int], b@[i as int], v@));
            assert(layer_out(dm, b@, v@)[i as int]
                == neuron_out(dm[i as int], b@[i as int], v@) as i64);
        }
        r.push(out);
        i = i + 1;
    }
    proof {
        assert(r@ =~= layer_out(dm, b@, v@));
    }
    r
}

impl NeuralNetwork {
    /// Inference without the input-length check: the hot-path entry point,
    /// whose precondition callers establish by construction.
    pub fn run_unchecked(&self, input: &Vec<i64>) -> (r: Vec<i64>)
        requires
            self.wf(),
            input@.len() == self.input_size,
            seq_bounded(input@, SCALE as int),
        ensures
            r@ == self.infer_spec(input@),
            r@.len() == self.output_size,
            seq_bounded(r@, SCALE as int),
            self.weights.deep_view().len() >= 1 ==> forall|j: int|
                0 <= j < r@.len() ==> -SCALE < #[trigger] r@[j] < SCALE,
    {
        let ghost ww = self.weights.deep_view();
        let ghost bb = self.biases.deep_view();
        let mut current = copy_signals(input);
        let mut t: usize = 0;
        while t < self.weights.len()
            invariant
                0 <= t <= ww.len(),
                self.wf(),
                ww == self.weights.deep_view(),
                bb == self.biases.deep_view(),
                input@.len() == self.input_size,
                seq_bounded(input@, SCALE as int),
                current@ == forward(ww, bb, input@, t as int),
                current@.len() == self.layer_in(t as int),
                seq_bounded(current@, SCALE as int),
            decreases ww.len() - t,
        {
            proof {
                assert(self.weights@[t as int].deep_view() == ww[t as int]);
                assert(self.biases@[t as int]@ =~= bb[t as int]);
                assert forall|i: int| 0 <= i < self.weights@[t as int]@.len()
                    implies (#[trigger] self.weights@[t as int].deep_view()[i]).len()
                        == current@.len() by {
                    assert(ww[t as int][i].len() == self.layer_in(t as int));
                }
            }
            current = layer_apply(&self.weights[t], &self.biases[t], &current);
            t = t + 1;
        }
        proof {
            lemma_forward_props(self, input@, ww.len() as int);
        }
        current
    }

    /// Checked inference: rejects a signal vector whose length does not
    /// match the network's input size, and otherwise runs inference.
    pub fn run(&self, input: &Vec<i64>) -> (r: Result<Vec<i64>, String>)
        requires
            self.wf(),
            seq_bounded(input@, SCALE as int),
        ensures
            r is Ok <==> input@.len() == self.input_size,
            r is Ok ==> r->Ok_0@ == self.infer_spec(input@)
                && r->Ok_0@.len() == self.output_size,
    {
        if input.len() != self.input_size {
            return Err("Incorrect input size for neural network".to_string());
        }
        Ok(self.run_unchecked(input))
    }
}

/// Bridge between a matrix's deep view and its per-row views.
pub proof fn lemma_mat_deep_view(m: &Vec<Vec<i64>>)
    ensures
        m.deep_view().len() == m@.len(),
        forall|i: int| 0 <= i < m@.len() ==> #[trigger] m.deep_view()[i] == m@[i]@,
{
    assert forall|i: int| 0 <= i < m@.len() implies #[trigger] m.deep_view()[i]
        == m@[i]@ by {
        assert(m.deep_view()[i] =~= m@[i]@);
    }
}

/// Bridge between a weight tensor's deep view and its per-matrix views.
pub proof fn lemma_tensor_deep_view(w: &Vec<Vec<Vec<i64>>>)
    ensures
        w.deep_view().len() == w@.len(),
        forall|t: int| 0 <= t < w@.len() ==> #[trigger] w.deep_view()[t]
            == w@[t].deep_view(),
{
}

/// A row of `cols` random weights, each drawn uniformly from `[0, SCALE)`.
fn random_row(cols: usize) -> (r: Vec<i64>)
    ensures
        r@.len() == cols,
        forall|j: int| 0 <= j < cols ==> 0 <= #[trigger] r@[j] < SCALE,
{
    let mut r: Vec<i64> = Vec::new();
    let mut j: usize = 0;
    while j < cols
        invariant
            0 <= j <= cols,
            r@.len() == j,
            forall|k: int| 0 <= k < j ==> 0 <= #[trigger] r@[k] < SCALE,
        decreases cols - j,
    {
        r.push(random_in_range(0, SCALE));
        j = j + 1;
    }
    r
}

/// A `rows x cols` matrix of random weights in `[0, SCALE)`.
fn random_matrix(rows: usize, cols: usize) -> (m: Vec<Vec<i64>>)
    ensures
        m@.len() == rows,
        forall|i: int| 0 <= i < rows ==> (#[trigger] m@[i])@.len() == cols,
        forall|i: int, j: int| 0 <= i < rows && 0 <= j < cols ==> 0
            <= #[trigger] m@[i]@[j] < SCALE,
{
    let mut m: Vec<Vec<i64>> = Vec::new();
    let mut i: usize = 0;
    while i < rows
        invariant
            0 <= i <= rows,
            m@.len() == i,
            forall|k: int| 0 <= k < i ==> (#[trigger] m@[k])@.len() == cols,
            forall|k: int, j: int| 0 <= k < i && 0 <= j < cols ==> 0
                <= #[trigger] m@[k]@[j] < SCALE,
        decreases rows - i,
    {
        let row = random_row(cols);
        m.push(row);
        i = i + 1;
    }
    m
}

/// Every weight and bias of a freshly created network lies in
/// `[0, SCALE)`: random creation samples the unit interval and applies
/// no clamp.
pub open spec fn freshly_random(n: NeuralNetwork) -> bool {
    &&& forall|t: int, i: int, j: int|
        0 <= t < n.weights.deep_view().len() && 0 <= i < n.weights.deep_view()[t].len()
            && 0 <= j < n.weights.deep_view()[t][i].len() ==> 0
            <= #[trigger] n.weights.deep_view()[t][i][j] < SCALE
    &&& forall|t: int, j: int|
        0 <= t < n.biases.deep_view().len() && 0 <= j < n.biases.deep_view()[t].len()
            ==> 0 <= #[trigger] n.biases.deep_view()[t][j] < SCALE
}

impl NeuralNetwork {
    /// Build a network with independently random weights and biases, one
    /// matrix and bias vector per consecutive pair of layer sizes.  The
    /// hot-path constructor: the layer list is trusted to be nonempty.
    pub fn new_random_unchecked(layer_sizes: &Vec<usize>) -> (r: NeuralNetwork)
        requires
            layer_sizes@.len() >= 1,
            forall|i: int| 0 <= i < layer_sizes@.len() ==> #[trigger] layer_sizes@[i]
                <= DIM_LIMIT,
        ensures
            r.wf(),
            r.input_size == layer_sizes@[0],
            r.output_size == layer_sizes@[layer_sizes@.len() - 1],
            r.weights.deep_view().len() == layer_sizes@.len() - 1,
            forall|t: int| 0 <= t < r.weights.deep_view().len()
                ==> (#[trigger] r.weights.deep_view()[t]).len() == layer_sizes@[t + 1],
            freshly_random(r),
    {
        let total_layers = layer_sizes.len();
        let mut weights: Vec<Vec<Vec<i64>>> = Vec::new();
        let mut biases: Vec<Vec<i64>> = Vec::new();
        let mut i: usize = 1;
        while i < total_layers
            invariant
                1 <= i <= total_layers,
                total_layers == layer_sizes@.len(),
                forall|k: int| 0 <= k < layer_sizes@.len() ==> #[trigger] layer_sizes@[k]
                    <= DIM_LIMIT,
                weights@.len() == i - 1,
                biases@.len() == i - 1,
                forall|t: int| 0 <= t < i - 1 ==> (#[trigger] weights@[t])@.len()
                    == layer_sizes@[t + 1],
                forall|t: int, k: int| 0 <= t < i - 1 && 0 <= k < weights@[t]@.len()
                    ==> (#[trigger] weights@[t]@[k])@.len() == layer_sizes@[t],
                forall|t: int, k: int, j: int|
                    0 <= t < i - 1 && 0 <= k < weights@[t]@.len() && 0 <= j
                        < weights@[t]@[k]@.len() ==> 0 <= #[trigger] weights@[t]@[k]@[j]
                        < SCALE,
                forall|t: int| 0 <= t < i - 1 ==> (#[trigger] biases@[t])@.len()
                    == layer_sizes@[t + 1],
                forall|t: int, j: int| 0 <= t < i - 1 && 0 <= j < biases@[t]@.len() ==> 0
                    <= #[trigger] biases@[t]@[j] < SCALE,
            decreases total_layers - i,
        {
            let m = random_matrix(layer_sizes[i], layer_sizes[i - 1]);
            let b = random_row(layer_sizes[i]);
            weights.push(m);
            biases.push(b);
            i = i + 1;
        }
        let r = NeuralNetwork {
            input_size: layer_sizes[0],
            output_size: layer_sizes[total_layers - 1],
            weights,
            biases,
        };
        proof {
            lemma_tensor_deep_view(&r.weights);
            lemma_mat_deep_view(&r.biases);
            let ww = r.weights.deep_view();
            assert forall|t: int| 0 <= t < ww.len() implies (#[trigger] ww[t]).len()
                == r.biases.deep_view()[t].len() && ww[t].len() <= DIM_LIMIT by {
                lemma_mat_deep_view(&r.weights@[t]);
            }
            assert forall|t: int, k: int|
                0 <= t < ww.len() && 0 <= k < ww[t].len() implies (#[trigger] ww[t][k]).len()
                    == r.layer_in(t) by {
                lemma_mat_deep_view(&r.weights@[t]);
                if t > 0 {
                    lemma_mat_deep_view(&r.weights@[t - 1]);
                }
            }
            assert forall|t: int| 0 <= t < ww.len() implies mat_bounded(
                #[trigger] ww[t],
                SCALE as int,
            ) by {
                lemma_mat_deep_view(&r.weights@[t]);
                assert forall|k: int| 0 <= k < ww[t].len() implies seq_bounded(
                    #[trigger] ww[t][k],
                    SCALE as int,
                ) by {
                    assert(ww[t][k] == r.weights@[t]@[k]@);
                }
            }
            assert(r.output_size == r.layer_in(ww.len() as int)) by {
                if ww.len() > 0 {
                    lemma_mat_deep_view(&r.weights@[ww.len() - 1]);
                }
            }
            assert forall|t: int, i: int, j: int|
                0 <= t < ww.len() && 0 <= i < ww[t].len() && 0 <= j < ww[t][i].len()
                    implies 0 <= #[trigger] ww[t][i][j] < SCALE by {
                lemma_mat_deep_view(&r.weights@[t]);
                assert(ww[t][i] == r.weights@[t]@[i]@);
            }
            assert forall|t: int, j: int|
                0 <= t < r.biases.deep_view().len() && 0 <= j < r.biases.deep_view()[t]
                    .len() implies 0 <= #[trigger] r.biases.deep_view()[t][j] < SCALE by {
                assert(r.biases.deep_view()[t] == r.biases@[t]@);
            }
        }
        r
    }

    /// Validated constructor: rejects a layer list shorter than two, which
    /// could not describe an input and an output layer.
    pub fn new_random(layer_sizes: &Vec<usize>) -> (r: Result<NeuralNetwork, String>)
        requires
            forall|i: int| 0 <= i < layer_sizes@.len() ==> #[trigger] layer_sizes@[i]
                <= DIM_LIMIT,
        ensures
            r is Ok <==> layer_sizes@.len() >= 2,
            r is Ok ==> {
                let n = r->Ok_0;
                &&& n.wf()
                &&& n.input_size == layer_sizes@[0]
                &&& n.output_size == layer_sizes@[layer_sizes@.len() - 1]
                &&& n.weights.deep_view().len() == layer_sizes@.len() - 1
                &&& freshly_random(n)
            },
    {
        let total_layers = layer_sizes.len();
        if total_layers < 2 {
            return Err(
                "Neural network must have at least 2 layers for input and output".to_string(),
            );
        }
        Ok(Self::new_random_unchecked(layer_sizes))
    }
}

/// One scalar after a mutation step: some delta in `[-change, change)`
/// times `mult` was added, and the sum clamped into `[-SCALE, SCALE]`.
pub open spec fn tweaked_scalar(pre: i64, post: i64, change: int, mult: int) -> bool {
    exists|d: int|
        -change <= d < change && post == #[trigger] clamp_spec(
            pre + d * mult,
            -(SCALE as int),
            SCALE as int,
        )
}

/// A whole row after a mutation step.
pub open spec fn tweaked_row(pre: Seq<i64>, post: Seq<i64>, change: int, mult: int) -> bool {
    &&& post.len() == pre.len()
    &&& forall|j: int| 0 <= j < pre.len() ==> tweaked_scalar(
        pre[j],
        #[trigger] post[j],
        change,
        mult,
    )
}

/// A whole matrix after a mutation step.
pub open spec fn tweaked_mat(
    pre: Seq<Seq<i64>>,
    post: Seq<Seq<i64>>,
    change: int,
    mult: int,
) -> bool {
    &&& post.len() == pre.len()
    &&& forall|i: int| 0 <= i < pre.len() ==> tweaked_row(
        pre[i],
        #[trigger] post[i],
        change,
        mult,
    )
}

/// A whole weight tensor after a mutation step.
pub open spec fn tweaked_tensor(
    pre: Seq<Seq<Seq<i64>>>,
    post: Seq<Seq<Seq<i64>>>,
    change: int,
    mult: int,
) -> bool {
    &&& post.len() == pre.len()
    &&& forall|t: int| 0 <= t < pre.len() ==> tweaked_mat(
        pre[t],
        #[trigger] post[t],
        change,
        mult,
    )
}

/// Law: a mutation step leaves every scalar inside `[-SCALE, SCALE]`,
/// whatever the scalars were before.  Mutation applied repeatedly therefore
/// never produces a weight or bias outside the unit interval.
pub proof fn lemma_tweak_keeps_bounds(
    pre: Seq<Seq<Seq<i64>>>,
    post: Seq<Seq<Seq<i64>>>,
    change: int,
    mult: int,
)
    requires
        tweaked_tensor(pre, post, change, mult),
    ensures
        tensor_bounded(post, SCALE as int),
{
    assert forall|t: int| 0 <= t < post.len() implies mat_bounded(
        #[trigger] post[t],
        SCALE as int,
    ) by {
        assert(tweaked_mat(pre[t], post[t], change, mult));
        assert forall|i: int| 0 <= i < post[t].len() implies seq_bounded(
            #[trigger] post[t][i],
            SCALE as int,
        ) by {
            assert(tweaked_row(pre[t][i], post[t][i], change, mult));
            assert forall|j: int| 0 <= j < post[t][i].len() implies -SCALE
                <= #[trigger] post[t][i][j] <= SCALE by {
                assert(tweaked_scalar(pre[t][i][j], post[t][i][j], change, mult));
            }
        }
    }
}

/// Law: along any chain of networks in which each is one mutation step
/// from the one before — whatever the per-step bounds and whatever the
/// starting scalars — every network after the first has all weights and
/// biases inside `[-SCALE, SCALE]`.
pub proof fn lemma_repeated_mutation_bounded(
    chain: Seq<NeuralNetwork>,
    changes: Seq<int>,
    mults: Seq<int>,
)
    requires
        chain.len() >= 1,
        changes.len() == chain.len() - 1,
        mults.len() == chain.len() - 1,
        forall|i: int|
            0 <= i < chain.len() - 1 ==> tweaked_tensor(
                chain[i].weights.deep_view(),
                (#[trigger] chain[i + 1]).weights.deep_view(),
                changes[i],
                mults[i],
            ) && tweaked_mat(
                chain[i].biases.deep_view(),
                chain[i + 1].biases.deep_view(),
                changes[i],
                mults[i],
            ),
    ensures
        forall|i: int|
            1 <= i < chain.len() ==> tensor_bounded(
                (#[trigger] chain[i]).weights.deep_view(),
                SCALE as int,
            ) && mat_bounded(chain[i].biases.deep_view(), SCALE as int),
{
    assert forall|i: int|
        1 <= i < chain.len() implies tensor_bounded(
        (#[trigger] chain[i]).weights.deep_view(),
        SCALE as int,
    ) && mat_bounded(chain[i].biases.deep_view(), SCALE as int) by {
        assert(chain[(i - 1) + 1] == chain[i]);
        assert(tweaked_tensor(
            chain[i - 1].weights.deep_view(),
            chain[i].weights.deep_view(),
            changes[i - 1],
            mults[i - 1],
        ));
        lemma_tweak_keeps_bounds(
            chain[i - 1].weights.deep_view(),
            chain[i].weights.deep_view(),
            changes[i - 1],
            mults[i - 1],
        );
        lemma_tweaked_mat_bounded(
            chain[i - 1].biases.deep_view(),
            chain[i].biases.deep_view(),
            changes[i - 1],
            mults[i - 1],
        );
    }
}

/// A mutation step leaves every bias inside `[-SCALE, SCALE]`, whatever
/// the biases were before.
pub proof fn lemma_tweaked_mat_bounded(
    pre: Seq<Seq<i64>>,
    post: Seq<Seq<i64>>,
    change: int,
    mult: int,
)
    requires
        tweaked_mat(pre, post, change, mult),
    ensures
        mat_bounded(post, SCALE as int),
{
    assert forall|i: int| 0 <= i < post.len() implies seq_bounded(
        #[trigger] post[i],
        SCALE as int,
    ) by {
        assert(tweaked_row(pre[i], post[i], change, mult));
        assert forall|j: int| 0 <= j < post[i].len() implies -SCALE <= #[trigger] post[i][j]
            <= SCALE by {
            assert(tweaked_scalar(pre[i][j], post[i][j], change, mult));
        }
    }
}

/// A row with every element nudged by a fresh random delta and clamped.
fn tweak_vec(row: &Vec<i64>, change: i64, mult: i64) -> (r: Vec<i64>)
    requires
        0 < change <= 1_000_000_000,
        mult == 1 || mult == SCALE,
        seq_bounded(row@, SCALE as int),
    ensures
        tweaked_row(row@, r@, change as int, mult as int),
        seq_bounded(r@, SCALE as int),
{
    let mut r: Vec<i64> = Vec::new();
    let mut j: usize = 0;
    while j < row.len()
        invariant
            0 <= j <= row@.len(),
            0 < change <= 1_000_000_000,
            mult == 1 || mult == SCALE,
            seq_bounded(row@, SCALE as int),
            r@.len() == j,
            forall|k: int| 0 <= k < j ==> tweaked_scalar(
                row@[k],
                #[trigger] r@[k],
                change as int,
                mult as int,
            ),
            seq_bounded(r@, SCALE as int),
        decreases row@.len() - j,
    {
        let d = random_in_range(-change, change);
        proof {
            assert(-1_000_000_000_000 <= d * mult <= 1_000_000_000_000)
                by (nonlinear_arith)
                requires
                    -1_000_000_000 <= d <= 1_000_000_000,
                    mult == 1 || mult == 1000,
            ;
        }
        let e = clamp_fx(row[j] + d * mult, -SCALE, SCALE);
        proof {
            assert(e == clamp_spec(
                row@[j as int] + (d as int) * (mult as int),
                -(SCALE as int),
                SCALE as int,
            ));
        }
        r.push(e);
        j = j + 1;
    }
    r
}

/// A matrix with every element nudged and clamped.
fn tweak_matrix(m: &Vec<Vec<i64>>, change: i64, mult: i64) -> (r: Vec<Vec<i64>>)
    requires
        0 < change <= 1_000_000_000,
        mult == 1 || mult == SCALE,
        mat_bounded(m.deep_view(), SCALE as int),
    ensures
        tweaked_mat(m.deep_view(), r.deep_view(), change as int, mult as int),
        mat_bounded(r.deep_view(), SCALE as int),
{
    proof {
        lemma_mat_deep_view(m);
    }
    let mut r: Vec<Vec<i64>> = Vec::new();
    let mut i: usize = 0;
    while i < m.len()
        invariant
            0 <= i <= m@.len(),
            0 < change <= 1_000_000_000,
            mult == 1 || mult == SCALE,
            mat_bounded(m.deep_view(), SCALE as int),
            forall|k: int| 0 <= k < m@.len() ==> #[trigger] m.deep_view()[k] == m@[k]@,
            r@.len() == i,
            forall|k: int| 0 <= k < i ==> tweaked_row(
                m.deep_view()[k],
                (#[trigger] r@[k])@,
                change as int,
                mult as int,
            ),
            forall|k: int| 0 <= k < i ==> seq_bounded((#[trigger] r@[k])@, SCALE as int),
        decreases m@.len() - i,
    {
        proof {
            assert(m.deep_view()[i as int] == m@[i as int]@);
            assert(seq_bounded(m.deep_view()[i as int], SCALE as int));
        }
        let row = tweak_vec(&m[i], change, mult);
        r.push(row);
        i = i + 1;
    }
    proof {
        lemma_mat_deep_view(&r);
    }
    r
}

impl NeuralNetwork {
    /// Nudge every weight and bias by an independent uniform delta from
    /// `(-change, change)` and clamp the result into `[-SCALE, SCALE]`:
    /// the sole learning operator.
    pub fn tweak_continuous(&mut self, change: i64)
        requires
            old(self).wf(),
            0 < change <= 1_000_000_000,
        ensures
            final(self).wf(),
            final(self).input_size == old(self).input_size,
            final(self).output_size == old(self).output_size,
            tweaked_tensor(
                old(self).weights.deep_view(),
                final(self).weights.deep_view(),
                change as int,
                1,
            ),
            tweaked_mat(
                old(self).biases.deep_view(),
                final(self).biases.deep_view(),
                change as int,
                1,
            ),
    {
        self.tweak_all(change, 1)
    }

    /// The discrete mutation: deltas are whole units, so a weight either
    /// saturates at the interval ends or jumps by whole steps.
    pub fn tweak_discrete(&mut self, change: u32)
        requires
            old(self).wf(),
            0 < change <= 1_000_000,
        ensures
            final(self).wf(),
            final(self).input_size == old(self).input_size,
            final(self).output_size == old(self).output_size,
            tweaked_tensor(
                old(self).weights.deep_view(),
                final(self).weights.deep_view(),
                change as int,
                SCALE as int,
            ),
            tweaked_mat(
                old(self).biases.deep_view(),
                final(self).biases.deep_view(),
                change as int,
                SCALE as int,
            ),
    {
        self.tweak_all(change as i64, SCALE)
    }

    /// Shared body of the two mutation operators.
    fn tweak_all(&mut self, change: i64, mult: i64)
        requires
            old(self).wf(),
            0 < change <= 1_000_000_000,
            mult == 1 || mult == SCALE,
        ensures
            final(self).wf(),
            final(self).input_size == old(self).input_size,
            final(self).output_size == old(self).output_size,
            tweaked_tensor(
                old(self).weights.deep_view(),
                final(self).weights.deep_view(),
                change as int,
                mult as int,
            ),
            tweaked_mat(
                old(self).biases.deep_view(),
                final(self).biases.deep_view(),
                change as int,
                mult as int,
            ),
    {
        let ghost pre = *old(self);
        let ghost ww = old(self).weights.deep_view();
        let ghost bb = old(self).biases.deep_view();
        let mut new_weights: Vec<Vec<Vec<i64>>> = Vec::new();
        let mut t: usize = 0;
        while t < self.weights.len()
            invariant
                *self == pre,
                self.wf(),
                0 < change <= 1_000_000_000,
                mult == 1 || mult == SCALE,
                ww == self.weights.deep_view(),
                0 <= t <= ww.len(),
                new_weights@.len() == t,
                forall|k: int| 0 <= k < t ==> tweaked_mat(
                    ww[k],
                    (#[trigger] new_weights@[k]).deep_view(),
                    change as int,
                    mult as int,
                ),
                forall|k: int| 0 <= k < t ==> mat_bounded(
                    (#[trigger] new_weights@[k]).deep_view(),
                    SCALE as int,
                ),
            decreases ww.len() - t,
        {
            proof {
                assert(self.weights@[t as int].deep_view() == ww[t as int]);
                assert(mat_bounded(ww[t as int], SCALE as int));
            }
            let m = tweak_matrix(&self.weights[t], change, mult);
            new_weights.push(m);
            t = t + 1;
        }
        let new_biases = tweak_matrix(&self.biases, change, mult);
        self.weights = new_weights;
        self.biases = new_biases;
        proof {
            lemma_tensor_deep_view(&self.weights);
            let nw = self.weights.deep_view();
            let nb = self.biases.deep_view();
            assert(tweaked_tensor(ww, nw, change as int, mult as int));
            assert forall|tt: int| 0 <= tt < nw.len() implies (#[trigger] nw[tt]).len()
                == nb[tt].len() && nw[tt].len() <= DIM_LIMIT by {
                assert(tweaked_mat(ww[tt], nw[tt], change as int, mult as int));
                assert(tweaked_row(bb[tt], nb[tt], change as int, mult as int));
            }
            assert forall|tt: int, i: int|
                0 <= tt < nw.len() && 0 <= i < nw[tt].len() implies (#[trigger] nw[tt][i]).len()
                    == self.layer_in(tt) by {
                assert(tweaked_mat(ww[tt], nw[tt], change as int, mult as int));
                assert(tweaked_row(ww[tt][i], nw[tt][i], change as int, mult as int));
                if tt > 0 {
                    assert(tweaked_mat(ww[tt - 1], nw[tt - 1], change as int, mult as int));
                }
                assert(pre.layer_in(tt) == self.layer_in(tt));
            }
            assert forall|tt: int| 0 <= tt < nw.len() implies mat_bounded(
                #[trigger] nw[tt],
                SCALE as int,
            ) by {
                assert(tweaked_mat(ww[tt], nw[tt], change as int, mult as int));
            }
            assert(self.output_size == self.layer_in(nw.len() as int)) by {
                if nw.len() > 0 {
                    assert(tweaked_mat(
                        ww[nw.len() - 1],
                        nw[nw.len() - 1],
                        change as int,
                        mult as int,
                    ));
                }
            }
        }
    }

    /// A field-for-field copy of the network.
    pub fn duplicate(&self) -> (r: NeuralNetwork)
        ensures
            r.equivalent(self),
    {
        let mut weights: Vec<Vec<Vec<i64>>> = Vec::new();
        let mut t: usize = 0;
        while t < self.weights.len()
            invariant
                0 <= t <= self.weights@.len(),
                weights@.len() == t,
                forall|k: int| 0 <= k < t ==> (#[trigger] weights@[k]).deep_view()
                    == self.weights.deep_view()[k],
            decreases self.weights@.len() - t,
        {
            let m = copy_matrix(&self.weights[t]);
            weights.push(m);
            t = t + 1;
        }
        let biases = copy_matrix(&self.biases);
        let r = NeuralNetwork {
            input_size: self.input_size,
            output_size: self.output_size,
            weights,
            biases,
        };
        proof {
            lemma_tensor_deep_view(&r.weights);
            lemma_tensor_deep_view(&self.weights);
            assert(r.weights.deep_view() =~= self.weights.deep_view());
            assert(r.biases.deep_view() =~= self.biases.deep_view());
        }
        r
    }
}

/// A fresh matrix holding the same scalars.
fn copy_matrix(m: &Vec<Vec<i64>>) -> (r: Vec<Vec<i64>>)
    ensures
        r.deep_view() == m.deep_view(),
{
    proof {
        lemma_mat_deep_view(m);
    }
    let mut r: Vec<Vec<i64>> = Vec::new();
    let mut i: usize = 0;
    while i < m.len()
        invariant
            0 <= i <= m@.len(),
            r@.len() == i,
            forall|k: int| 0 <= k < i ==> (#[trigger] r@[k])@ == m.deep_view()[k],
        decreases m@.len() - i,
    {
        let row = copy_signals(&m[i]);
        proof {
            assert(row@ == m@[i as int]@);
            assert(m.deep_view()[i as int] == m@[i as int]@);
        }
        r.push(row);
        i = i + 1;
    }
    proof {
        lemma_mat_deep_view(&r);
        assert(r.deep_view() =~= m.deep_view());
    }
    r
}

/// Every element of `v` lies in `[-SCALE, SCALE]`, checked at run time.
fn check_row_bounded(row: &Vec<i64>) -> (r: bool)
    ensures
        r <==> seq_bounded(row@, SCALE as int),
{
    let mut j: usize = 0;
    while j < row.len()
        invariant
            0 <= j <= row@.len(),
            forall|k: int| 0 <= k < j ==> -SCALE <= #[trigger] row@[k] <= SCALE,
        decreases row@.len() - j,
    {
        if row[j] < -SCALE || row[j] > SCALE {
            return false;
        }
        j = j + 1;
    }
    true
}

impl NeuralNetwork {
    /// Decide well-formedness at run time: shape consistency, width
    /// limits and scalar bounds.
    pub fn validate(&self) -> (r: bool)
        ensures
            r <==> self.wf(),
    {
        proof {
            lemma_tensor_deep_view(&self.weights);
            lemma_mat_deep_view(&self.biases);
        }
        let ghost ww = self.weights.deep_view();
        let ghost bb = self.biases.deep_view();
        if self.weights.len() != self.biases.len() {
            return false;
        }
        if self.input_size > DIM_LIMIT {
            return false;
        }
        let mut prev: usize = self.input_size;
        let mut t: usize = 0;
        while t < self.weights.len()
            invariant
                0 <= t <= ww.len(),
                ww == self.weights.deep_view(),
                bb == self.biases.deep_view(),
                ww.len() == self.weights@.len() == bb.len() == self.biases@.len(),
                self.input_size <= DIM_LIMIT,
                prev as int == self.layer_in(t as int),
                prev <= DIM_LIMIT,
                forall|q: int| 0 <= q < t ==> (#[trigger] ww[q]).len() == bb[q].len()
                    && ww[q].len() <= DIM_LIMIT,
                forall|q: int, i: int|
                    0 <= q < t && 0 <= i < ww[q].len() ==> (#[trigger] ww[q][i]).len()
                        == self.layer_in(q),
                forall|q: int| 0 <= q < t ==> mat_bounded(#[trigger] ww[q], SCALE as int),
                forall|q: int| 0 <= q < t ==> seq_bounded(#[trigger] bb[q], SCALE as int),
            decreases ww.len() - t,
        {
            proof {
                lemma_mat_deep_view(&self.weights@[t as int]);
                assert(ww[t as int] == self.weights@[t as int].deep_view());
                assert(bb[t as int] == self.biases@[t as int]@);
            }
            let m = &self.weights[t];
            let b = &self.biases[t];
            let rows = m.len();
            if rows != b.len() || rows > DIM_LIMIT {
                return false;
            }
            let mut i: usize = 0;
            while i < rows
                invariant
                    0 <= i <= rows,
                    rows == self.weights@[t as int]@.len(),
                    t < self.weights@.len(),
                    t < ww.len(),
                    ww == self.weights.deep_view(),
                    m == &self.weights@[t as int],
                    ww[t as int].len() == rows,
                    forall|k: int| 0 <= k < rows ==> #[trigger] ww[t as int][k] == m@[k]@,
                    prev as int == self.layer_in(t as int),
                    prev <= DIM_LIMIT,
                    forall|k: int| 0 <= k < i ==> (#[trigger] m@[k])@.len() == prev
                        && seq_bounded(m@[k]@, SCALE as int),
                decreases rows - i,
            {
                if m[i].len() != prev {
                    proof {
                        assert(ww[t as int][i as int] == m@[i as int]@);
                    }
                    return false;
                }
                if !check_row_bounded(&m[i]) {
                    proof {
                        assert(ww[t as int][i as int] == m@[i as int]@);
                        assert(self.wf() ==> seq_bounded(ww[t as int][i as int], SCALE as int));
                    }
                    return false;
                }
                i = i + 1;
            }
            if !check_row_bounded(b) {
                proof {
                    assert(bb[t as int] == self.biases@[t as int]@);
                }
                return false;
            }
            proof {
                let tt = t as int;
                assert forall|i2: int| 0 <= i2 < ww[tt].len() implies
                    (#[trigger] ww[tt][i2]).len() == self.layer_in(tt) by {
                    assert(ww[t as int][i2] == m@[i2]@);
                }
                assert(mat_bounded(ww[t as int], SCALE as int)) by {
                    assert forall|i2: int| 0 <= i2 < ww[t as int].len() implies seq_bounded(
                        #[trigger] ww[t as int][i2],
                        SCALE as int,
                    ) by {
                        assert(ww[t as int][i2] == m@[i2]@);
                    }
                }
                assert(bb[t as int] == self.biases@[t as int]@);
            }
            prev = rows;
            t = t + 1;
        }
        if self.output_size != prev {
            return false;
        }
        proof {
            assert(tensor_bounded(ww, SCALE as int));
            assert(mat_bounded(bb, SCALE as int));
        }
        true
    }
}

/// Law: inference maps a signal vector of the network's input width to one
/// of its output width, with every element strictly inside the unit
/// interval once at least one layer transition exists.
pub proof fn lemma_infer_unit_interval(net: &NeuralNetwork, input: Seq<i64>)
    requires
        net.wf(),
        net.weights.deep_view().len() >= 1,
        input.len() == net.input_size,
        seq_bounded(input, SCALE as int),
    ensures
        net.infer_spec(input).len() == net.output_size,
        forall|j: int| 0 <= j < net.infer_spec(input).len() ==> -SCALE
            < #[trigger] net.infer_spec(input)[j] < SCALE,
{
    lemma_forward_props(net, input, net.weights.deep_view().len() as int);
}

} // verus!
