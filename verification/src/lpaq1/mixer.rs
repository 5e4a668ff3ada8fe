//! Logistic mixing of stretched predictions.
//!
//! The mixer holds several sets of weights, one of which is selected by a
//! small context. Its output is the squashed dot product of the inputs and
//! the selected weights; after the bit is known, each selected weight
//! moves in proportion to its input and to the coding error.

use vstd::prelude::*;
use crate::logistic::squash;
use crate::logistic::squash_spec;

verus! {

/// Wrapping sum of the first `n` products of an input and the weight at
/// the same place behind `base`.
pub open spec fn dot(inputs: Seq<i32>, weights: Seq<i32>, base: int, n: nat) -> i32
    decreases n,
{
    if n == 0 {
        0
    } else {
        dot(inputs, weights, base, (n - 1) as nat).wrapping_add(
            inputs[n - 1].wrapping_mul(weights[base + n - 1]),
        )
    }
}

/// How far one weight moves for its input and the coding error.
pub open spec fn weight_step(input: i32, error: i32) -> int {
    (input * error + 0x8000) / 0x1_0000
}

/// The weights after training: those facing an input move, wrapping at
/// 32 bits; the others stay.
pub open spec fn trained(inputs: Seq<i32>, weights: Seq<i32>, base: int, error: i32) -> Seq<i32> {
    Seq::new(
        weights.len(),
        |k: int|
            if base <= k < base + inputs.len() {
                weights[k].wrapping_add(weight_step(inputs[k - base], error) as i32)
            } else {
                weights[k]
            },
    )
}

/// The coding error of prediction `pr` for `bit`, scaled by the learning
/// rate.
pub open spec fn coding_error(bit: int, pr: int) -> int {
    (bit * 4096 - pr) * 7
}

/// Mathematical content of a [`Mixer`].
pub struct MixerModel {
    /// Inputs per prediction.
    pub n: int,
    pub inputs: Seq<i32>,
    pub weights: Seq<i32>,
    /// Where the selected weight set starts.
    pub base: int,
    /// The last prediction.
    pub pr: int,
}

impl MixerModel {
    /// There is room for the inputs, the selected weight set lies within
    /// the weights, and the inputs are stretched probabilities.
    pub open spec fn wf(self) -> bool {
        &&& 0 < self.n
        &&& self.inputs.len() <= self.n
        &&& 0 <= self.base
        &&& self.base + self.n <= self.weights.len()
        &&& 0 <= self.pr <= 4095
        &&& forall|i: int| 0 <= i < self.inputs.len() ==> -2047 <= #[trigger] self.inputs[i] <= 2047
    }

    /// `m` sets of `n` zero weights, no input, prediction one half.
    pub open spec fn fresh(n: int, m: int) -> Self {
        MixerModel {
            n,
            inputs: Seq::empty(),
            weights: Seq::new((n * m) as nat, |k: int| 0i32),
            base: 0,
            pr: 2048,
        }
    }

    /// One more input.
    pub open spec fn add(self, x: i32) -> Self {
        MixerModel { inputs: self.inputs.push(x), ..self }
    }

    /// The weight set of context `cxt` selected.
    pub open spec fn set(self, cxt: int) -> Self {
        MixerModel { base: cxt * self.n, ..self }
    }

    /// The mixed prediction becomes the last prediction.
    pub open spec fn predict(self) -> Self {
        MixerModel {
            pr: squash_spec(
                dot(self.inputs, self.weights, self.base, self.inputs.len()) as int / 0x1_0000,
            ),
            ..self
        }
    }

    /// The selected weights learn from `bit`; the inputs are dropped.
    pub open spec fn update(self, bit: int) -> Self {
        MixerModel {
            weights: trained(
                self.inputs,
                self.weights,
                self.base,
                coding_error(bit, self.pr) as i32,
            ),
            inputs: Seq::empty(),
            ..self
        }
    }
}

/// Moves the weights behind `base` that face an input.
pub fn train(inputs: &Vec<i32>, weights: &mut Vec<i32>, base: usize, error: i32)
    requires
        base + inputs@.len() <= old(weights)@.len(),
        -32768 <= error < 32768,
        forall|i: int| 0 <= i < inputs@.len() ==> -2047 <= #[trigger] inputs@[i] <= 2047,
    ensures
        final(weights)@ == trained(inputs@, old(weights)@, base as int, error),
{
    let mut i: usize = 0;
    assert(weights@.len() == weights.len());
    while i < inputs.len()
        invariant
            i <= inputs@.len(),
            base + inputs@.len() <= weights@.len(),
            weights@.len() == old(weights)@.len() <= usize::MAX,
            -32768 <= error < 32768,
            forall|k: int| 0 <= k < inputs@.len() ==> -2047 <= #[trigger] inputs@[k] <= 2047,
            forall|k: int|
                0 <= k < weights@.len() ==> weights@[k] == if base <= k < base + i {
                    trained(inputs@, old(weights)@, base as int, error)[k]
                } else {
                    old(weights)@[k]
                },
        decreases inputs@.len() - i,
    {
        let x: i32 = inputs[i];
        assert(-2047 * 32768 <= x * error <= 2047 * 32768) by (nonlinear_arith)
            requires
                -2047 <= x <= 2047,
                -32768 <= error < 32768,
        ;
        // Floor division of a value that may be negative.
        let lifted: i64 = (x as i64) * (error as i64) + 0x8000 + 0x1_0000_0000;
        let step: i32 = (lifted / 0x1_0000 - 0x1_0000) as i32;
        assert(step == weight_step(x, error));
        let w: i32 = weights[base + i];
        weights[base + i] = w.wrapping_add(step);
        i += 1;
    }
    assert(weights@ =~= trained(inputs@, old(weights)@, base as int, error));
}

/// Dot product, wrapping at 32 bits, scaled down by 16 bits.
pub fn dot_product(inputs: &Vec<i32>, weights: &Vec<i32>, base: usize) -> (d: i32)
    requires
        base + inputs@.len() <= weights@.len(),
    ensures
        d == dot(inputs@, weights@, base as int, inputs@.len()) as int / 0x1_0000,
{
    let mut sum: i32 = 0;
    let mut i: usize = 0;
    assert(weights@.len() == weights.len());
    while i < inputs.len()
        invariant
            i <= inputs@.len(),
            base + inputs@.len() <= weights@.len() <= usize::MAX,
            sum == dot(inputs@, weights@, base as int, i as nat),
        decreases inputs@.len() - i,
    {
        sum = sum.wrapping_add(inputs[i].wrapping_mul(weights[base + i]));
        i += 1;
    }
    // Floor division of a value that may be negative.
    (((sum as i64) + 0x8000_0000) / 0x1_0000 - 0x8000) as i32
}

/// A set of weight vectors and the inputs gathered for the next bit.
pub struct Mixer {
    max_in: usize,
    inputs: Vec<i32>,
    weights: Vec<i32>,
    wht_set: usize,
    pr: i32,
}

impl View for Mixer {
    type V = MixerModel;

    closed spec fn view(&self) -> MixerModel {
        MixerModel {
            n: self.max_in as int,
            inputs: self.inputs@,
            weights: self.weights@,
            base: self.wht_set as int,
            pr: self.pr as int,
        }
    }
}

impl Mixer {
    /// Well-formed: its content is.
    pub open spec fn wf(&self) -> bool {
        self@.wf()
    }

    /// A mixer with `m` sets of `n` weights.
    pub fn new(n: usize, m: usize) -> (mixer: Self)
        requires
            0 < n,
            0 < m,
            n * m <= usize::MAX,
        ensures
            mixer.wf(),
            mixer@ == MixerModel::fresh(n as int, m as int),
    {
        assert(n <= n * m) by (nonlinear_arith)
            requires
                0 < n,
                0 < m,
        ;
        let mixer = Mixer {
            max_in: n,
            inputs: Vec::new(),
            weights: vec![0i32; n * m],
            wht_set: 0,
            pr: 2048,
        };
        assert(mixer@.weights =~= MixerModel::fresh(n as int, m as int).weights);
        mixer
    }

    /// Adds a stretched prediction to the inputs.
    pub fn add(&mut self, pr: i32)
        requires
            old(self).wf(),
            old(self)@.inputs.len() < old(self)@.n,
            -2047 <= pr <= 2047,
        ensures
            final(self).wf(),
            final(self)@ == old(self)@.add(pr),
    {
        self.inputs.push(pr);
    }

    /// Selects the weight set of context `cxt`.
    pub fn set(&mut self, cxt: u32)
        requires
            old(self).wf(),
            (cxt + 1) * old(self)@.n <= old(self)@.weights.len(),
        ensures
            final(self).wf(),
            final(self)@ == old(self)@.set(cxt as int),
    {
        assert(0 <= cxt * self.max_in && cxt * self.max_in + self.max_in == (cxt + 1)
            * self.max_in) by (nonlinear_arith)
            requires
                0 <= cxt,
                0 < self.max_in,
        ;
        assert(self.weights@.len() == self.weights.len());
        self.wht_set = (cxt as usize) * self.max_in;
    }

    /// Mixes the inputs into a prediction.
    pub fn p(&mut self) -> (pr: i32)
        requires
            old(self).wf(),
        ensures
            final(self).wf(),
            final(self)@ == old(self)@.predict(),
            pr == final(self)@.pr,
            0 <= pr <= 4095,
    {
        let d: i32 = dot_product(&self.inputs, &self.weights, self.wht_set);
        self.pr = squash(d);
        self.pr
    }

    /// Trains the selected weights on `bit` and drops the inputs.
    pub fn update(&mut self, bit: i32)
        requires
            old(self).wf(),
            bit == 0 || bit == 1,
        ensures
            final(self).wf(),
            final(self)@ == old(self)@.update(bit as int),
    {
        let error: i32 = (bit * 4096 - self.pr) * 7;
        train(&self.inputs, &mut self.weights, self.wht_set, error);
        self.inputs.clear();
    }
}

} // verus!
