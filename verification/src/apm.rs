//! Adaptive probability maps: a second look at a probability under a
//! small context.
//!
//! Each context owns 33 bins spaced evenly over the stretched domain. A
//! prediction is the interpolation of the two bins around the stretched
//! input; after the bit is known, both bins move towards it.

use vstd::prelude::*;
use vstd::arithmetic::power2::pow2;
use vstd::arithmetic::power2::lemma_pow2_pos;
use vstd::arithmetic::power2::lemma_pow2_strictly_increases;
use vstd::arithmetic::power2::lemma2_to64;
use vstd::arithmetic::div_mod::lemma_hoist_over_denominator;
use vstd::arithmetic::div_mod::lemma_fundamental_div_mod;
use vstd::arithmetic::div_mod::lemma_mod_bound;
use vstd::bits::lemma_u64_shl_is_mul;
use crate::logistic::squash;
use crate::logistic::squash_spec;
use crate::logistic::stretch_spec;
use crate::logistic::StretchTable;

verus! {

/// Bins per context.
pub const BINS: usize = 33;

/// Initial value of bin `i` of every context: the probability at the
/// bin's own position, scaled to 16 bits.
pub open spec fn fresh_bin(i: int) -> u16 {
    (squash_spec((i % 33 - 16) * 128) * 16) as u16
}

/// Where a bin is pulled by `bit` at learning rate `2^-rate`.
pub open spec fn target(bit: int, rate: nat) -> int {
    bit * 65536 + bit * pow2(rate) - 2 * bit
}

/// A bin value after it has moved towards `bit`.
pub open spec fn nudge(a: int, bit: int, rate: nat) -> int {
    a + (target(bit, rate) - a) / (pow2(rate) as int)
}

/// A nudged bin is still a 16-bit value, between its old value and the
/// side the bit pulls to.
pub proof fn lemma_nudge_in_range(a: int, bit: int, rate: nat)
    requires
        0 <= a <= 65535,
        bit == 0 || bit == 1,
        1 <= rate,
    ensures
        0 <= nudge(a, bit, rate) <= 65535,
        bit == 0 ==> nudge(a, bit, rate) <= a,
        bit == 1 ==> nudge(a, bit, rate) >= a,
{
    let s = pow2(rate) as int;
    lemma_pow2_strictly_increases(0, rate);
    lemma2_to64();
    assert(s >= 2);
    if bit == 0 {
        let q = (0 - a) / s;
        lemma_fundamental_div_mod(0 - a, s);
        lemma_mod_bound(0 - a, s);
        assert(s * q <= 0 - a < s * q + s);
        assert(-a <= q <= 0) by (nonlinear_arith)
            requires
                s * q <= 0 - a < s * q + s,
                s >= 2,
                a >= 0,
        ;
    } else {
        let x = 65534 + s - a;
        let q = x / s;
        lemma_fundamental_div_mod(x, s);
        lemma_mod_bound(x, s);
        assert(s * q <= x < s * q + s);
        assert(0 <= q && a + q <= 65535) by (nonlinear_arith)
            requires
                s * q <= 65534 + s - a < s * q + s,
                s >= 2,
                0 <= a <= 65535,
        ;
    }
}

/// Mathematical content of an [`Apm`].
pub struct ApmModel {
    /// Lower of the two bins used by the last prediction.
    pub bin: int,
    pub bins: Seq<u16>,
}

impl ApmModel {
    /// Number of contexts.
    pub open spec fn contexts(self) -> int {
        self.bins.len() as int / 33
    }

    /// The bins come in whole contexts, and the last prediction used two
    /// of them.
    pub open spec fn wf(self) -> bool {
        &&& self.bins.len() == 33 * self.contexts()
        &&& 0 <= self.bin
        &&& self.bin + 1 < self.bins.len()
    }

    /// A map of `n` contexts whose every prediction repeats its input.
    pub open spec fn fresh(n: nat) -> Self {
        ApmModel { bin: 0, bins: Seq::new(33 * n, |i: int| fresh_bin(i)) }
    }

    /// The two bins of the last prediction move towards `bit`.
    pub open spec fn update(self, bit: int, rate: nat) -> Self {
        let a = nudge(self.bins[self.bin] as int, bit, rate) as u16;
        let b = nudge(self.bins[self.bin + 1] as int, bit, rate) as u16;
        ApmModel { bins: self.bins.update(self.bin, a).update(self.bin + 1, b), ..self }
    }

    /// The lower bin for probability `pr` under context `cxt`.
    pub open spec fn select(pr: int, cxt: int) -> int {
        (stretch_spec(pr) + 2048) / 128 + cxt * 33
    }

    /// Learns `bit`, then selects the bins for `pr` under `cxt`.
    pub open spec fn predict(self, bit: int, rate: nat, pr: int, cxt: int) -> Self {
        ApmModel { bin: Self::select(pr, cxt), ..self.update(bit, rate) }
    }

    /// Interpolation of the selected bins at the stretched `pr`.
    pub open spec fn refined(self, pr: int) -> int {
        let w = (stretch_spec(pr) + 2048) % 128;
        (self.bins[self.bin] * (128 - w) + self.bins[self.bin + 1] * w) / 2048
    }
}

/// A refined probability is a 12-bit value, whatever the bins hold.
pub proof fn lemma_refined_range(m: ApmModel, pr: int)
    ensures
        0 <= m.refined(pr) <= 4095,
{
    let w = (stretch_spec(pr) + 2048) % 128;
    let a = m.bins[m.bin] as int;
    let b = m.bins[m.bin + 1] as int;
    assert(0 <= a * (128 - w) + b * w <= 65535 * 128) by (nonlinear_arith)
        requires
            0 <= a <= 65535,
            0 <= b <= 65535,
            0 <= w < 128,
    ;
}

/// A table of bins, 33 per context, that refines a probability.
pub struct Apm {
    bin: usize,
    bins: Vec<u16>,
}

impl View for Apm {
    type V = ApmModel;

    closed spec fn view(&self) -> ApmModel {
        ApmModel { bin: self.bin as int, bins: self.bins@ }
    }
}

/// Computes `nudge`.
fn nudged(a: u16, bit: i32, rate: i32) -> (b: u16)
    requires
        bit == 0 || bit == 1,
        1 <= rate <= 31,
    ensures
        b == nudge(a as int, bit as int, rate as nat),
{
    let scale: u64 = 1u64 << (rate as u64);
    proof {
        lemma2_to64();
        lemma_pow2_strictly_increases(rate as nat, 32);
        lemma_pow2_pos(rate as nat);
        lemma_u64_shl_is_mul(1, rate as u64);
        assert(scale == pow2(rate as nat));
        lemma_nudge_in_range(a as int, bit as int, rate as nat);
        lemma_hoist_over_denominator(
            target(bit as int, rate as nat) - a,
            65536,
            pow2(rate as nat),
        );
    }
    let s: i64 = scale as i64;
    let g: i64 = (bit as i64) * 65536 + (bit as i64) * s - 2 * (bit as i64);
    // Floor division of a value that may be negative.
    let lifted: i64 = g - (a as i64) + 65536 * s;
    let q: i64 = lifted / s - 65536;
    ((a as i64) + q) as u16
}

impl Apm {
    /// Well-formed: its content is.
    pub open spec fn wf(&self) -> bool {
        self@.wf()
    }

    /// A map of `n` contexts.
    pub fn new(n: usize) -> (apm: Self)
        requires
            0 < n,
            33 * n <= usize::MAX,
        ensures
            apm.wf(),
            apm@ == ApmModel::fresh(n as nat),
    {
        let mut bins: Vec<u16> = Vec::new();
        let mut c: usize = 0;
        while c < n
            invariant
                c <= n,
                33 * n <= usize::MAX,
                bins@.len() == 33 * c,
                forall|k: int| 0 <= k < bins@.len() ==> bins@[k] == fresh_bin(k),
            decreases n - c,
        {
            let mut i: i32 = 0;
            while i < 33
                invariant
                    c < n,
                    0 <= i <= 33,
                    bins@.len() == 33 * c + i,
                    forall|k: int| 0 <= k < bins@.len() ==> bins@[k] == fresh_bin(k),
                decreases 33 - i,
            {
                let v: i32 = squash((i - 16) * 128) * 16;
                assert((33 * c + i) % 33 == i);
                bins.push(v as u16);
                i += 1;
            }
            c += 1;
        }
        let apm = Apm { bin: 0, bins };
        assert(apm@.bins =~= ApmModel::fresh(n as nat).bins);
        apm
    }

    /// Learns `bit` at rate `2^-rate`, then refines `pr` under `cxt`.
    pub fn p(&mut self, bit: i32, rate: i32, pr: i32, cxt: usize, stretch: &StretchTable) -> (out: i32)
        requires
            old(self).wf(),
            stretch.wf(),
            bit == 0 || bit == 1,
            1 <= rate <= 31,
            0 <= pr <= 4095,
            cxt < old(self)@.contexts(),
        ensures
            final(self).wf(),
            final(self)@ == old(self)@.predict(bit as int, rate as nat, pr as int, cxt as int),
            out == final(self)@.refined(pr as int),
            0 <= out <= 4095,
    {
        self.update(bit, rate);
        let s: i32 = stretch.stretch(pr);
        let w: i32 = (s + 2048) % 128;
        assert(cxt * 33 + 33 <= self.bins.len());
        self.bin = ((s + 2048) / 128) as usize + cxt * 33;
        let a: i32 = self.bins[self.bin] as i32;
        let b: i32 = self.bins[self.bin + 1] as i32;
        assert(0 <= a * (128 - w) + b * w <= 65535 * 128) by (nonlinear_arith)
            requires
                0 <= a <= 65535,
                0 <= b <= 65535,
                0 <= w < 128,
        ;
        (a * (128 - w) + b * w) / 2048
    }

    /// Moves the two bins of the last prediction towards `bit`.
    pub fn update(&mut self, bit: i32, rate: i32)
        requires
            old(self).wf(),
            bit == 0 || bit == 1,
            1 <= rate <= 31,
        ensures
            final(self).wf(),
            final(self)@ == old(self)@.update(bit as int, rate as nat),
    {
        assert(self.bin + 1 < self.bins.len());
        let a: u16 = nudged(self.bins[self.bin], bit, rate);
        let b: u16 = nudged(self.bins[self.bin + 1], bit, rate);
        self.bins[self.bin] = a;
        self.bins[self.bin + 1] = b;
    }
}

} // verus!
