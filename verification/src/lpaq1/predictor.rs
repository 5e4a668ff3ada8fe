//! The LPAQ1 predictor: seven models, a mixer and two refinements.

use vstd::prelude::*;
use vstd::arithmetic::power2::pow2;
use vstd::arithmetic::power2::lemma2_to64;
use crate::apm::Apm;
use crate::apm::ApmModel;
use crate::apm::lemma_refined_range;
use crate::coder::BitModel;
use crate::coder::bit_value;
use crate::logistic::StretchTable;
use crate::logistic::stretch_spec;
use crate::logistic::lemma_squash_step;
use crate::lpaq1::context::ContextModel;
use crate::lpaq1::context::ContextState;
use crate::lpaq1::context::Histories;
use crate::lpaq1::context::HistoriesModel;
use crate::lpaq1::context::Order;
use crate::lpaq1::context::lemma_wf_sized_like;
use crate::lpaq1::matchmodel::MatchModel;
use crate::lpaq1::matchmodel::MatchState;
use crate::lpaq1::mixer::Mixer;
use crate::lpaq1::mixer::MixerModel;

verus! {

/// Memory parameter: the hashed histories take twice this many bytes, the
/// match model this many in all.
pub const MEM: usize = 0x80_0000;

/// Inputs of the mixer.
pub const INPUTS: usize = 7;

/// Weight sets of the mixer: ten orders times eight classes of the last
/// byte.
pub const WEIGHT_SETS: usize = 80;

/// The confidence class that selects the mixer's weights: without a
/// match, the number of non-empty histories among orders 2, 3, 4 and 6;
/// with one, 5 plus one for each of the lengths 8, 12, 16 and 32 reached.
pub open spec fn order_of(len: int, s2: u8, s3: u8, s4: u8, s6: u8) -> int {
    if len == 0 {
        (if s2 != 0 { 1int } else { 0 }) + (if s3 != 0 { 1int } else { 0 }) + (if s4 != 0 {
            1int
        } else {
            0
        }) + (if s6 != 0 { 1int } else { 0 })
    } else {
        5 + (if len >= 8 { 1int } else { 0 }) + (if len >= 12 { 1int } else { 0 }) + (if len
            >= 16 { 1int } else { 0 }) + (if len >= 32 { 1int } else { 0 })
    }
}

/// Mathematical content of a [`Predictor`].
pub struct PredictorModel {
    /// Probability that the next bit is a one.
    pub pr: int,
    pub mm: MatchState,
    pub wm: ContextState,
    pub cm1: ContextState,
    pub cm2: ContextState,
    pub cm3: ContextState,
    pub cm4: ContextState,
    pub cm6: ContextState,
    pub hist: HistoriesModel,
    pub mxr: MixerModel,
    pub apm1: ApmModel,
    pub apm2: ApmModel,
}

/// A stretched probability as a mixer input.
pub open spec fn stretched(p: int) -> i32 {
    stretch_spec(p) as i32
}

impl PredictorModel {
    /// A predictor that has seen nothing.
    pub open spec fn initial() -> Self {
        PredictorModel {
            pr: 2048,
            mm: MatchState::fresh(MEM as int),
            wm: ContextState::fresh(Order::Word),
            cm1: ContextState::fresh(Order::One),
            cm2: ContextState::fresh(Order::Two),
            cm3: ContextState::fresh(Order::Three),
            cm4: ContextState::fresh(Order::Four),
            cm6: ContextState::fresh(Order::Six),
            hist: HistoriesModel::fresh(MEM * 2),
            mxr: MixerModel::fresh(INPUTS as int, WEIGHT_SETS as int),
            apm1: ApmModel::fresh(256),
            apm2: ApmModel::fresh(16384),
        }
    }

    /// Every part is well-formed and of its own size and order, and the
    /// mixer holds either no input or all seven.
    pub open spec fn wf(self) -> bool {
        &&& 0 <= self.pr <= 4095
        &&& self.mm.wf()
        &&& self.hist.wf()
        &&& self.wm.wf(self.hist)
        &&& self.wm.order == Order::Word
        &&& self.cm1.wf(self.hist)
        &&& self.cm1.order == Order::One
        &&& self.cm2.wf(self.hist)
        &&& self.cm2.order == Order::Two
        &&& self.cm3.wf(self.hist)
        &&& self.cm3.order == Order::Three
        &&& self.cm4.wf(self.hist)
        &&& self.cm4.order == Order::Four
        &&& self.cm6.wf(self.hist)
        &&& self.cm6.order == Order::Six
        &&& self.mxr.wf()
        &&& self.mxr.n == INPUTS
        &&& self.mxr.weights.len() == INPUTS * WEIGHT_SETS
        &&& self.mxr.inputs.len() == 0 || self.mxr.inputs.len() == INPUTS
        &&& self.apm1.wf()
        &&& self.apm1.bins.len() == 33 * 256
        &&& self.apm2.wf()
        &&& self.apm2.bins.len() == 33 * 16384
    }

    /// The histories after each context model in turn has taken in `bit`:
    /// word, then orders 1, 2, 3, 4 and 6.
    pub open spec fn histories(self, bit: int) -> HistoriesModel {
        let h1 = self.wm.histories(bit, self.hist);
        let h2 = self.cm1.histories(bit, h1);
        let h3 = self.cm2.histories(bit, h2);
        let h4 = self.cm3.histories(bit, h3);
        let h5 = self.cm4.histories(bit, h4);
        self.cm6.histories(bit, h5)
    }

    /// The predictor after the seven models have taken in `bit` and
    /// handed their stretched predictions to the mixer.
    pub open spec fn gathered(self, bit: int) -> Self {
        let h0 = self.hist;
        let h1 = self.wm.histories(bit, h0);
        let h2 = self.cm1.histories(bit, h1);
        let h3 = self.cm2.histories(bit, h2);
        let h4 = self.cm3.histories(bit, h3);
        let h5 = self.cm4.histories(bit, h4);
        let h6 = self.cm6.histories(bit, h5);
        let mm = self.mm.predict(bit);
        let wm = self.wm.predict(bit, h0);
        let cm1 = self.cm1.predict(bit, h1);
        let cm2 = self.cm2.predict(bit, h2);
        let cm3 = self.cm3.predict(bit, h3);
        let cm4 = self.cm4.predict(bit, h4);
        let cm6 = self.cm6.predict(bit, h5);
        let mxr = self.mxr.update(bit).add(stretched(mm.sm.probability())).add(
            stretched(wm.sm.probability()),
        ).add(stretched(cm1.sm.probability())).add(stretched(cm2.sm.probability())).add(
            stretched(cm3.sm.probability()),
        ).add(stretched(cm4.sm.probability())).add(stretched(cm6.sm.probability()));
        PredictorModel { mm, wm, cm1, cm2, cm3, cm4, cm6, hist: h6, mxr, ..self }
    }

    /// The weight set for the next bit.
    pub open spec fn weight_set(self) -> int {
        order_of(
            self.mm.match_len,
            self.hist.get(self.cm2.state),
            self.hist.get(self.cm3.state),
            self.hist.get(self.cm4.state),
            self.hist.get(self.cm6.state),
        ) + 10 * (self.cm1.key / 8192)
    }

    /// The predictor after the gathered inputs have been mixed and the
    /// mix refined twice, once under the bits of the current byte and once
    /// under those and the last byte.
    pub open spec fn mixed(self, bit: int) -> Self {
        let mxr = self.mxr.set(self.weight_set()).predict();
        let p0 = mxr.pr;
        let apm1 = self.apm1.predict(bit, 7, p0, self.cm1.cxt as int);
        let p1 = (p0 + 3 * apm1.refined(p0)) / 4;
        let apm2 = self.apm2.predict(bit, 7, p1, (self.cm1.cxt ^ (self.cm1.key / 4)) as int);
        let p2 = (p1 + 3 * apm2.refined(p1)) / 4;
        PredictorModel { mxr, apm1, apm2, pr: p2, ..self }
    }

    /// The predictor after `bit` (0 or 1).
    pub open spec fn update(self, bit: int) -> Self {
        self.gathered(bit).mixed(bit)
    }
}

impl BitModel for PredictorModel {
    /// The prediction, kept away from zero.
    open spec fn probability(&self) -> int {
        if self.pr < 2048 {
            self.pr + 1
        } else {
            self.pr
        }
    }

    open spec fn learn(&self, bit: bool) -> Self {
        self.update(bit_value(bit))
    }

    proof fn lemma_learn_probability(&self, bit: bool) {
        let b = bit_value(bit);
        let g = self.gathered(b);
        let mxr = g.mxr.set(g.weight_set()).predict();
        let p0 = mxr.pr;
        lemma_squash_step(
            crate::lpaq1::mixer::dot(
                g.mxr.set(g.weight_set()).inputs,
                g.mxr.set(g.weight_set()).weights,
                g.mxr.set(g.weight_set()).base,
                g.mxr.set(g.weight_set()).inputs.len(),
            ) as int / 0x1_0000,
        );
        let apm1 = g.apm1.predict(b, 7, p0, g.cm1.cxt as int);
        let p1 = (p0 + 3 * apm1.refined(p0)) / 4;
        let apm2 = g.apm2.predict(b, 7, p1, (g.cm1.cxt ^ (g.cm1.key / 4)) as int);
        lemma_refined_range(apm1, p0);
        lemma_refined_range(apm2, p1);
    }
}

/// The bit-by-bit model of LPAQ1.
pub struct Predictor {
    pr: i32,
    wm: ContextModel,
    mm: MatchModel,
    cm1: ContextModel,
    cm2: ContextModel,
    cm3: ContextModel,
    cm4: ContextModel,
    cm6: ContextModel,
    hist: Histories,
    mxr: Mixer,
    apm1: Apm,
    apm2: Apm,
    stretch: StretchTable,
}

impl View for Predictor {
    type V = PredictorModel;

    closed spec fn view(&self) -> PredictorModel {
        PredictorModel {
            pr: self.pr as int,
            mm: self.mm@,
            wm: self.wm@,
            cm1: self.cm1@,
            cm2: self.cm2@,
            cm3: self.cm3@,
            cm4: self.cm4@,
            cm6: self.cm6@,
            hist: self.hist@,
            mxr: self.mxr@,
            apm1: self.apm1@,
            apm2: self.apm2@,
        }
    }
}

impl Predictor {
    /// Well-formed: the content is, and the stretch table is filled.
    pub closed spec fn wf(&self) -> bool {
        self@.wf() && self.stretch.wf()
    }

    /// A predictor that has seen nothing.
    pub fn new() -> (p: Self)
        ensures
            p.wf(),
            p@ == PredictorModel::initial(),
    {
        proof {
            lemma2_to64();
            assert(MEM == pow2(23));
            assert(MEM * 2 == pow2(24));
        }
        Predictor {
            pr: 2048,
            cm1: ContextModel::new(Order::One),
            cm2: ContextModel::new(Order::Two),
            cm3: ContextModel::new(Order::Three),
            cm4: ContextModel::new(Order::Four),
            cm6: ContextModel::new(Order::Six),
            wm: ContextModel::new(Order::Word),
            mm: MatchModel::new(MEM),
            hist: Histories::new(MEM * 2),
            mxr: Mixer::new(INPUTS, WEIGHT_SETS),
            apm1: Apm::new(256),
            apm2: Apm::new(16384),
            stretch: StretchTable::new(),
        }
    }

    /// Probability, in 4096ths, that the next bit is a one.
    pub fn p(&self) -> (pr: i32)
        requires
            self.wf(),
        ensures
            pr == self@.pr,
            0 <= pr <= 4095,
    {
        self.pr
    }

    /// Takes in the bit that was coded and predicts the next one.
    pub fn update(&mut self, bit: i32)
        requires
            old(self).wf(),
            bit == 0 || bit == 1,
        ensures
            final(self).wf(),
            final(self)@ == old(self)@.update(bit as int),
    {
        self.gather(bit);
        self.mix(bit);
    }

    /// Lets the seven models take in `bit` and hands their stretched
    /// predictions to the mixer.
    fn gather(&mut self, bit: i32)
        requires
            old(self).wf(),
            bit == 0 || bit == 1,
        ensures
            final(self).wf(),
            final(self)@.mxr.inputs.len() == INPUTS,
            final(self)@ == old(self)@.gathered(bit as int),
    {
        self.mxr.update(bit);
        let ghost h0 = self.hist@;

        let p: i32 = self.mm.p(bit);
        self.mxr.add(self.stretch.stretch(p));

        let p: i32 = self.wm.p(bit, &mut self.hist);
        self.mxr.add(self.stretch.stretch(p));
        proof {
            lemma_wf_sized_like(self.cm1@, h0, self.hist@);
        }

        let p: i32 = self.cm1.p(bit, &mut self.hist);
        self.mxr.add(self.stretch.stretch(p));
        proof {
            lemma_wf_sized_like(self.cm2@, h0, self.hist@);
        }

        let p: i32 = self.cm2.p(bit, &mut self.hist);
        self.mxr.add(self.stretch.stretch(p));
        proof {
            lemma_wf_sized_like(self.cm3@, h0, self.hist@);
        }

        let p: i32 = self.cm3.p(bit, &mut self.hist);
        self.mxr.add(self.stretch.stretch(p));
        proof {
            lemma_wf_sized_like(self.cm4@, h0, self.hist@);
        }

        let p: i32 = self.cm4.p(bit, &mut self.hist);
        self.mxr.add(self.stretch.stretch(p));
        proof {
            lemma_wf_sized_like(self.cm6@, h0, self.hist@);
        }

        let p: i32 = self.cm6.p(bit, &mut self.hist);
        self.mxr.add(self.stretch.stretch(p));
        proof {
            lemma_wf_sized_like(self.wm@, h0, self.hist@);
            lemma_wf_sized_like(self.cm1@, h0, self.hist@);
            lemma_wf_sized_like(self.cm2@, h0, self.hist@);
            lemma_wf_sized_like(self.cm3@, h0, self.hist@);
            lemma_wf_sized_like(self.cm4@, h0, self.hist@);
        }
    }

    /// Mixes the gathered inputs and refines the mix.
    fn mix(&mut self, bit: i32)
        requires
            old(self).wf(),
            old(self)@.mxr.inputs.len() == INPUTS,
            bit == 0 || bit == 1,
        ensures
            final(self).wf(),
            final(self)@ == old(self)@.mixed(bit as int),
    {
        let order: u32 = self.order(self.mm.len());
        let key: u32 = self.cm1.key();
        let cxt: u32 = self.cm1.cxt();
        self.mxr.set(order + 10 * (key / 8192));
        let p0: i32 = self.mxr.p();
        let a1: i32 = self.apm1.p(bit, 7, p0, cxt as usize, &self.stretch);
        let p1: i32 = (p0 + 3 * a1) / 4;
        let shifted: u32 = key / 4;
        assert((cxt ^ shifted) < 16384) by (bit_vector)
            requires
                cxt < 256,
                shifted < 16384,
        ;
        let a2: i32 = self.apm2.p(bit, 7, p1, (cxt ^ shifted) as usize, &self.stretch);
        self.pr = (p1 + 3 * a2) / 4;
    }

    /// The confidence class of the current contexts.
    fn order(&self, len: usize) -> (order: u32)
        requires
            self.wf(),
        ensures
            order == order_of(
                len as int,
                self@.hist.get(self@.cm2.state),
                self@.hist.get(self@.cm3.state),
                self@.hist.get(self@.cm4.state),
                self@.hist.get(self@.cm6.state),
            ),
            order <= 9,
    {
        let mut order: u32 = 0;
        if len == 0 {
            if self.hist.get(self.cm2.state()) != 0 {
                order += 1;
            }
            if self.hist.get(self.cm3.state()) != 0 {
                order += 1;
            }
            if self.hist.get(self.cm4.state()) != 0 {
                order += 1;
            }
            if self.hist.get(self.cm6.state()) != 0 {
                order += 1;
            }
        } else {
            order = 5;
            if len >= 8 {
                order += 1;
            }
            if len >= 12 {
                order += 1;
            }
            if len >= 16 {
                order += 1;
            }
            if len >= 32 {
                order += 1;
            }
        }
        order
    }
}

} // verus!
