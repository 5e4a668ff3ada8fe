//! Adaptive map from a context to a 12-bit probability.
//!
//! Each entry packs a prediction in its high bits and a hit count in its
//! low bits. After every coded bit the prediction of the context that made
//! the last prediction moves towards that bit, by a step that shrinks as the
//! count grows.

use vstd::prelude::*;

verus! {

/// The two packings in use: 23 prediction bits over a 9-bit count, or 22
/// prediction bits over a 10-bit count.
#[derive(Clone, Copy, PartialEq, Eq, Structural, Debug)]
pub enum StateMapKind {
    Fpaq,
    Lpaq1,
}

/// The count stops growing here.
pub const COUNT_LIMIT: u32 = 127;

/// Value of a fresh entry: probability one half, count zero.
pub const FRESH_ENTRY: u32 = 0x8000_0000;

/// Number of values the count field can hold.
pub open spec fn count_range(kind: StateMapKind) -> int {
    match kind {
        StateMapKind::Fpaq => 512,
        StateMapKind::Lpaq1 => 1024,
    }
}

/// Learning rate after `n` updates, about `1 / (n + 1.5)` in fixed point.
pub open spec fn reciprocal(kind: StateMapKind, n: int) -> int {
    match kind {
        StateMapKind::Fpaq => 32768int / (n + n + 5),
        StateMapKind::Lpaq1 => 16384int / (n + n + 3),
    }
}

/// Distance from the entry's prediction to the coded bit.
pub open spec fn prediction_error(kind: StateMapKind, entry: u32, bit: int) -> int {
    match kind {
        StateMapKind::Fpaq => bit * 0x4_0000 - entry / 0x4000,
        StateMapKind::Lpaq1 => (bit * 0x40_0000 - entry / 0x400) / 8,
    }
}

/// The entry after it has learnt `bit`: the count grows by one up to its
/// limit, and the prediction moves by the error times the learning rate,
/// with the count bits of the step cleared and the sum wrapping at 32 bits.
pub open spec fn entry_after(kind: StateMapKind, entry: u32, bit: int) -> u32 {
    let n = entry % (count_range(kind) as u32);
    let bumped = if n < COUNT_LIMIT { entry + 1 } else { entry as int };
    let step = prediction_error(kind, entry, bit) * reciprocal(kind, n as int);
    let cleared = step - step % count_range(kind);
    ((bumped + cleared) % 0x1_0000_0000) as u32
}

/// Learning raises the count of an entry by one up to the limit, whatever
/// it does to the prediction.
pub proof fn lemma_count_after(kind: StateMapKind, entry: u32, bit: int)
    ensures
        entry_after(kind, entry, bit) as int % count_range(kind) == if entry as int % count_range(
            kind,
        ) < COUNT_LIMIT {
            entry as int % count_range(kind) + 1
        } else {
            entry as int % count_range(kind)
        },
{
    let range = count_range(kind);
    let n = entry as int % range;
    let step = prediction_error(kind, entry, bit) * reciprocal(kind, n);
    lemma_count_after_step(entry, step, range);
}

/// The same for any step.
pub proof fn lemma_count_after_step(entry: u32, step: int, range: int)
    requires
        range == 512 || range == 1024,
    ensures
        ({
            let n = entry as int % range;
            let bumped = if n < COUNT_LIMIT { entry + 1 } else { entry as int };
            let cleared = step - step % range;
            0 <= (bumped + cleared) % 0x1_0000_0000 < 0x1_0000_0000 && ((bumped + cleared)
                % 0x1_0000_0000) % range == if n < COUNT_LIMIT {
                n + 1
            } else {
                n
            }
        }),
{
    let n = entry as int % range;
    let bumped = if n < COUNT_LIMIT { entry + 1 } else { entry as int };
    let cleared = step - step % range;
    assert(cleared % range == 0) by {
        vstd::arithmetic::div_mod::lemma_fundamental_div_mod(step, range);
        vstd::arithmetic::div_mod::lemma_mod_multiples_basic(step / range, range);
        assert(cleared == range * (step / range));
        assert(range * (step / range) == (step / range) * range) by (nonlinear_arith);
    }
    lemma_wrapped_count(bumped, cleared, range);
    assert(bumped % range == if n < COUNT_LIMIT { n + 1 } else { n }) by {
        if range == 512 {
            assert(entry as int % 512 < 127 ==> (entry + 1) % 512 == entry as int % 512 + 1);
        } else {
            assert(entry as int % 1024 < 127 ==> (entry + 1) % 1024 == entry as int % 1024 + 1);
        }
    }
}

/// Adding a whole number of ranges, and wrapping at 32 bits, leaves the
/// count as it is.
pub proof fn lemma_wrapped_count(bumped: int, cleared: int, range: int)
    requires
        range == 512 || range == 1024,
        cleared % range == 0,
    ensures
        ((bumped + cleared) % 0x1_0000_0000) % range == bumped % range,
{
    let sum = bumped + cleared;
    let q = sum / 0x1_0000_0000;
    let wrapped = sum % 0x1_0000_0000;
    assert(sum == 0x1_0000_0000 * q + wrapped);
    let k = cleared / range;
    assert(cleared == range * k);
    let per = 0x1_0000_0000int / range;
    assert(0x1_0000_0000 == range * per);
    assert(wrapped == bumped + range * (k - per * q)) by (nonlinear_arith)
        requires
            sum == 0x1_0000_0000 * q + wrapped,
            sum == bumped + cleared,
            cleared == range * k,
            0x1_0000_0000 == range * per,
    ;
    vstd::arithmetic::div_mod::lemma_mod_multiples_vanish(k - per * q, bumped, range);
}

/// The 12-bit probability an entry stands for.
pub open spec fn entry_probability(entry: u32) -> int {
    entry as int / 0x10_0000
}

/// Mathematical content of a [`StateMap`].
pub struct StateMapModel {
    pub kind: StateMapKind,
    /// Context of the last prediction.
    pub cxt: int,
    pub entries: Seq<u32>,
}

impl StateMapModel {
    /// The last context is one of the map.
    pub open spec fn wf(self) -> bool {
        0 <= self.cxt < self.entries.len()
    }

    /// A map of `n` fresh entries.
    pub open spec fn fresh(kind: StateMapKind, n: nat) -> Self {
        StateMapModel { kind, cxt: 0, entries: Seq::new(n, |i: int| FRESH_ENTRY) }
    }

    /// The entry of the last context learns `bit`.
    pub open spec fn update(self, bit: int) -> Self {
        StateMapModel {
            entries: self.entries.update(
                self.cxt,
                entry_after(self.kind, self.entries[self.cxt], bit),
            ),
            ..self
        }
    }

    /// Learns `bit`, then moves to context `cxt`.
    pub open spec fn predict(self, bit: int, cxt: int) -> Self {
        StateMapModel { cxt, ..self.update(bit) }
    }

    /// Probability that the next bit in the current context is a one.
    pub open spec fn probability(self) -> int {
        entry_probability(self.entries[self.cxt])
    }
}

/// The map: one packed entry per context.
pub struct StateMap {
    kind: StateMapKind,
    cxt: usize,
    cxt_map: Vec<u32>,
}

impl View for StateMap {
    type V = StateMapModel;

    closed spec fn view(&self) -> StateMapModel {
        StateMapModel { kind: self.kind, cxt: self.cxt as int, entries: self.cxt_map@ }
    }
}

/// The learning rate is a small non-negative number.
pub proof fn lemma_reciprocal_bounds(kind: StateMapKind, n: int)
    requires
        0 <= n,
    ensures
        0 <= reciprocal(kind, n) <= 6553,
{
    assert(0 <= 32768int / (n + n + 5) <= 6553) by (nonlinear_arith)
        requires
            0 <= n,
    ;
    assert(0 <= 16384int / (n + n + 3) <= 6553) by (nonlinear_arith)
        requires
            0 <= n,
    ;
}

/// The product of an error and a learning rate stays small.
pub proof fn lemma_step_bounds(err: int, rec: int)
    by (nonlinear_arith)
    requires
        0 <= rec <= 6553,
        -0x40_0000 <= err <= 0x40_0000,
    ensures
        -0x40_0000 * 6553 <= err * rec <= 0x40_0000 * 6553,
{
}

/// Adds to `bumped` the value `step` with its low `range` values cleared,
/// wrapping at 32 bits.
fn add_step(bumped: u32, step: i64, range: i64) -> (next: u32)
    requires
        range == 512 || range == 1024,
        -0x40_0000 * 6553 <= step <= 0x40_0000 * 6553,
    ensures
        next == (bumped + (step - (step as int) % (range as int))) % 0x1_0000_0000,
{
    let lifted: i64 = step + 0x100_0000_0000;
    let cleared: i64 = if range == 512 {
        lifted - lifted % 512 - 0x100_0000_0000
    } else {
        lifted - lifted % 1024 - 0x100_0000_0000
    };
    assert(cleared == step - (step as int) % (range as int));
    let sum: i64 = (bumped as i64) + cleared + 0x100_0000_0000;
    (sum % 0x1_0000_0000) as u32
}

/// Computes `entry_after`.
pub fn learn(kind: StateMapKind, entry: u32, bit: i32) -> (next: u32)
    requires
        bit == 0 || bit == 1,
    ensures
        next == entry_after(kind, entry, bit as int),
{
    match kind {
        StateMapKind::Fpaq => {
            let n: u32 = entry % 512;
            let bumped: u32 = if n < COUNT_LIMIT { entry + 1 } else { entry };
            let err: i64 = (bit as i64) * 0x4_0000 - ((entry / 0x4000) as i64);
            let rec: i64 = 32768 / ((n as i64) + (n as i64) + 5);
            proof {
                lemma_reciprocal_bounds(kind, n as int);
                lemma_step_bounds(err as int, rec as int);
            }
            add_step(bumped, err * rec, 512)
        },
        StateMapKind::Lpaq1 => {
            let n: u32 = entry % 1024;
            let bumped: u32 = if n < COUNT_LIMIT { entry + 1 } else { entry };
            // Floor division of a value that may be negative.
            let lifted: i64 = (bit as i64) * 0x40_0000 - ((entry / 0x400) as i64) + 0x200_0000;
            let err: i64 = lifted / 8 - 0x40_0000;
            let rec: i64 = 16384 / ((n as i64) + (n as i64) + 3);
            proof {
                lemma_reciprocal_bounds(kind, n as int);
                lemma_step_bounds(err as int, rec as int);
            }
            add_step(bumped, err * rec, 1024)
        },
    }
}

impl StateMap {
    /// Well-formed: its content is.
    pub open spec fn wf(&self) -> bool {
        self@.wf()
    }

    /// A map of `n` contexts, each predicting one half.
    pub fn new(kind: StateMapKind, n: usize) -> (sm: Self)
        requires
            n > 0,
        ensures
            sm.wf(),
            sm@ == StateMapModel::fresh(kind, n as nat),
    {
        let sm = StateMap { kind, cxt: 0, cxt_map: vec![FRESH_ENTRY; n] };
        assert(sm@.entries =~= StateMapModel::fresh(kind, n as nat).entries);
        sm
    }

    /// Learns `bit` in the last context, then predicts in context `cxt`.
    pub fn p(&mut self, bit: i32, cxt: usize) -> (pr: i32)
        requires
            old(self).wf(),
            bit == 0 || bit == 1,
            cxt < old(self)@.entries.len(),
        ensures
            final(self).wf(),
            final(self)@ == old(self)@.predict(bit as int, cxt as int),
            pr == final(self)@.probability(),
            0 <= pr <= 4095,
    {
        self.update(bit);
        self.cxt = cxt;
        (self.cxt_map[self.cxt] / 0x10_0000) as i32
    }

    /// Moves the prediction of the last context towards `bit`.
    pub fn update(&mut self, bit: i32)
        requires
            old(self).wf(),
            bit == 0 || bit == 1,
        ensures
            final(self).wf(),
            final(self)@ == old(self)@.update(bit as int),
    {
        let next: u32 = learn(self.kind, self.cxt_map[self.cxt], bit);
        self.cxt_map[self.cxt] = next;
    }
}

} // verus!
