//! Binary arithmetic coding over a 32-bit interval.
//!
//! The coder keeps an interval `[low, high]`. Each bit splits it in
//! proportion to the probability that the bit is a one and keeps one side.
//! Whenever `low` and `high` agree in their leading byte, that byte is
//! final: the encoder emits it, the decoder drops it and reads the next
//! byte of the stream, and both shift the interval left by one byte.

use vstd::prelude::*;

verus! {

/// Weight of the leading byte of a 32-bit value.
pub const TOP: u32 = 0x0100_0000;

/// A source of probabilities that learns from the bits it is shown.
pub trait BitModel: Sized {
    /// Probability, in 4096ths, that the next bit is a one.
    spec fn probability(&self) -> int;

    /// The model after it has seen `bit`.
    spec fn learn(&self, bit: bool) -> Self;

    /// Whatever a model has seen, its next probability is a 12-bit value.
    proof fn lemma_learn_probability(&self, bit: bool)
        ensures
            0 <= self.learn(bit).probability() <= 4095,
    ;
}

/// The current coding interval, both ends included.
#[derive(Clone, Copy, PartialEq, Eq, Structural, Debug)]
pub struct Interval {
    pub low: u32,
    pub high: u32,
}

impl Interval {
    /// The whole 32-bit range, where coding starts.
    pub open spec fn full() -> Interval {
        Interval { low: 0, high: 0xFFFF_FFFF }
    }

    /// The lower end is not above the upper end.
    pub open spec fn ordered(self) -> bool {
        self.low <= self.high
    }

    /// The two ends agree in their leading byte.
    pub open spec fn pending(self) -> bool {
        self.low / TOP == self.high / TOP
    }

    /// Ordered, with nothing left to shift out.
    pub open spec fn settled(self) -> bool {
        self.ordered() && !self.pending()
    }

    /// The last value that codes a one when ones have probability `p`.
    #[verifier::opaque]
    pub open spec fn midpoint(self, p: int) -> int {
        let range = self.high - self.low;
        self.low + (range / 4096) * p + ((range % 4096) * p) / 4096
    }

    /// The side of the split that codes `bit`.
    pub open spec fn narrow(self, bit: bool, p: int) -> Interval {
        if bit {
            Interval { low: self.low, high: self.midpoint(p) as u32 }
        } else {
            Interval { low: (self.midpoint(p) + 1) as u32, high: self.high }
        }
    }

    /// The leading byte of the upper end.
    pub open spec fn leading(self) -> u8 {
        (self.high / TOP) as u8
    }

    /// The interval with its leading byte shifted out.
    pub open spec fn shifted(self) -> Interval {
        Interval {
            low: ((self.low % TOP) * 256) as u32,
            high: ((self.high % TOP) * 256 + 255) as u32,
        }
    }

    /// The interval once every agreed leading byte has been shifted out.
    pub open spec fn drained(self) -> Interval
        decreases 0x1_0000_0000 - (self.high - self.low),
    {
        if self.ordered() && self.pending() {
            self.shifted().drained()
        } else {
            self
        }
    }

    /// The bytes shifted out on the way to `drained`.
    pub open spec fn emitted(self) -> Seq<u8>
        decreases 0x1_0000_0000 - (self.high - self.low),
    {
        if self.ordered() && self.pending() {
            seq![self.leading()] + self.shifted().emitted()
        } else {
            Seq::empty()
        }
    }

    /// What ends a stream: the pending bytes, then the leading byte of the
    /// upper end.
    pub open spec fn flushed(self) -> Seq<u8> {
        self.emitted() + seq![self.drained().leading()]
    }
}

/// The split point of a proper interval lies inside it, below the top.
pub proof fn lemma_midpoint_inside(iv: Interval, p: int)
    requires
        iv.low < iv.high,
        0 <= p <= 4095,
    ensures
        iv.low <= iv.midpoint(p) < iv.high,
{
    reveal(Interval::midpoint);
    let range = iv.high - iv.low;
    let q = range / 4096;
    let r = range % 4096;
    assert(0 <= q * p <= q * 4095) by (nonlinear_arith)
        requires
            0 <= q,
            0 <= p <= 4095,
    ;
    assert(0 <= r * p <= r * 4095) by (nonlinear_arith)
        requires
            0 <= r,
            0 <= p <= 4095,
    ;
    assert((r * p) / 4096 <= (r * 4095) / 4096);
}

/// Either side of a split of a proper interval is ordered and strictly
/// smaller than the interval.
pub proof fn lemma_narrow(iv: Interval, bit: bool, p: int)
    requires
        iv.low < iv.high,
        0 <= p <= 4095,
    ensures
        iv.narrow(bit, p).ordered(),
        iv.low <= iv.narrow(bit, p).low,
        iv.narrow(bit, p).high <= iv.high,
        iv.narrow(bit, p).high - iv.narrow(bit, p).low < iv.high - iv.low,
{
    lemma_midpoint_inside(iv, p);
}

/// Shifting out the bytes on which the ends agree leaves a settled
/// interval.
pub proof fn lemma_drained(iv: Interval)
    requires
        iv.ordered(),
    ensures
        iv.drained().settled(),
        iv.settled() ==> iv.drained() == iv && iv.emitted().len() == 0,
        iv.pending() ==> iv.emitted().len() >= 1,
    decreases 0x1_0000_0000 - (iv.high - iv.low),
{
    if iv.pending() {
        lemma_drained(iv.shifted());
    }
}

/// Byte `i` of a stream that reads as zero beyond its end.
pub open spec fn byte_at(input: Seq<u8>, i: int) -> u8 {
    if 0 <= i < input.len() {
        input[i]
    } else {
        0
    }
}

/// The four bytes of `input` from `pos`, as one big-endian value.
pub open spec fn window(input: Seq<u8>, pos: int) -> int {
    byte_at(input, pos) * 0x100_0000 + byte_at(input, pos + 1) * 0x1_0000 + byte_at(
        input,
        pos + 2,
    ) * 0x100 + byte_at(input, pos + 3)
}

/// The bits `bits` coded from interval `iv` by a model in state `m`,
/// stream end included.
pub open spec fn encode_bits<M: BitModel>(m: M, iv: Interval, bits: Seq<bool>) -> Seq<u8>
    decreases bits.len(),
{
    if bits.len() == 0 {
        iv.flushed()
    } else {
        let cut = iv.narrow(bits[0], m.probability());
        cut.emitted() + encode_bits(m.learn(bits[0]), cut.drained(), bits.skip(1))
    }
}

/// State of a decoder: its interval, the four stream bytes under
/// consideration, and the index of the next byte to read.
pub struct Decoder {
    pub iv: Interval,
    pub x: u32,
    pub next: int,
}

impl Decoder {
    /// A complete stream is read at most three bytes past its end; those
    /// bytes read as zero. Reading further means the stream was cut short.
    pub open spec fn can_read(self, input: Seq<u8>) -> bool {
        self.next <= input.len() + 2
    }

    /// The decoder after the next stream byte has been shifted in.
    pub open spec fn read(self, input: Seq<u8>) -> Decoder {
        Decoder {
            iv: self.iv,
            x: ((self.x % TOP) * 256 + byte_at(input, self.next as int)) as u32,
            next: self.next + 1,
        }
    }

    /// A decoder at the start of `input`, or `None` for an empty stream.
    pub open spec fn start(input: Seq<u8>) -> Option<Decoder> {
        if input.len() == 0 {
            None
        } else {
            Some(
                Decoder { iv: Interval::full(), x: 0, next: 0 }.read(input).read(input).read(
                    input,
                ).read(input),
            )
        }
    }

    /// Reads left before the stream counts as cut short.
    pub open spec fn budget(self, input: Seq<u8>) -> int {
        input.len() + 3 - self.next
    }

    /// The decoder once every agreed leading byte has been replaced by a
    /// byte of the stream, or `None` if the stream ends first.
    pub open spec fn refilled(self, input: Seq<u8>) -> Option<Decoder>
        decreases 0x1_0000_0000 - (self.iv.high - self.iv.low),
    {
        if self.iv.ordered() && self.iv.pending() {
            if self.can_read(input) {
                Decoder { iv: self.iv.shifted(), ..self.read(input) }.refilled(input)
            } else {
                None
            }
        } else {
            Some(self)
        }
    }

    /// The next bit, where ones have probability `p`.
    pub open spec fn bit(self, p: int) -> bool {
        self.x <= self.iv.midpoint(p)
    }

    /// The decoder after decoding one bit, or `None` if the stream ends
    /// first.
    pub open spec fn decoded(self, p: int, input: Seq<u8>) -> Option<Decoder> {
        Decoder { iv: self.iv.narrow(self.bit(p), p), ..self }.refilled(input)
    }

    /// The decoder is in step with an encoder about to code `bits` from
    /// model state `m`: same interval, looking at the encoder's next four
    /// bytes, with the rest of the stream equal to what the encoder will
    /// still emit.
    pub open spec fn in_step<M: BitModel>(self, m: M, input: Seq<u8>, bits: Seq<bool>) -> bool {
        &&& self.iv.settled()
        &&& 0 <= m.probability() <= 4095
        &&& 4 <= self.next <= input.len() + 3
        &&& self.x == window(input, self.next - 4)
        &&& input.skip(self.next - 4) =~= encode_bits(m, self.iv, bits)
    }
}

/// Every code stream has at least one byte.
pub proof fn lemma_encode_nonempty<M: BitModel>(m: M, iv: Interval, bits: Seq<bool>)
    requires
        iv.settled(),
        0 <= m.probability() <= 4095,
    ensures
        encode_bits(m, iv, bits).len() >= 1,
    decreases bits.len(),
{
    if bits.len() > 0 {
        let cut = iv.narrow(bits[0], m.probability());
        lemma_narrow(iv, bits[0], m.probability());
        lemma_drained(cut);
        m.lemma_learn_probability(bits[0]);
        lemma_encode_nonempty(m.learn(bits[0]), cut.drained(), bits.skip(1));
    }
}

/// The window over a stream that starts with a known byte.
pub proof fn lemma_window_cons(b: u8, rest: Seq<u8>)
    ensures
        window(seq![b] + rest, 0) == b * 0x100_0000 + window(rest, 0) / 256,
{
    let s = seq![b] + rest;
    assert(byte_at(s, 0) == b);
    assert(byte_at(s, 1) == byte_at(rest, 0));
    assert(byte_at(s, 2) == byte_at(rest, 1));
    assert(byte_at(s, 3) == byte_at(rest, 2));
}

/// If what follows the shifted-out bytes lies in the drained interval,
/// the whole lies in the interval.
pub proof fn lemma_emitted_window(iv: Interval, rest: Seq<u8>)
    requires
        iv.ordered(),
        iv.drained().low <= window(rest, 0) <= iv.drained().high,
    ensures
        iv.low <= window(iv.emitted() + rest, 0) <= iv.high,
    decreases 0x1_0000_0000 - (iv.high - iv.low),
{
    if iv.pending() {
        let s = iv.shifted();
        lemma_emitted_window(s, rest);
        let tail = s.emitted() + rest;
        lemma_window_cons(iv.leading(), tail);
        assert(iv.emitted() + rest =~= seq![iv.leading()] + tail);
    } else {
        assert(iv.emitted() + rest =~= rest);
    }
}

/// The first four bytes of a code stream, read as one value, lie in the
/// interval the stream was coded from.
pub proof fn lemma_encode_window<M: BitModel>(m: M, iv: Interval, bits: Seq<bool>)
    requires
        iv.settled(),
        0 <= m.probability() <= 4095,
    ensures
        iv.low <= window(encode_bits(m, iv, bits), 0) <= iv.high,
    decreases bits.len(),
{
    if bits.len() == 0 {
        lemma_drained(iv);
        let last = seq![iv.leading()];
        assert(iv.flushed() =~= last);
        assert(byte_at(last, 0) == iv.leading());
        assert(window(last, 0) == iv.leading() * 0x100_0000);
    } else {
        let p = m.probability();
        let cut = iv.narrow(bits[0], p);
        lemma_narrow(iv, bits[0], p);
        lemma_drained(cut);
        m.lemma_learn_probability(bits[0]);
        let rest = encode_bits(m.learn(bits[0]), cut.drained(), bits.skip(1));
        lemma_encode_window(m.learn(bits[0]), cut.drained(), bits.skip(1));
        lemma_emitted_window(cut, rest);
    }
}

/// The window one byte further on.
pub proof fn lemma_window_slide(input: Seq<u8>, pos: int)
    ensures
        window(input, pos + 1) == (window(input, pos) % 0x100_0000) * 256 + byte_at(
            input,
            pos + 4,
        ),
        0 <= window(input, pos) <= 0xFFFF_FFFF,
{
}

/// The window of a stream at a position is the window of its suffix.
pub proof fn lemma_window_skip(input: Seq<u8>, pos: int)
    requires
        0 <= pos <= input.len(),
    ensures
        window(input, pos) == window(input.skip(pos), 0),
{
    let s = input.skip(pos);
    assert forall|k: int| 0 <= k implies byte_at(input, pos + k) == byte_at(s, k) by {
        if k < s.len() {
            assert(s[k] == input[pos + k]);
        }
    }
}

/// Refilling a decoder follows the encoder's shifting byte for byte.
pub proof fn lemma_refilled(d: Decoder, input: Seq<u8>, rest: Seq<u8>)
    requires
        d.iv.ordered(),
        4 <= d.next,
        d.next - 4 + d.iv.emitted().len() + 1 <= input.len(),
        d.x == window(input, d.next - 4),
        input.skip(d.next - 4) =~= d.iv.emitted() + rest,
    ensures
        d.refilled(input) is Some,
        d.refilled(input)->0.iv == d.iv.drained(),
        d.refilled(input)->0.next == d.next + d.iv.emitted().len(),
        d.refilled(input)->0.x == window(input, d.refilled(input)->0.next - 4),
        input.skip(d.refilled(input)->0.next - 4) =~= rest,
    decreases 0x1_0000_0000 - (d.iv.high - d.iv.low),
{
    if d.iv.pending() {
        let s = d.iv.shifted();
        let d1 = Decoder { iv: s, ..d.read(input) };
        lemma_window_slide(input, d.next - 4);
        let tail = s.emitted() + rest;
        assert(d.iv.emitted() + rest =~= seq![d.iv.leading()] + tail);
        assert(input.skip(d1.next - 4) =~= input.skip(d.next - 4).skip(1));
        assert(input.skip(d.next - 4).skip(1) =~= tail);
        lemma_refilled(d1, input, rest);
    } else {
        assert(d.iv.emitted() + rest =~= rest);
    }
}

/// A decoder in step with the encoder decodes the encoder's next bit and
/// stays in step.
pub proof fn lemma_decode_in_step<M: BitModel>(d: Decoder, m: M, input: Seq<u8>, bits: Seq<bool>)
    requires
        d.in_step(m, input, bits),
        bits.len() > 0,
    ensures
        d.bit(m.probability()) == bits[0],
        d.decoded(m.probability(), input) is Some,
        d.decoded(m.probability(), input)->0.in_step(m.learn(bits[0]), input, bits.skip(1)),
{
    let p = m.probability();
    let cut = d.iv.narrow(bits[0], p);
    let m1 = m.learn(bits[0]);
    let rest = encode_bits(m1, cut.drained(), bits.skip(1));
    lemma_narrow(d.iv, bits[0], p);
    lemma_midpoint_inside(d.iv, p);
    lemma_drained(cut);
    m.lemma_learn_probability(bits[0]);
    // The encoder's coming bytes lie on the side of the split it chose.
    lemma_encode_window(m1, cut.drained(), bits.skip(1));
    lemma_emitted_window(cut, rest);
    lemma_window_skip(input, d.next - 4);
    assert(cut.low <= d.x <= cut.high);
    assert(d.bit(p) == bits[0]);
    lemma_encode_nonempty(m1, cut.drained(), bits.skip(1));
    let d0 = Decoder { iv: cut, ..d };
    assert(input.skip(d.next - 4).len() == cut.emitted().len() + rest.len());
    lemma_refilled(d0, input, rest);
}

/// A decoder started on a code stream is in step with its encoder.
pub proof fn lemma_start_in_step<M: BitModel>(m: M, input: Seq<u8>, bits: Seq<bool>)
    requires
        0 <= m.probability() <= 4095,
        input =~= encode_bits(m, Interval::full(), bits),
    ensures
        Decoder::start(input) is Some,
        Decoder::start(input)->0.in_step(m, input, bits),
{
    lemma_encode_nonempty(m, Interval::full(), bits);
    let d0 = Decoder { iv: Interval::full(), x: 0, next: 0 };
    let d1 = d0.read(input);
    let d2 = d1.read(input);
    let d3 = d2.read(input);
    let d4 = d3.read(input);
    assert(d1.x == byte_at(input, 0));
    assert(d2.x == byte_at(input, 0) * 0x100 + byte_at(input, 1));
    assert(d3.x == byte_at(input, 0) * 0x1_0000 + byte_at(input, 1) * 0x100 + byte_at(input, 2));
    assert(d4.x == window(input, 0));
    assert(input.skip(0) =~= input);
}

/// The eight bits of a byte, most significant first.
pub open spec fn byte_bits(b: u8) -> Seq<bool> {
    seq![
        b / 128 % 2 == 1,
        b / 64 % 2 == 1,
        b / 32 % 2 == 1,
        b / 16 % 2 == 1,
        b / 8 % 2 == 1,
        b / 4 % 2 == 1,
        b / 2 % 2 == 1,
        b % 2 == 1,
    ]
}

/// The number 0 or 1 that stands for a bit.
pub open spec fn bit_value(bit: bool) -> int {
    if bit {
        1
    } else {
        0
    }
}

/// The byte whose bits, most significant first, are `bits[0..8]`.
pub open spec fn byte_of(bits: Seq<bool>) -> u8 {
    (bit_value(bits[0]) * 128 + bit_value(bits[1]) * 64 + bit_value(bits[2]) * 32 + bit_value(
        bits[3],
    ) * 16 + bit_value(bits[4]) * 8 + bit_value(bits[5]) * 4 + bit_value(bits[6]) * 2
        + bit_value(bits[7])) as u8
}

/// A byte is the value of its bits.
pub proof fn lemma_byte_of_bits(b: u8)
    ensures
        byte_of(byte_bits(b)) == b,
        byte_bits(b).len() == 8,
{
    assert((b / 128 % 2) * 128 + (b / 64 % 2) * 64 + (b / 32 % 2) * 32 + (b / 16 % 2) * 16 + (b / 8
        % 2) * 8 + (b / 4 % 2) * 4 + (b / 2 % 2) * 2 + b % 2 == b) by (bit_vector);
    let bits = byte_bits(b);
    assert(bit_value(bits[0]) == b / 128 % 2);
    assert(bit_value(bits[1]) == b / 64 % 2);
    assert(bit_value(bits[2]) == b / 32 % 2);
    assert(bit_value(bits[3]) == b / 16 % 2);
    assert(bit_value(bits[4]) == b / 8 % 2);
    assert(bit_value(bits[5]) == b / 4 % 2);
    assert(bit_value(bits[6]) == b / 2 % 2);
    assert(bit_value(bits[7]) == b % 2);
}

/// An encoder part-way through a stream: its model, its interval and
/// the bytes written so far.
pub struct Encoding<M> {
    pub model: M,
    pub iv: Interval,
    pub out: Seq<u8>,
}

impl<M: BitModel> Encoding<M> {
    /// An encoder that has coded nothing yet.
    pub open spec fn start(model: M) -> Self {
        Encoding { model, iv: Interval::full(), out: Seq::empty() }
    }

    /// The encoder after coding `bit`.
    #[verifier::opaque]
    pub open spec fn step(self, bit: bool) -> Self {
        let cut = self.iv.narrow(bit, self.model.probability());
        Encoding { model: self.model.learn(bit), iv: cut.drained(), out: self.out + cut.emitted() }
    }

    /// The encoder after coding the eight bits of `b`.
    pub open spec fn byte(self, b: u8) -> Self {
        self.step(b / 128 % 2 == 1).step(b / 64 % 2 == 1).step(b / 32 % 2 == 1).step(
            b / 16 % 2 == 1,
        ).step(b / 8 % 2 == 1).step(b / 4 % 2 == 1).step(b / 2 % 2 == 1).step(b % 2 == 1)
    }

    /// The complete stream, should `bits` be all that is still to code.
    pub open spec fn finish(self, bits: Seq<bool>) -> Seq<u8> {
        self.out + encode_bits(self.model, self.iv, bits)
    }

    /// Coding the first of the remaining bits does not change where the
    /// stream will end up.
    pub proof fn lemma_step(self, bits: Seq<bool>)
        requires
            bits.len() > 0,
        ensures
            self.finish(bits) =~= self.step(bits[0]).finish(bits.skip(1)),
    {
        reveal(Encoding::step);
    }

    /// The encoder after coding `bits` in turn.
    pub open spec fn run(self, bits: Seq<bool>) -> Self
        decreases bits.len(),
    {
        if bits.len() == 0 {
            self
        } else {
            self.step(bits[0]).run(bits.skip(1))
        }
    }

    /// Coding some of the remaining bits does not change where the stream
    /// will end up.
    pub proof fn lemma_run_finish(self, bits: Seq<bool>, rest: Seq<bool>)
        ensures
            self.finish(bits + rest) =~= self.run(bits).finish(rest),
        decreases bits.len(),
    {
        if bits.len() == 0 {
            assert(bits + rest =~= rest);
        } else {
            let all = bits + rest;
            self.lemma_step(all);
            assert(all.skip(1) =~= bits.skip(1) + rest);
            self.step(bits[0]).lemma_run_finish(bits.skip(1), rest);
        }
    }

    /// Coding two runs of bits is coding them joined.
    pub proof fn lemma_run_concat(self, a: Seq<bool>, b: Seq<bool>)
        ensures
            self.run(a + b) == self.run(a).run(b),
        decreases a.len(),
    {
        if a.len() == 0 {
            assert(a + b =~= b);
        } else {
            let all = a + b;
            assert(all.skip(1) =~= a.skip(1) + b);
            self.step(a[0]).lemma_run_concat(a.skip(1), b);
        }
    }

    /// Coding a byte is coding its eight bits.
    pub proof fn lemma_run_byte(self, b: u8)
        ensures
            self.run(byte_bits(b)) == self.byte(b),
    {
        let bits = byte_bits(b);
        let e1 = self.step(bits[0]);
        let e2 = e1.step(bits[1]);
        let e3 = e2.step(bits[2]);
        let e4 = e3.step(bits[3]);
        let e5 = e4.step(bits[4]);
        let e6 = e5.step(bits[5]);
        let e7 = e6.step(bits[6]);
        let e8 = e7.step(bits[7]);
        let t1 = bits.skip(1);
        let t2 = t1.skip(1);
        let t3 = t2.skip(1);
        let t4 = t3.skip(1);
        let t5 = t4.skip(1);
        let t6 = t5.skip(1);
        let t7 = t6.skip(1);
        let t8 = t7.skip(1);
        assert(t8.len() == 0);
        assert(e8.run(t8) == e8);
        assert(e7.run(t7) == e8);
        assert(e6.run(t6) == e8);
        assert(e5.run(t5) == e8);
        assert(e4.run(t4) == e8);
        assert(e3.run(t3) == e8);
        assert(e2.run(t2) == e8);
        assert(e1.run(t1) == e8);
        assert(self.run(bits) == e8);
    }

    /// The same for a bit followed by `rest`.
    pub proof fn lemma_step_cons(self, bit: bool, rest: Seq<bool>)
        ensures
            self.finish(seq![bit] + rest) =~= self.step(bit).finish(rest),
    {
        let bits = seq![bit] + rest;
        assert(bits.skip(1) =~= rest);
        self.lemma_step(bits);
    }

    /// The same for the eight bits of a byte followed by `rest`.
    pub proof fn lemma_byte(self, b: u8, rest: Seq<bool>)
        ensures
            self.finish(byte_bits(b) + rest) =~= self.byte(b).finish(rest),
    {
        let bits = byte_bits(b) + rest;
        let e1 = self.step(bits[0]);
        let e2 = e1.step(bits[1]);
        let e3 = e2.step(bits[2]);
        let e4 = e3.step(bits[3]);
        let e5 = e4.step(bits[4]);
        let e6 = e5.step(bits[5]);
        let e7 = e6.step(bits[6]);
        self.lemma_step(bits);
        e1.lemma_step(bits.skip(1));
        e2.lemma_step(bits.skip(1).skip(1));
        e3.lemma_step(bits.skip(1).skip(1).skip(1));
        e4.lemma_step(bits.skip(1).skip(1).skip(1).skip(1));
        e5.lemma_step(bits.skip(1).skip(1).skip(1).skip(1).skip(1));
        e6.lemma_step(bits.skip(1).skip(1).skip(1).skip(1).skip(1).skip(1));
        e7.lemma_step(bits.skip(1).skip(1).skip(1).skip(1).skip(1).skip(1).skip(1));
        assert(bits.skip(1).skip(1).skip(1).skip(1).skip(1).skip(1).skip(1).skip(1) =~= rest);
    }
}

impl Decoder {
    /// Settled, and not yet past the point where a stream counts as cut
    /// short.
    pub open spec fn ready(self, input: Seq<u8>) -> bool {
        self.iv.settled() && self.next <= input.len() + 3
    }

    /// A number that every decoded bit lowers: each read spends one unit
    /// of budget, and a bit decoded without a read narrows the interval.
    pub open spec fn measure(self, input: Seq<u8>) -> int {
        self.budget(input) * 0x1_0000_0000 + (self.iv.high - self.iv.low)
    }
}

/// Refilling only ever reads forward, and never past the budget.
pub proof fn lemma_refilled_progress(d: Decoder, input: Seq<u8>)
    requires
        d.iv.ordered(),
        d.next <= input.len() + 3,
    ensures
        d.refilled(input) is Some ==> {
            let r = d.refilled(input)->0;
            &&& r.ready(input)
            &&& d.next <= r.next
            &&& (r.next == d.next ==> r == d)
        },
    decreases 0x1_0000_0000 - (d.iv.high - d.iv.low),
{
    if d.iv.pending() && d.can_read(input) {
        lemma_refilled_progress(Decoder { iv: d.iv.shifted(), ..d.read(input) }, input);
    }
}

/// Decoding a bit lowers the decoder's measure.
pub proof fn lemma_decoded_progress(d: Decoder, p: int, input: Seq<u8>)
    requires
        d.ready(input),
        0 <= p <= 4095,
    ensures
        d.decoded(p, input) is Some ==> {
            let r = d.decoded(p, input)->0;
            &&& r.ready(input)
            &&& 0 <= r.measure(input) < d.measure(input)
        },
{
    let cut = Decoder { iv: d.iv.narrow(d.bit(p), p), ..d };
    lemma_narrow(d.iv, d.bit(p), p);
    lemma_refilled_progress(cut, input);
}

/// A decoder part-way through a stream, with the model that tells it the
/// probability of each bit.
pub struct Decoding<M> {
    pub model: M,
    pub d: Decoder,
}

impl<M: BitModel> Decoding<M> {
    /// The decoder is ready, and the model gives a 12-bit probability.
    pub open spec fn ready(self, input: Seq<u8>) -> bool {
        self.d.ready(input) && 0 <= self.model.probability() <= 4095
    }

    /// The bit about to be decoded.
    pub open spec fn bit(self) -> bool {
        self.d.bit(self.model.probability())
    }

    /// The state after decoding one bit, or `None` if the stream ends
    /// first.
    #[verifier::opaque]
    pub open spec fn step(self, input: Seq<u8>) -> Option<Self> {
        match self.d.decoded(self.model.probability(), input) {
            Some(d) => Some(Decoding { model: self.model.learn(self.bit()), d }),
            None => None,
        }
    }

    /// The state after `n` bits, or `None` if the stream ends first.
    pub open spec fn steps(self, input: Seq<u8>, n: nat) -> Option<Self>
        decreases n,
    {
        if n == 0 {
            Some(self)
        } else {
            match self.step(input) {
                Some(next) => next.steps(input, (n - 1) as nat),
                None => None,
            }
        }
    }

    /// The first `n` bits decoded from here; meaningful when `steps` is
    /// `Some`.
    pub open spec fn bits(self, input: Seq<u8>, n: nat) -> Seq<bool>
        decreases n,
    {
        if n == 0 {
            Seq::empty()
        } else {
            match self.step(input) {
                Some(next) => seq![self.bit()] + next.bits(input, (n - 1) as nat),
                None => Seq::empty(),
            }
        }
    }

    /// In step with an encoder about to code `bits`.
    pub open spec fn in_step(self, input: Seq<u8>, bits: Seq<bool>) -> bool {
        self.d.in_step(self.model, input, bits)
    }

    /// Eight steps, and the bits they decode, written out one by one.
    pub proof fn lemma_eight_steps(self, input: Seq<u8>)
        ensures
            self.steps(input, 8) == match self.step(input) {
                Some(s1) => match s1.step(input) {
                    Some(s2) => match s2.step(input) {
                        Some(s3) => match s3.step(input) {
                            Some(s4) => match s4.step(input) {
                                Some(s5) => match s5.step(input) {
                                    Some(s6) => match s6.step(input) {
                                        Some(s7) => s7.step(input),
                                        None => None,
                                    },
                                    None => None,
                                },
                                None => None,
                            },
                            None => None,
                        },
                        None => None,
                    },
                    None => None,
                },
                None => None,
            },
            self.steps(input, 8) is Some ==> {
                let s1 = self.step(input)->0;
                let s2 = s1.step(input)->0;
                let s3 = s2.step(input)->0;
                let s4 = s3.step(input)->0;
                let s5 = s4.step(input)->0;
                let s6 = s5.step(input)->0;
                let s7 = s6.step(input)->0;
                self.bits(input, 8) =~= seq![
                    self.bit(),
                    s1.bit(),
                    s2.bit(),
                    s3.bit(),
                    s4.bit(),
                    s5.bit(),
                    s6.bit(),
                    s7.bit(),
                ]
            },
    {
        if self.step(input) is Some {
            let s1 = self.step(input)->0;
            assert(self.steps(input, 8) == s1.steps(input, 7));
            assert(self.bits(input, 8) == seq![self.bit()] + s1.bits(input, 7));
            if s1.step(input) is Some {
                let s2 = s1.step(input)->0;
                assert(s1.steps(input, 7) == s2.steps(input, 6));
                assert(s1.bits(input, 7) == seq![s1.bit()] + s2.bits(input, 6));
                if s2.step(input) is Some {
                    let s3 = s2.step(input)->0;
                    assert(s2.steps(input, 6) == s3.steps(input, 5));
                    assert(s2.bits(input, 6) == seq![s2.bit()] + s3.bits(input, 5));
                    if s3.step(input) is Some {
                        let s4 = s3.step(input)->0;
                        assert(s3.steps(input, 5) == s4.steps(input, 4));
                        assert(s3.bits(input, 5) == seq![s3.bit()] + s4.bits(input, 4));
                        if s4.step(input) is Some {
                            let s5 = s4.step(input)->0;
                            assert(s4.steps(input, 4) == s5.steps(input, 3));
                            assert(s4.bits(input, 4) == seq![s4.bit()] + s5.bits(input, 3));
                            if s5.step(input) is Some {
                                let s6 = s5.step(input)->0;
                                assert(s5.steps(input, 3) == s6.steps(input, 2));
                                assert(s5.bits(input, 3) == seq![s5.bit()] + s6.bits(input, 2));
                                if s6.step(input) is Some {
                                    let s7 = s6.step(input)->0;
                                    assert(s6.steps(input, 2) == s7.steps(input, 1));
                                    assert(s6.bits(input, 2) == seq![s6.bit()] + s7.bits(input, 1));
                                    if s7.step(input) is Some {
                                        let s8 = s7.step(input)->0;
                                        assert(s7.steps(input, 1) == s8.steps(input, 0));
                                        assert(s7.bits(input, 1) == seq![s7.bit()] + s8.bits(input, 0));
                                        assert(s8.steps(input, 0) == Some(s8));
                                        assert(s8.bits(input, 0) =~= Seq::<bool>::empty());
                                    } else {
                                        assert(s7.steps(input, 1) is None);
                                    }
                                } else {
                                    assert(s6.steps(input, 2) is None);
                                }
                            } else {
                                assert(s5.steps(input, 3) is None);
                            }
                        } else {
                            assert(s4.steps(input, 4) is None);
                        }
                    } else {
                        assert(s3.steps(input, 5) is None);
                    }
                } else {
                    assert(s2.steps(input, 6) is None);
                }
            } else {
                assert(s1.steps(input, 7) is None);
            }
        } else {
            assert(self.steps(input, 8) is None);
        }
    }

    /// Decoding a bit keeps the state ready and lowers its measure.
    pub proof fn lemma_step_progress(self, input: Seq<u8>)
        requires
            self.ready(input),
        ensures
            self.step(input) is Some ==> {
                let r = self.step(input)->0;
                &&& r.ready(input)
                &&& 0 <= r.d.measure(input) < self.d.measure(input)
            },
    {
        reveal(Decoding::step);
        lemma_decoded_progress(self.d, self.model.probability(), input);
        self.model.lemma_learn_probability(self.bit());
    }

    /// Decoding bits keeps the state ready and never raises its measure.
    pub proof fn lemma_steps_progress(self, input: Seq<u8>, n: nat)
        requires
            self.ready(input),
        ensures
            self.steps(input, n) is Some ==> {
                let r = self.steps(input, n)->0;
                &&& r.ready(input)
                &&& 0 <= r.d.measure(input) <= self.d.measure(input)
                &&& (n > 0 ==> r.d.measure(input) < self.d.measure(input))
                &&& self.bits(input, n).len() == n
            },
        decreases n,
    {
        if n > 0 {
            self.lemma_step_progress(input);
            if self.step(input) is Some {
                self.step(input)->0.lemma_steps_progress(input, (n - 1) as nat);
            }
        }
    }

    /// In step with the encoder, the decoder gets the encoder's next bit
    /// and stays in step.
    pub proof fn lemma_step_in_step(self, input: Seq<u8>, bits: Seq<bool>)
        requires
            self.in_step(input, bits),
            bits.len() > 0,
        ensures
            self.step(input) is Some,
            self.bit() == bits[0],
            self.step(input)->0.in_step(input, bits.skip(1)),
    {
        reveal(Decoding::step);
        lemma_decode_in_step(self.d, self.model, input, bits);
    }

    /// In step with the encoder, the decoder gets the encoder's next `n`
    /// bits and stays in step.
    pub proof fn lemma_steps_in_step(self, input: Seq<u8>, bits: Seq<bool>, n: nat)
        requires
            self.in_step(input, bits),
            n <= bits.len(),
        ensures
            self.steps(input, n) is Some,
            self.bits(input, n) =~= bits.take(n as int),
            self.steps(input, n)->0.in_step(input, bits.skip(n as int)),
        decreases n,
    {
        if n > 0 {
            self.lemma_step_in_step(input, bits);
            let next = self.step(input)->0;
            next.lemma_steps_in_step(input, bits.skip(1), (n - 1) as nat);
            assert(bits.skip(1).skip(n - 1) =~= bits.skip(n as int));
            assert(seq![bits[0]] + bits.skip(1).take(n - 1) =~= bits.take(n as int));
        } else {
            assert(bits.skip(0) =~= bits);
        }
    }
}

impl Interval {
    /// The whole 32-bit range.
    pub fn new() -> (iv: Interval)
        ensures
            iv == Interval::full(),
    {
        Interval { low: 0, high: 0xFFFF_FFFF }
    }

    /// Keeps the side of the split that codes `bit`.
    pub fn split(&mut self, bit: bool, p: u32)
        requires
            old(self).low < old(self).high,
            p <= 4095,
        ensures
            *final(self) == old(self).narrow(bit, p as int),
            final(self).ordered(),
    {
        proof {
            lemma_midpoint_inside(*self, p as int);
        }
        let range: u32 = self.high - self.low;
        assert(0 <= (range / 4096) * p <= 0xF_FFFF * 4095) by (nonlinear_arith)
            requires
                0 <= range / 4096 <= 0xF_FFFF,
                0 <= p <= 4095,
        ;
        assert(0 <= (range % 4096) * p <= 4095 * 4095) by (nonlinear_arith)
            requires
                0 <= range % 4096 <= 4095,
                0 <= p <= 4095,
        ;
        proof {
            reveal(Interval::midpoint);
        }
        let mid: u32 = self.low + (range / 4096) * p + ((range % 4096) * p) / 4096;
        if bit {
            self.high = mid;
        } else {
            self.low = mid + 1;
        }
    }

    /// Appends to `out` every leading byte on which the two ends agree,
    /// shifting each out of the interval.
    pub fn drain(&mut self, out: &mut Vec<u8>)
        requires
            old(self).ordered(),
        ensures
            *final(self) == old(self).drained(),
            final(self).settled(),
            final(out)@ == old(out)@ + old(self).emitted(),
    {
        proof {
            lemma_drained(*self);
        }
        while self.low / TOP == self.high / TOP
            invariant
                self.ordered(),
                self.drained() == old(self).drained(),
                out@ + self.emitted() == old(out)@ + old(self).emitted(),
            decreases 0x1_0000_0000 - (self.high - self.low),
        {
            let ghost before = *self;
            let ghost written = out@;
            out.push((self.high / TOP) as u8);
            self.high = (self.high % TOP) * 256 + 255;
            self.low = (self.low % TOP) * 256;
            proof {
                assert(*self == before.shifted());
                assert(written + before.emitted() =~= out@ + self.emitted());
            }
        }
        proof {
            assert(out@ + self.emitted() =~= out@);
        }
    }

    /// Appends to `out` what ends the stream.
    pub fn flush(&mut self, out: &mut Vec<u8>)
        requires
            old(self).ordered(),
        ensures
            *final(self) == old(self).drained(),
            final(out)@ == old(out)@ + old(self).flushed(),
    {
        let ghost written = out@;
        self.drain(out);
        out.push((self.high / TOP) as u8);
        proof {
            assert(out@ =~= written + old(self).flushed());
        }
    }
}

/// A decoder at work on a stream held in memory.
pub struct ArithDecoder {
    iv: Interval,
    x: u32,
    next: usize,
}

impl View for ArithDecoder {
    type V = Decoder;

    closed spec fn view(&self) -> Decoder {
        Decoder { iv: self.iv, x: self.x, next: self.next as int }
    }
}

impl ArithDecoder {
    /// Shifts the next byte of `input` into the window.
    fn advance(&mut self, input: &[u8])
        requires
            old(self)@.can_read(input@),
            input@.len() + 3 <= usize::MAX,
        ensures
            final(self)@ == old(self)@.read(input@),
            final(self).iv == old(self).iv,
    {
        let byte: u8 = if self.next < input.len() { input[self.next] } else { 0 };
        self.x = (self.x % TOP) * 256 + (byte as u32);
        self.next = self.next + 1;
    }

    /// Opens `input` for decoding; `None` if it holds no byte at all.
    pub fn open(input: &[u8]) -> (r: Option<ArithDecoder>)
        requires
            input@.len() + 3 <= usize::MAX,
        ensures
            r is Some <==> Decoder::start(input@) is Some,
            r is Some ==> r->0@ == Decoder::start(input@)->0,
    {
        if input.len() == 0 {
            return None;
        }
        let mut d = ArithDecoder { iv: Interval::new(), x: 0, next: 0 };
        d.advance(input);
        d.advance(input);
        d.advance(input);
        d.advance(input);
        Some(d)
    }

    /// Decodes one bit whose probability of being a one is `p`; `None`,
    /// with the decoder left anywhere, if the stream ends first.
    pub fn decode(&mut self, p: u32, input: &[u8]) -> (r: Option<bool>)
        requires
            old(self)@.ready(input@),
            p <= 4095,
            input@.len() + 3 <= usize::MAX,
        ensures
            r is Some <==> old(self)@.decoded(p as int, input@) is Some,
            r is Some ==> r->0 == old(self)@.bit(p as int),
            r is Some ==> final(self)@ == old(self)@.decoded(p as int, input@)->0,
    {
        proof {
            lemma_midpoint_inside(self.iv, p as int);
        }
        let range: u32 = self.iv.high - self.iv.low;
        assert(0 <= (range / 4096) * p <= 0xF_FFFF * 4095) by (nonlinear_arith)
            requires
                0 <= range / 4096 <= 0xF_FFFF,
                0 <= p <= 4095,
        ;
        assert(0 <= (range % 4096) * p <= 4095 * 4095) by (nonlinear_arith)
            requires
                0 <= range % 4096 <= 4095,
                0 <= p <= 4095,
        ;
        proof {
            reveal(Interval::midpoint);
        }
        let mid: u32 = self.iv.low + (range / 4096) * p + ((range % 4096) * p) / 4096;
        let bit: bool = self.x <= mid;
        proof {
            lemma_narrow(self.iv, bit, p as int);
        }
        self.iv.split(bit, p);
        let ghost cut = self@;
        while self.iv.low / TOP == self.iv.high / TOP
            invariant
                self.iv.ordered(),
                self.next <= input@.len() + 3 <= usize::MAX,
                self@.refilled(input@) == cut.refilled(input@),
                cut.refilled(input@) == old(self)@.decoded(p as int, input@),
                bit == old(self)@.bit(p as int),
            decreases 0x1_0000_0000 - (self.iv.high - self.iv.low),
        {
            if self.next >= 2 && self.next - 2 > input.len() {
                return None;
            }
            let ghost before = self@;
            self.advance(input);
            self.iv.high = (self.iv.high % TOP) * 256 + 255;
            self.iv.low = (self.iv.low % TOP) * 256;
            proof {
                assert(self@ == Decoder { iv: before.iv.shifted(), ..before.read(input@) });
            }
        }
        Some(bit)
    }
}

} // verus!
