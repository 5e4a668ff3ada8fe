//! FPAQ: an arithmetic coder driven by an order-0 bit-history model whose
//! prediction is refined by five adaptive probability maps.
//!
//! Every source byte is coded as a one bit followed by its eight bits,
//! most significant first; a single zero bit ends the stream.

use vstd::prelude::*;
use crate::apm::Apm;
use crate::apm::ApmModel;
use crate::apm::lemma_refined_range;
use crate::coder::BitModel;
use crate::coder::Interval;
use crate::coder::ArithDecoder;
use crate::error::DecodeError;
use crate::coder::Encoding;
use crate::coder::Decoding;
use crate::coder::byte_bits;
use crate::coder::byte_of;
use crate::coder::bit_value;
use crate::coder::encode_bits;
use crate::error::prefixed;
use crate::logistic::StretchTable;
use crate::state::next_state;
use crate::state::next_state_spec;
use crate::statemap::StateMap;
use crate::statemap::StateMapKind;
use crate::statemap::StateMapModel;

verus! {

/// Hash of the last three whole bytes into 14 bits.
pub open spec fn history_hash(cxt4: u32) -> u32 {
    ((((cxt4 % 0x100_0000) * 123456791) % 0x1_0000_0000) / 0x4_0000) as u32
}

/// Mathematical content of a [`Predictor`].
pub struct PredictorModel {
    /// The bits of the current byte seen so far, behind the byte's flag.
    pub cxt: int,
    /// The last four whole bytes, latest lowest.
    pub cxt4: u32,
    /// Probability that the next bit is a one.
    pub pr: int,
    /// One bit history per partial-byte context.
    pub state: Seq<u8>,
    pub sm: StateMapModel,
    pub apm0: ApmModel,
    pub apm1: ApmModel,
    pub apm2: ApmModel,
    pub apm3: ApmModel,
    pub apm4: ApmModel,
}

impl PredictorModel {
    /// A predictor that has seen nothing.
    pub open spec fn initial() -> Self {
        PredictorModel {
            cxt: 0,
            cxt4: 0,
            pr: 2048,
            state: Seq::new(256, |i: int| 0u8),
            sm: StateMapModel::fresh(StateMapKind::Fpaq, 65536),
            apm0: ApmModel::fresh(256),
            apm1: ApmModel::fresh(256),
            apm2: ApmModel::fresh(65536),
            apm3: ApmModel::fresh(8192),
            apm4: ApmModel::fresh(16384),
        }
    }

    /// Every table has its size, and every index is within its table.
    pub open spec fn wf(self) -> bool {
        &&& 0 <= self.cxt < 256
        &&& 0 <= self.pr <= 4095
        &&& self.state.len() == 256
        &&& self.sm.wf()
        &&& self.sm.kind == StateMapKind::Fpaq
        &&& self.sm.entries.len() == 65536
        &&& self.apm0.wf()
        &&& self.apm0.bins.len() == 33 * 256
        &&& self.apm1.wf()
        &&& self.apm1.bins.len() == 33 * 256
        &&& self.apm2.wf()
        &&& self.apm2.bins.len() == 33 * 65536
        &&& self.apm3.wf()
        &&& self.apm3.bins.len() == 33 * 8192
        &&& self.apm4.wf()
        &&& self.apm4.bins.len() == 33 * 16384
    }

    /// The predictor after `bit` (0 or 1): the history of the context the
    /// bit was seen in advances, the context takes the bit in, and a new
    /// probability is drawn from the state map and passed through the
    /// five refinements.
    pub open spec fn update(self, bit: int) -> Self {
        let state = self.state.update(self.cxt, next_state_spec(self.state[self.cxt], bit));
        let grown = 2 * self.cxt + bit;
        let cxt = if grown >= 256 { 0 } else { grown };
        let cxt4 = if grown >= 256 {
            ((self.cxt4 % 0x100_0000) * 256 + (grown - 256)) as u32
        } else {
            self.cxt4
        };
        let sm = self.sm.predict(bit, state[cxt] as int);
        let p0 = sm.probability();
        let apm0 = self.apm0.predict(bit, 5, p0, cxt);
        let apm1 = self.apm1.predict(bit, 9, p0, cxt);
        let p1 = (apm0.refined(p0) + apm1.refined(p0) + 1) / 2;
        let apm2 = self.apm2.predict(bit, 7, p1, cxt + (cxt4 % 256) * 256);
        let p2 = apm2.refined(p1);
        let apm3 = self.apm3.predict(bit, 7, p2, cxt + (cxt4 / 256 % 32) * 256);
        let p3 = (apm3.refined(p2) * 3 + p2 + 2) / 4;
        let apm4 = self.apm4.predict(bit, 7, p3, ((cxt as u32) ^ history_hash(cxt4)) as int);
        let p4 = (apm4.refined(p3) + p3 + 1) / 2;
        PredictorModel { cxt, cxt4, pr: p4, state, sm, apm0, apm1, apm2, apm3, apm4 }
    }
}

impl BitModel for PredictorModel {
    open spec fn probability(&self) -> int {
        self.pr
    }

    open spec fn learn(&self, bit: bool) -> Self {
        self.update(bit_value(bit))
    }

    proof fn lemma_learn_probability(&self, bit: bool) {
        let b = bit_value(bit);
        let state = self.state.update(self.cxt, next_state_spec(self.state[self.cxt], b));
        let grown = 2 * self.cxt + b;
        let cxt = if grown >= 256 { 0 } else { grown };
        let cxt4 = if grown >= 256 {
            ((self.cxt4 % 0x100_0000) * 256 + (grown - 256)) as u32
        } else {
            self.cxt4
        };
        let sm = self.sm.predict(b, state[cxt] as int);
        let p0 = sm.probability();
        let apm0 = self.apm0.predict(b, 5, p0, cxt);
        let apm1 = self.apm1.predict(b, 9, p0, cxt);
        let p1 = (apm0.refined(p0) + apm1.refined(p0) + 1) / 2;
        let apm2 = self.apm2.predict(b, 7, p1, cxt + (cxt4 % 256) * 256);
        let p2 = apm2.refined(p1);
        let apm3 = self.apm3.predict(b, 7, p2, cxt + (cxt4 / 256 % 32) * 256);
        let p3 = (apm3.refined(p2) * 3 + p2 + 2) / 4;
        let apm4 = self.apm4.predict(b, 7, p3, ((cxt as u32) ^ history_hash(cxt4)) as int);
        lemma_refined_range(apm0, p0);
        lemma_refined_range(apm1, p0);
        lemma_refined_range(apm2, p1);
        lemma_refined_range(apm3, p2);
        lemma_refined_range(apm4, p3);
    }
}

/// The bit-by-bit model of FPAQ.
pub struct Predictor {
    cxt: usize,
    cxt4: u32,
    pr: i32,
    state: Vec<u8>,
    sm: StateMap,
    apm0: Apm,
    apm1: Apm,
    apm2: Apm,
    apm3: Apm,
    apm4: Apm,
    stretch: StretchTable,
}

impl View for Predictor {
    type V = PredictorModel;

    closed spec fn view(&self) -> PredictorModel {
        PredictorModel {
            cxt: self.cxt as int,
            cxt4: self.cxt4,
            pr: self.pr as int,
            state: self.state@,
            sm: self.sm@,
            apm0: self.apm0@,
            apm1: self.apm1@,
            apm2: self.apm2@,
            apm3: self.apm3@,
            apm4: self.apm4@,
        }
    }
}

impl Predictor {
    /// Well-formed: the content is, and the stretch table is filled.
    pub closed spec fn wf(&self) -> bool {
        self@.wf() && self.stretch.wf()
    }

    /// A predictor that has seen nothing.
    pub fn new() -> (p: Self)
        ensures
            p.wf(),
            p@ == PredictorModel::initial(),
    {
        let p = Predictor {
            cxt: 0,
            cxt4: 0,
            pr: 2048,
            state: vec![0u8; 256],
            sm: StateMap::new(StateMapKind::Fpaq, 65536),
            apm0: Apm::new(256),
            apm1: Apm::new(256),
            apm2: Apm::new(65536),
            apm3: Apm::new(8192),
            apm4: Apm::new(16384),
            stretch: StretchTable::new(),
        };
        assert(p@.state =~= PredictorModel::initial().state);
        p
    }

    /// Probability, in 4096ths, that the next bit is a one.
    pub fn p(&self) -> (pr: i32)
        requires
            self.wf(),
        ensures
            pr == self@.pr,
            0 <= pr <= 4095,
    {
        self.pr
    }

    /// Takes in the bit that was coded and predicts the next one.
    pub fn update(&mut self, bit: i32)
        requires
            old(self).wf(),
            bit == 0 || bit == 1,
        ensures
            final(self).wf(),
            final(self)@ == old(self)@.update(bit as int),
    {
        let next: u8 = next_state(self.state[self.cxt], bit);
        self.state[self.cxt] = next;
        let grown: usize = 2 * self.cxt + (bit as usize);
        if grown >= 256 {
            self.cxt4 = (self.cxt4 % 0x100_0000) * 256 + ((grown - 256) as u32);
            self.cxt = 0;
        } else {
            self.cxt = grown;
        }
        let p0: i32 = self.sm.p(bit, self.state[self.cxt] as usize);

        let cxt: usize = self.cxt;
        let a0: i32 = self.apm0.p(bit, 5, p0, cxt, &self.stretch);
        let a1: i32 = self.apm1.p(bit, 9, p0, cxt, &self.stretch);
        let p1: i32 = (a0 + a1 + 1) / 2;

        let cxt2: usize = cxt + ((self.cxt4 % 256) as usize) * 256;
        let p2: i32 = self.apm2.p(bit, 7, p1, cxt2, &self.stretch);

        let cxt3: usize = cxt + ((self.cxt4 / 256 % 32) as usize) * 256;
        let a3: i32 = self.apm3.p(bit, 7, p2, cxt3, &self.stretch);
        let p3: i32 = (a3 * 3 + p2 + 2) / 4;

        let product: u64 = ((self.cxt4 % 0x100_0000) as u64) * 123456791;
        let hash: u32 = ((product % 0x1_0000_0000) / 0x4_0000) as u32;
        let c: u32 = cxt as u32;
        assert((c ^ hash) < 16384) by (bit_vector)
            requires
                c < 256,
                hash < 16384,
        ;
        let cxt5: usize = (c ^ hash) as usize;
        let a4: i32 = self.apm4.p(bit, 7, p3, cxt5, &self.stretch);
        self.pr = (a4 + p3 + 1) / 2;
    }
}

/// The bits FPAQ codes for `data`: a one and eight data bits per byte,
/// then a zero.
pub open spec fn frame(data: Seq<u8>) -> Seq<bool>
    decreases data.len(),
{
    if data.len() == 0 {
        seq![false]
    } else {
        seq![true] + (byte_bits(data[0]) + frame(data.skip(1)))
    }
}

/// The FPAQ stream for `data`.
pub open spec fn compressed(data: Seq<u8>) -> Seq<u8> {
    encode_bits(PredictorModel::initial(), Interval::full(), frame(data))
}

/// The bytes decoded from state `s` up to the end-of-stream bit, or
/// `None` if `input` ends before that bit.
pub open spec fn decode_stream(s: Decoding<PredictorModel>, input: Seq<u8>) -> Option<Seq<u8>>
    decreases s.d.measure(input),
    when s.ready(input)
{
    match s.step(input) {
        None => None,
        Some(flagged) => {
            if !s.bit() {
                Some(Seq::empty())
            } else {
                match flagged.steps(input, 8) {
                    None => None,
                    Some(next) => {
                        proof {
                            s.lemma_step_progress(input);
                            flagged.lemma_steps_progress(input, 8);
                        }
                        prefixed(seq![byte_of(flagged.bits(input, 8))], decode_stream(next, input))
                    },
                }
            }
        },
    }
}

/// What the FPAQ stream `input` decompresses to, or `None` if it is cut
/// short.
pub open spec fn decompressed(input: Seq<u8>) -> Option<Seq<u8>> {
    match crate::coder::Decoder::start(input) {
        Some(d) => decode_stream(Decoding { model: PredictorModel::initial(), d }, input),
        None => None,
    }
}

/// A decoder in step with an encoder that is about to code the frame of
/// `data` decodes `data`.
pub proof fn lemma_decode_frame(s: Decoding<PredictorModel>, input: Seq<u8>, data: Seq<u8>)
    requires
        s.in_step(input, frame(data)),
    ensures
        decode_stream(s, input) == Some(data),
    decreases data.len(),
{
    let bits = frame(data);
    s.lemma_step_in_step(input, bits);
    let flagged = s.step(input)->0;
    if data.len() == 0 {
        assert(decode_stream(s, input).unwrap() =~= data);
    } else {
        let rest = frame(data.skip(1));
        let body = byte_bits(data[0]) + rest;
        assert(bits.skip(1) =~= body);
        flagged.lemma_steps_in_step(input, body, 8);
        let next = flagged.steps(input, 8)->0;
        assert(body.take(8) =~= byte_bits(data[0]));
        assert(body.skip(8) =~= rest);
        crate::coder::lemma_byte_of_bits(data[0]);
        lemma_decode_frame(next, input, data.skip(1));
        assert(seq![data[0]] + data.skip(1) =~= data);
    }
}

/// Decompressing what compression produced gives back the data.
pub proof fn lemma_round_trip(data: Seq<u8>)
    ensures
        decompressed(compressed(data)) == Some(data),
{
    let input = compressed(data);
    crate::coder::lemma_start_in_step(PredictorModel::initial(), input, frame(data));
    let d = crate::coder::Decoder::start(input)->0;
    lemma_decode_frame(Decoding { model: PredictorModel::initial(), d }, input, data);
}

/// A stream is never empty: the byte that ends it is always there.
pub proof fn lemma_compressed_nonempty(data: Seq<u8>)
    ensures
        compressed(data).len() >= 1,
{
    crate::coder::lemma_encode_nonempty(PredictorModel::initial(), Interval::full(), frame(data));
}

/// An FPAQ encoder writing to memory.
pub struct Encoder {
    predictor: Predictor,
    iv: Interval,
    out: Vec<u8>,
}

impl View for Encoder {
    type V = Encoding<PredictorModel>;

    closed spec fn view(&self) -> Encoding<PredictorModel> {
        Encoding { model: self.predictor@, iv: self.iv, out: self.out@ }
    }
}

impl Encoder {
    /// The predictor is well-formed and no byte is waiting to be shifted
    /// out.
    pub closed spec fn wf(&self) -> bool {
        self.predictor.wf() && self.iv.settled()
    }

    /// An encoder that has coded nothing.
    pub fn new() -> (enc: Self)
        ensures
            enc.wf(),
            enc@ == Encoding::start(PredictorModel::initial()),
    {
        Encoder { predictor: Predictor::new(), iv: Interval::new(), out: Vec::new() }
    }

    /// Codes one bit.
    pub fn encode(&mut self, bit: i32)
        requires
            old(self).wf(),
            bit == 0 || bit == 1,
        ensures
            final(self).wf(),
            final(self)@ == old(self)@.step(bit == 1),
    {
        proof {
            reveal(Encoding::step);
        }
        let p: u32 = self.predictor.p() as u32;
        self.iv.split(bit == 1, p);
        self.predictor.update(bit);
        self.iv.drain(&mut self.out);
    }

    /// Codes the eight bits of `byte`, most significant first.
    pub fn encode_byte(&mut self, byte: u8)
        requires
            old(self).wf(),
        ensures
            final(self).wf(),
            final(self)@ == old(self)@.byte(byte),
    {
        self.encode((byte / 128 % 2) as i32);
        self.encode((byte / 64 % 2) as i32);
        self.encode((byte / 32 % 2) as i32);
        self.encode((byte / 16 % 2) as i32);
        self.encode((byte / 8 % 2) as i32);
        self.encode((byte / 4 % 2) as i32);
        self.encode((byte / 2 % 2) as i32);
        self.encode((byte % 2) as i32);
    }

    /// Ends the stream and hands it over.
    pub fn flush(self) -> (out: Vec<u8>)
        requires
            self.wf(),
        ensures
            out@ == self@.finish(Seq::empty()),
    {
        let mut iv = self.iv;
        let mut out = self.out;
        iv.flush(&mut out);
        out
    }
}

/// An FPAQ decoder reading from memory.
pub struct Decoder {
    predictor: Predictor,
    d: ArithDecoder,
}

impl View for Decoder {
    type V = Decoding<PredictorModel>;

    closed spec fn view(&self) -> Decoding<PredictorModel> {
        Decoding { model: self.predictor@, d: self.d@ }
    }
}

impl Decoder {
    /// The predictor is well-formed and the decoder is ready to decode a
    /// bit of `input`.
    pub closed spec fn wf(&self, input: Seq<u8>) -> bool {
        self.predictor.wf() && self@.ready(input)
    }

    /// Opens `input`; `None` if it holds no byte at all.
    pub fn new(input: &[u8]) -> (r: Option<Decoder>)
        requires
            input@.len() + 3 <= usize::MAX,
        ensures
            r is Some <==> crate::coder::Decoder::start(input@) is Some,
            r is Some ==> r->0.wf(input@) && r->0@ == (Decoding {
                model: PredictorModel::initial(),
                d: crate::coder::Decoder::start(input@)->0,
            }),
    {
        match ArithDecoder::open(input) {
            Some(d) => Some(Decoder { predictor: Predictor::new(), d }),
            None => None,
        }
    }

    /// Decodes one bit; `None` if the stream ends first.
    pub fn decode(&mut self, input: &[u8]) -> (r: Option<u8>)
        requires
            old(self).wf(input@),
            input@.len() + 3 <= usize::MAX,
        ensures
            r is Some <==> old(self)@.step(input@) is Some,
            r is Some ==> final(self).wf(input@),
            r is Some ==> final(self)@ == old(self)@.step(input@)->0,
            r is Some ==> r->0 == bit_value(old(self)@.bit()),
    {
        proof {
            reveal(Decoding::step);
            self@.lemma_step_progress(input@);
        }
        let p: u32 = self.predictor.p() as u32;
        match self.d.decode(p, input) {
            Some(bit) => {
                let b: u8 = if bit { 1 } else { 0 };
                self.predictor.update(b as i32);
                Some(b)
            },
            None => None,
        }
    }

    /// Decodes eight bits into a byte; `None` if the stream ends first.
    pub fn decode_byte(&mut self, input: &[u8]) -> (r: Option<u8>)
        requires
            old(self).wf(input@),
            input@.len() + 3 <= usize::MAX,
        ensures
            r is Some <==> old(self)@.steps(input@, 8) is Some,
            r is Some ==> final(self).wf(input@),
            r is Some ==> final(self)@ == old(self)@.steps(input@, 8)->0,
            r is Some ==> r->0 == byte_of(old(self)@.bits(input@, 8)),
    {
        proof {
            self@.lemma_eight_steps(input@);
        }
        let b0: u8 = match self.decode(input) {
            Some(b) => b,
            None => {
                return None;
            },
        };
        let b1: u8 = match self.decode(input) {
            Some(b) => b,
            None => {
                return None;
            },
        };
        let b2: u8 = match self.decode(input) {
            Some(b) => b,
            None => {
                return None;
            },
        };
        let b3: u8 = match self.decode(input) {
            Some(b) => b,
            None => {
                return None;
            },
        };
        let b4: u8 = match self.decode(input) {
            Some(b) => b,
            None => {
                return None;
            },
        };
        let b5: u8 = match self.decode(input) {
            Some(b) => b,
            None => {
                return None;
            },
        };
        let b6: u8 = match self.decode(input) {
            Some(b) => b,
            None => {
                return None;
            },
        };
        let b7: u8 = match self.decode(input) {
            Some(b) => b,
            None => {
                return None;
            },
        };
        Some(b0 * 128 + b1 * 64 + b2 * 32 + b3 * 16 + b4 * 8 + b5 * 4 + b6 * 2 + b7)
    }
}

/// Compresses `input` with FPAQ.
pub fn fpaq_compress(input: &[u8]) -> (out: Vec<u8>)
    ensures
        out@ == compressed(input@),
{
    let mut enc = Encoder::new();
    let mut i: usize = 0;
    proof {
        assert(input@.skip(0) =~= input@);
        assert(enc@.out + compressed(input@) =~= compressed(input@));
    }
    while i < input.len()
        invariant
            i <= input@.len(),
            enc.wf(),
            enc@.finish(frame(input@.skip(i as int))) == compressed(input@),
        decreases input@.len() - i,
    {
        let byte: u8 = input[i];
        proof {
            let here = input@.skip(i as int);
            let rest = frame(input@.skip(i + 1));
            assert(here.skip(1) =~= input@.skip(i + 1));
            assert(frame(here) == seq![true] + (byte_bits(byte) + rest));
            enc@.lemma_step_cons(true, byte_bits(byte) + rest);
            enc@.step(true).lemma_byte(byte, rest);
        }
        enc.encode(1);
        enc.encode_byte(byte);
        i += 1;
    }
    proof {
        assert(frame(input@.skip(i as int)) =~= seq![false] + Seq::<bool>::empty());
        enc@.lemma_step_cons(false, Seq::empty());
    }
    enc.encode(0);
    enc.flush()
}

/// Decompresses the FPAQ stream `input`; fails if the stream ends before
/// its end-of-stream bit.
pub fn fpaq_decompress(input: &[u8]) -> (r: Result<Vec<u8>, DecodeError>)
    requires
        input@.len() + 3 <= usize::MAX,
    ensures
        match decompressed(input@) {
            Some(data) => r is Ok && r->Ok_0@ == data,
            None => r == Err::<Vec<u8>, DecodeError>(DecodeError::UnexpectedEof),
        },
{
    let mut dec = match Decoder::new(input) {
        Some(dec) => dec,
        None => {
            return Err(DecodeError::UnexpectedEof);
        },
    };
    let mut out: Vec<u8> = Vec::new();
    proof {
        assert(prefixed(out@, decode_stream(dec@, input@)) =~= decompressed(input@)) by {
            if decode_stream(dec@, input@) is Some {
                assert(out@ + decode_stream(dec@, input@)->0 =~= decode_stream(dec@, input@)->0);
            }
        }
    }
    loop
        invariant
            dec.wf(input@),
            input@.len() + 3 <= usize::MAX,
            prefixed(out@, decode_stream(dec@, input@)) == decompressed(input@),
        decreases dec@.d.measure(input@),
    {
        let ghost before = dec@;
        proof {
            before.lemma_step_progress(input@);
        }
        match dec.decode(input) {
            None => {
                return Err(DecodeError::UnexpectedEof);
            },
            Some(flag) => {
                if flag == 0 {
                    proof {
                        assert(out@ + Seq::<u8>::empty() =~= out@);
                    }
                    return Ok(out);
                }
            },
        }
        let ghost flagged = dec@;
        proof {
            flagged.lemma_steps_progress(input@, 8);
        }
        match dec.decode_byte(input) {
            None => {
                return Err(DecodeError::UnexpectedEof);
            },
            Some(byte) => {
                let ghost written = out@;
                out.push(byte);
                proof {
                    if decode_stream(dec@, input@) is Some {
                        let rest = decode_stream(dec@, input@)->0;
                        assert(written + (seq![byte] + rest) =~= out@ + rest);
                    }
                }
            },
        }
    }
}

} // verus!
