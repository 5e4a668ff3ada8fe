//! The LPAQ1 stream: a 24-byte header that tells how many bytes follow in
//! blocks of what size, then the arithmetic-coded bits of those bytes.

use vstd::prelude::*;
use vstd::slice::slice_subrange;
use crate::bufio::get_u64;
use crate::bufio::put_u64;
use crate::bufio::u64_at;
use crate::bufio::u64_bytes;
use crate::bufio::lemma_u64_bytes_value;
use crate::coder::ArithDecoder;
use crate::coder::Decoding;
use crate::coder::Encoding;
use crate::coder::Interval;
use crate::coder::bit_value;
use crate::coder::byte_bits;
use crate::coder::byte_of;
use crate::coder::encode_bits;
use crate::error::prefixed;
use crate::error::DecodeError;
use crate::lpaq1::predictor::Predictor;
use crate::lpaq1::predictor::PredictorModel;

verus! {

/// Length of the header.
pub const HEADER: usize = 24;

/// How the input was cut into blocks.
#[derive(Clone, Copy, PartialEq, Eq, Structural, Debug)]
pub struct BlockData {
    /// Size of every block but the last.
    pub base_size: u64,
    /// Size of the last block.
    pub final_size: u64,
    /// Number of blocks.
    pub count: u64,
}

impl BlockData {
    /// The header: final size, base size and count, eight bytes each,
    /// least significant first.
    pub open spec fn header(self) -> Seq<u8> {
        u64_bytes(self.final_size) + u64_bytes(self.base_size) + u64_bytes(self.count)
    }

    /// The header found at the start of `input`.
    pub open spec fn parsed(input: Seq<u8>) -> BlockData {
        BlockData {
            final_size: u64_at(input, 0),
            base_size: u64_at(input, 8),
            count: u64_at(input, 16),
        }
    }

    /// Number of bytes the blocks hold together.
    pub open spec fn declared(self) -> int {
        if self.count == 0 {
            self.final_size as int
        } else {
            (self.count - 1) * self.base_size + self.final_size
        }
    }

    /// No block yet.
    pub open spec fn empty(base_size: u64) -> BlockData {
        BlockData { base_size, final_size: 0, count: 0 }
    }

    /// One more block, of `size` bytes.
    pub open spec fn with_block(self, size: u64) -> BlockData {
        BlockData { final_size: size, count: (self.count + 1) as u64, ..self }
    }

    /// The record after `remaining` more bytes have been cut into blocks
    /// of the base size, the last one taking what is left.
    pub open spec fn with_bytes(self, remaining: int) -> BlockData
        decreases remaining,
    {
        if remaining <= 0 || self.base_size == 0 {
            self
        } else if remaining <= self.base_size {
            self.with_block(remaining as u64)
        } else {
            self.with_block(self.base_size).with_bytes(remaining - self.base_size)
        }
    }

    /// Every block so far has the base size.
    pub open spec fn full(self) -> bool {
        if self.count == 0 {
            self.final_size == 0
        } else {
            self.final_size == self.base_size
        }
    }

    /// No block yet.
    pub fn new(base_size: u64) -> (data: BlockData)
        ensures
            data == BlockData::empty(base_size),
    {
        BlockData { base_size, final_size: 0, count: 0 }
    }

    /// The record with the given fields, in the order of the header.
    pub fn from(final_size: u64, base_size: u64, count: u64) -> (data: BlockData)
        ensures
            data == (BlockData { base_size, final_size, count }),
    {
        BlockData { base_size, final_size, count }
    }

    /// Records one more block.
    pub fn update(&mut self, size: u64)
        requires
            old(self).count < u64::MAX,
        ensures
            *final(self) == old(self).with_block(size),
    {
        self.final_size = size;
        self.count += 1;
    }
}

/// Cutting `remaining` more bytes into blocks adds `remaining` to the
/// declared length, as long as the numbers fit in 64 bits.
pub proof fn lemma_with_bytes_declared(d: BlockData, remaining: int)
    requires
        d.full(),
        d.base_size >= 1,
        0 <= remaining,
        d.declared() + remaining <= u64::MAX,
        d.count <= d.declared(),
    ensures
        d.with_bytes(remaining).declared() == d.declared() + remaining,
    decreases remaining,
{
    if remaining > 0 {
        let c = d.count as int;
        let b = d.base_size as int;
        assert(d.declared() == c * b) by (nonlinear_arith)
            requires
                d.declared() == if c == 0 {
                    0
                } else {
                    (c - 1) * b + b
                },
        ;
        if remaining > d.base_size {
            let next = d.with_block(d.base_size);
            assert(next.declared() == c * b + b);
            assert(c + 1 <= c * b + b) by (nonlinear_arith)
                requires
                    c >= 0,
                    b >= 1,
            ;
            lemma_with_bytes_declared(next, remaining - d.base_size);
        }
    }
}

/// The bits of `data`, most significant bit of each byte first.
pub open spec fn data_bits(data: Seq<u8>) -> Seq<bool>
    decreases data.len(),
{
    if data.len() == 0 {
        Seq::empty()
    } else {
        byte_bits(data[0]) + data_bits(data.skip(1))
    }
}

/// The coded bits of `data`.
pub open spec fn payload(data: Seq<u8>) -> Seq<u8> {
    encode_bits(PredictorModel::initial(), Interval::full(), data_bits(data))
}

/// The LPAQ1 stream for `data` read in blocks of `block_size` bytes. A
/// reader with blocks of no size at all never reads anything.
pub open spec fn compressed(data: Seq<u8>, block_size: u64) -> Seq<u8> {
    if block_size == 0 {
        BlockData::empty(0).header() + payload(Seq::empty())
    } else {
        BlockData::empty(block_size).with_bytes(data.len() as int).header() + payload(data)
    }
}

/// The next `n` bytes decoded from state `s`, or `None` if `input` ends
/// first.
pub open spec fn decode_bytes(s: Decoding<PredictorModel>, input: Seq<u8>, n: nat) -> Option<
    Seq<u8>,
>
    decreases n,
{
    if n == 0 {
        Some(Seq::empty())
    } else {
        match s.steps(input, 8) {
            None => None,
            Some(next) => prefixed(
                seq![byte_of(s.bits(input, 8))],
                decode_bytes(next, input, (n - 1) as nat),
            ),
        }
    }
}

/// What the LPAQ1 stream `input` decompresses to: as many bytes as its
/// header declares, or `None` if the stream is shorter than a header and
/// one byte, or ends before all those bytes are decoded.
pub open spec fn decompressed(input: Seq<u8>) -> Option<Seq<u8>> {
    if input.len() < HEADER {
        None
    } else {
        let body = input.skip(HEADER as int);
        match crate::coder::Decoder::start(body) {
            Some(d) => decode_bytes(
                Decoding { model: PredictorModel::initial(), d },
                body,
                BlockData::parsed(input).declared() as nat,
            ),
            None => None,
        }
    }
}

/// A header followed by anything parses as itself.
pub proof fn lemma_header_parsed(d: BlockData, rest: Seq<u8>)
    ensures
        BlockData::parsed(d.header() + rest) == d,
        d.header().len() == HEADER,
        (d.header() + rest).skip(HEADER as int) =~= rest,
{
    lemma_u64_bytes_value(d.final_size);
    lemma_u64_bytes_value(d.base_size);
    lemma_u64_bytes_value(d.count);
    let s = d.header() + rest;
    let a = u64_bytes(d.final_size);
    let b = u64_bytes(d.base_size);
    let c = u64_bytes(d.count);
    assert forall|k: int| 0 <= k < 8 implies s[k] == a[k] && s[8 + k] == b[k] && s[16 + k]
        == c[k] by {}
    assert(u64_at(s, 0) == u64_at(a, 0));
    assert(u64_at(s, 8) == u64_at(b, 0));
    assert(u64_at(s, 16) == u64_at(c, 0));
}

/// A decoder in step with an encoder that is about to code the bits of
/// `data` decodes `data`.
pub proof fn lemma_decode_data(s: Decoding<PredictorModel>, input: Seq<u8>, data: Seq<u8>)
    requires
        s.in_step(input, data_bits(data)),
    ensures
        decode_bytes(s, input, data.len()) == Some(data),
    decreases data.len(),
{
    if data.len() == 0 {
        assert(decode_bytes(s, input, 0).unwrap() =~= data);
    } else {
        let rest = data_bits(data.skip(1));
        let bits = byte_bits(data[0]) + rest;
        s.lemma_steps_in_step(input, bits, 8);
        let next = s.steps(input, 8)->0;
        assert(bits.take(8) =~= byte_bits(data[0]));
        assert(bits.skip(8) =~= rest);
        crate::coder::lemma_byte_of_bits(data[0]);
        lemma_decode_data(next, input, data.skip(1));
        assert(seq![data[0]] + data.skip(1) =~= data);
    }
}

/// Decompressing what compression produced gives back the data, for
/// every block size but zero.
pub proof fn lemma_round_trip(data: Seq<u8>, block_size: u64)
    requires
        block_size >= 1,
        data.len() <= u64::MAX,
    ensures
        decompressed(compressed(data, block_size)) == Some(data),
{
    let d = BlockData::empty(block_size).with_bytes(data.len() as int);
    let input = compressed(data, block_size);
    let body = payload(data);
    lemma_header_parsed(d, body);
    lemma_with_bytes_declared(BlockData::empty(block_size), data.len() as int);
    crate::coder::lemma_start_in_step(PredictorModel::initial(), body, data_bits(data));
    let dec = crate::coder::Decoder::start(body)->0;
    lemma_decode_data(Decoding { model: PredictorModel::initial(), d: dec }, body, data);
    assert(input.skip(HEADER as int) =~= body);
}

/// A stream is a header and at least one byte.
pub proof fn lemma_compressed_len(data: Seq<u8>, block_size: u64)
    ensures
        compressed(data, block_size).len() >= HEADER + 1,
{
    let none = Seq::<u8>::empty();
    crate::coder::lemma_encode_nonempty(
        PredictorModel::initial(),
        Interval::full(),
        data_bits(data),
    );
    crate::coder::lemma_encode_nonempty(
        PredictorModel::initial(),
        Interval::full(),
        data_bits(none),
    );
    lemma_header_parsed(BlockData::empty(0), payload(none));
    lemma_header_parsed(BlockData::empty(block_size).with_bytes(data.len() as int), payload(data));
}

/// What follows the header does not depend on the block size.
pub proof fn lemma_payload_any_block_size(data: Seq<u8>, a: u64, b: u64)
    requires
        a >= 1,
        b >= 1,
    ensures
        compressed(data, a).skip(HEADER as int) == compressed(data, b).skip(HEADER as int),
{
    lemma_header_parsed(BlockData::empty(a).with_bytes(data.len() as int), payload(data));
    lemma_header_parsed(BlockData::empty(b).with_bytes(data.len() as int), payload(data));
}

/// An LPAQ1 encoder writing to memory, behind room for the header.
pub struct Encoder {
    iv: Interval,
    predictor: Predictor,
    archive: Vec<u8>,
}

impl View for Encoder {
    type V = Encoding<PredictorModel>;

    closed spec fn view(&self) -> Encoding<PredictorModel> {
        Encoding { model: self.predictor@, iv: self.iv, out: self.archive@.skip(HEADER as int) }
    }
}

impl Encoder {
    /// The predictor is well-formed, no byte is waiting to be shifted
    /// out, and there is room for the header.
    pub closed spec fn wf(&self) -> bool {
        self.predictor.wf() && self.iv.settled() && self.archive@.len() >= HEADER
    }

    /// An encoder that has coded nothing.
    pub fn new() -> (enc: Self)
        ensures
            enc.wf(),
            enc@ == Encoding::start(PredictorModel::initial()),
    {
        let enc = Encoder {
            iv: Interval::new(),
            predictor: Predictor::new(),
            archive: vec![0u8; HEADER],
        };
        assert(enc@.out =~= Seq::<u8>::empty());
        enc
    }

    /// Codes one bit.
    pub fn encode_bit(&mut self, bit: i32)
        requires
            old(self).wf(),
            bit == 0 || bit == 1,
        ensures
            final(self).wf(),
            final(self)@ == old(self)@.step(bit == 1),
    {
        proof {
            reveal(Encoding::step);
        }
        let mut p: u32 = self.predictor.p() as u32;
        if p < 2048 {
            p += 1;
        }
        self.iv.split(bit == 1, p);
        self.predictor.update(bit);
        let ghost written = self.archive@;
        self.iv.drain(&mut self.archive);
        proof {
            let emitted = old(self).iv.narrow(bit == 1, p as int).emitted();
            assert((written + emitted).skip(HEADER as int) =~= written.skip(HEADER as int)
                + emitted);
        }
    }

    /// Codes the eight bits of `byte`, most significant first.
    pub fn encode_byte(&mut self, byte: u8)
        requires
            old(self).wf(),
        ensures
            final(self).wf(),
            final(self)@ == old(self)@.byte(byte),
    {
        self.encode_bit((byte / 128 % 2) as i32);
        self.encode_bit((byte / 64 % 2) as i32);
        self.encode_bit((byte / 32 % 2) as i32);
        self.encode_bit((byte / 16 % 2) as i32);
        self.encode_bit((byte / 8 % 2) as i32);
        self.encode_bit((byte / 4 % 2) as i32);
        self.encode_bit((byte / 2 % 2) as i32);
        self.encode_bit((byte % 2) as i32);
    }

    /// Codes the bytes of `input` from `start` up to `end`.
    pub fn encode_block(&mut self, input: &[u8], start: usize, end: usize)
        requires
            old(self).wf(),
            start <= end <= input@.len(),
        ensures
            final(self).wf(),
            final(self)@ == old(self)@.run(data_bits(input@.subrange(start as int, end as int))),
    {
        let mut i: usize = start;
        proof {
            assert(input@.subrange(start as int, start as int) =~= Seq::<u8>::empty());
        }
        while i < end
            invariant
                start <= i <= end <= input@.len(),
                self.wf(),
                self@ == old(self)@.run(data_bits(input@.subrange(start as int, i as int))),
            decreases end - i,
        {
            let ghost before = self@;
            let byte: u8 = input[i];
            self.encode_byte(byte);
            proof {
                let done = input@.subrange(start as int, i as int);
                let more = input@.subrange(start as int, i + 1);
                assert(more =~= done.push(byte));
                lemma_data_bits_push(done, byte);
                before.lemma_run_byte(byte);
                old(self)@.lemma_run_concat(data_bits(done), byte_bits(byte));
                assert(data_bits(more) == data_bits(done) + byte_bits(byte));
            }
            i += 1;
        }
    }

    /// Ends the coded bits.
    pub fn flush(&mut self)
        requires
            old(self).wf(),
        ensures
            final(self).archive_len() >= HEADER,
            final(self).payload() == old(self)@.finish(Seq::empty()),
    {
        let ghost written = self.archive@;
        self.iv.flush(&mut self.archive);
        proof {
            let tail = old(self).iv.flushed();
            assert((written + tail).skip(HEADER as int) =~= written.skip(HEADER as int) + tail);
        }
    }

    /// Number of bytes written, header included.
    pub closed spec fn archive_len(&self) -> int {
        self.archive@.len() as int
    }

    /// The bytes written behind the header.
    pub closed spec fn payload(&self) -> Seq<u8> {
        self.archive@.skip(HEADER as int)
    }

    /// Writes the header and hands over the finished stream.
    pub fn write_block_data(self, data: BlockData) -> (out: Vec<u8>)
        requires
            self.archive_len() >= HEADER,
        ensures
            out@ == data.header() + self.payload(),
    {
        let mut header: Vec<u8> = Vec::new();
        put_u64(&mut header, data.final_size);
        put_u64(&mut header, data.base_size);
        put_u64(&mut header, data.count);
        let mut archive = self.archive;
        let mut i: usize = 0;
        while i < HEADER
            invariant
                i <= HEADER,
                header@ == data.header(),
                header@.len() == HEADER,
                archive@.len() == self.archive@.len() >= HEADER,
                forall|k: int| 0 <= k < i ==> archive@[k] == header@[k],
                forall|k: int| HEADER <= k < archive@.len() ==> archive@[k] == self.archive@[k],
            decreases HEADER - i,
        {
            archive[i] = header[i];
            i += 1;
        }
        assert(archive@ =~= data.header() + self.payload());
        archive
    }
}

/// The bits of a sequence with one more byte.
pub proof fn lemma_data_bits_push(data: Seq<u8>, byte: u8)
    ensures
        data_bits(data.push(byte)) =~= data_bits(data) + byte_bits(byte),
    decreases data.len(),
{
    let more = data.push(byte);
    if data.len() == 0 {
        assert(more.skip(1) =~= Seq::<u8>::empty());
        assert(data_bits(more.skip(1)) =~= Seq::<bool>::empty());
    } else {
        assert(more.skip(1) =~= data.skip(1).push(byte));
        lemma_data_bits_push(data.skip(1), byte);
    }
}

/// An LPAQ1 decoder reading from memory.
pub struct Decoder {
    predictor: Predictor,
    archive: ArithDecoder,
}

impl View for Decoder {
    type V = Decoding<PredictorModel>;

    closed spec fn view(&self) -> Decoding<PredictorModel> {
        Decoding { model: self.predictor@, d: self.archive@ }
    }
}

impl Decoder {
    /// The predictor is well-formed and the decoder is ready to decode a
    /// bit of `body`.
    pub closed spec fn wf(&self, body: Seq<u8>) -> bool {
        self.predictor.wf() && self@.ready(body)
    }

    /// Opens the coded bits `body`; `None` if there is no byte at all.
    pub fn new(body: &[u8]) -> (r: Option<Decoder>)
        requires
            body@.len() + 3 <= usize::MAX,
        ensures
            r is Some <==> crate::coder::Decoder::start(body@) is Some,
            r is Some ==> r->0.wf(body@) && r->0@ == (Decoding {
                model: PredictorModel::initial(),
                d: crate::coder::Decoder::start(body@)->0,
            }),
    {
        match ArithDecoder::open(body) {
            Some(archive) => Some(Decoder { predictor: Predictor::new(), archive }),
            None => None,
        }
    }

    /// Decodes one bit; `None` if the stream ends first.
    pub fn decode_bit(&mut self, body: &[u8]) -> (r: Option<i32>)
        requires
            old(self).wf(body@),
            body@.len() + 3 <= usize::MAX,
        ensures
            r is Some <==> old(self)@.step(body@) is Some,
            r is Some ==> final(self).wf(body@),
            r is Some ==> final(self)@ == old(self)@.step(body@)->0,
            r is Some ==> r->0 == bit_value(old(self)@.bit()),
    {
        proof {
            reveal(Decoding::step);
            self@.lemma_step_progress(body@);
        }
        let mut p: u32 = self.predictor.p() as u32;
        if p < 2048 {
            p += 1;
        }
        match self.archive.decode(p, body) {
            Some(bit) => {
                let b: i32 = if bit { 1 } else { 0 };
                self.predictor.update(b);
                Some(b)
            },
            None => None,
        }
    }

    /// Decodes eight bits into a byte; `None` if the stream ends first.
    pub fn decode_byte(&mut self, body: &[u8]) -> (r: Option<u8>)
        requires
            old(self).wf(body@),
            body@.len() + 3 <= usize::MAX,
        ensures
            r is Some <==> old(self)@.steps(body@, 8) is Some,
            r is Some ==> final(self).wf(body@),
            r is Some ==> final(self)@ == old(self)@.steps(body@, 8)->0,
            r is Some ==> r->0 == byte_of(old(self)@.bits(body@, 8)),
    {
        proof {
            self@.lemma_eight_steps(body@);
        }
        let b0: i32 = match self.decode_bit(body) {
            Some(b) => b,
            None => {
                return None;
            },
        };
        let b1: i32 = match self.decode_bit(body) {
            Some(b) => b,
            None => {
                return None;
            },
        };
        let b2: i32 = match self.decode_bit(body) {
            Some(b) => b,
            None => {
                return None;
            },
        };
        let b3: i32 = match self.decode_bit(body) {
            Some(b) => b,
            None => {
                return None;
            },
        };
        let b4: i32 = match self.decode_bit(body) {
            Some(b) => b,
            None => {
                return None;
            },
        };
        let b5: i32 = match self.decode_bit(body) {
            Some(b) => b,
            None => {
                return None;
            },
        };
        let b6: i32 = match self.decode_bit(body) {
            Some(b) => b,
            None => {
                return None;
            },
        };
        let b7: i32 = match self.decode_bit(body) {
            Some(b) => b,
            None => {
                return None;
            },
        };
        Some((b0 * 128 + b1 * 64 + b2 * 32 + b3 * 16 + b4 * 8 + b5 * 4 + b6 * 2 + b7) as u8)
    }

    /// Decodes `block_size` bytes onto the end of `out`; `false`, with
    /// `out` left anywhere, if the stream ends first.
    pub fn decode_block(&mut self, body: &[u8], block_size: u64, out: &mut Vec<u8>) -> (ok: bool)
        requires
            old(self).wf(body@),
            body@.len() + 3 <= usize::MAX,
        ensures
            ok ==> final(self).wf(body@),
            forall|more: nat|
                #![trigger decode_bytes(old(self)@, body@, block_size as nat + more)]
                prefixed(old(out)@, decode_bytes(old(self)@, body@, block_size as nat + more))
                    == if ok {
                    prefixed(final(out)@, decode_bytes(final(self)@, body@, more))
                } else {
                    None
                },
    {
        let mut left: u64 = block_size;
        while left > 0
            invariant
                left <= block_size,
                self.wf(body@),
                body@.len() + 3 <= usize::MAX,
                forall|more: nat|
                    #![trigger decode_bytes(old(self)@, body@, block_size as nat + more)]
                    prefixed(old(out)@, decode_bytes(old(self)@, body@, block_size as nat + more))
                        == prefixed(out@, decode_bytes(self@, body@, left as nat + more)),
            decreases left,
        {
            let ghost before = self@;
            let ghost written = out@;
            match self.decode_byte(body) {
                Some(byte) => {
                    out.push(byte);
                    proof {
                        assert forall|more: nat|
                            #![trigger decode_bytes(old(self)@, body@, block_size as nat + more)]
                            prefixed(
                                old(out)@,
                                decode_bytes(old(self)@, body@, block_size as nat + more),
                            ) == prefixed(
                                out@,
                                decode_bytes(self@, body@, (left - 1) as nat + more),
                            ) by {
                            let n = left as nat + more;
                            let tail = decode_bytes(self@, body@, (n - 1) as nat);
                            assert(decode_bytes(before, body@, n) == prefixed(seq![byte], tail));
                            if tail is Some {
                                assert(written + (seq![byte] + tail->0) =~= out@ + tail->0);
                            }
                        }
                    }
                },
                None => {
                    proof {
                        assert forall|more: nat|
                            #![trigger decode_bytes(old(self)@, body@, block_size as nat + more)]
                            prefixed(
                                old(out)@,
                                decode_bytes(old(self)@, body@, block_size as nat + more),
                            ) is None by {
                            let n = left as nat + more;
                            assert(decode_bytes(before, body@, n) is None);
                        }
                    }
                    return false;
                },
            }
            left -= 1;
        }
        true
    }

    /// Reads the header at the start of `input`.
    pub fn read_block_data(input: &[u8]) -> (data: BlockData)
        requires
            input@.len() >= HEADER,
        ensures
            data == BlockData::parsed(input@),
    {
        BlockData::from(get_u64(input, 0), get_u64(input, 8), get_u64(input, 16))
    }
}

/// Compresses `input` with LPAQ1, reading it in blocks of `block_size`
/// bytes.
pub fn lpaq1_compress(input: &[u8], block_size: usize) -> (out: Vec<u8>)
    ensures
        out@ == compressed(input@, block_size as u64),
{
    let mut data = BlockData::new(block_size as u64);
    let mut enc = Encoder::new();
    let mut start: usize = 0;
    let ghost first = Encoding::start(PredictorModel::initial());
    proof {
        assert(input@.subrange(0, 0) =~= Seq::<u8>::empty());
    }
    while block_size > 0 && start < input.len()
        invariant
            start <= input@.len(),
            enc.wf(),
            data.base_size == block_size,
            data.count <= start,
            block_size == 0 ==> start == 0,
            data.with_bytes(input@.len() - start) == BlockData::empty(block_size as u64).with_bytes(
                input@.len() as int,
            ),
            first == Encoding::start(PredictorModel::initial()),
            enc@ == first.run(data_bits(input@.subrange(0, start as int))),
        decreases input@.len() - start,
    {
        let size: usize = if input.len() - start < block_size {
            input.len() - start
        } else {
            block_size
        };
        let ghost done = input@.subrange(0, start as int);
        data.update(size as u64);
        enc.encode_block(input, start, start + size);
        proof {
            let block = input@.subrange(start as int, start + size);
            let more = input@.subrange(0, start + size);
            assert(more =~= done + block);
            lemma_data_bits_concat(done, block);
            first.lemma_run_concat(data_bits(done), data_bits(block));
            assert(data_bits(more) == data_bits(done) + data_bits(block));
        }
        start += size;
    }
    proof {
        let empty = Seq::<bool>::empty();
        let coded = input@.subrange(0, start as int);
        if block_size > 0 {
            assert(coded =~= input@);
        } else {
            assert(coded =~= Seq::<u8>::empty());
        }
        first.lemma_run_finish(data_bits(coded), empty);
        assert(data_bits(coded) + empty =~= data_bits(coded));
        assert(first.finish(data_bits(coded)) =~= payload(coded));
    }
    enc.flush();
    enc.write_block_data(data)
}

/// The bits of two sequences joined.
pub proof fn lemma_data_bits_concat(a: Seq<u8>, b: Seq<u8>)
    ensures
        data_bits(a + b) =~= data_bits(a) + data_bits(b),
    decreases b.len(),
{
    if b.len() == 0 {
        assert(a + b =~= a);
    } else {
        let front = b.drop_last();
        assert(a + b =~= (a + front).push(b.last()));
        assert(b =~= front.push(b.last()));
        lemma_data_bits_push(a + front, b.last());
        lemma_data_bits_push(front, b.last());
        lemma_data_bits_concat(a, front);
    }
}

/// Decompresses the LPAQ1 stream `input`; fails if the stream is shorter
/// than a header and one byte, or ends before the bytes that its header
/// declares are decoded.
pub fn lpaq1_decompress(input: &[u8]) -> (r: Result<Vec<u8>, DecodeError>)
    requires
        input@.len() + 3 <= usize::MAX,
    ensures
        match decompressed(input@) {
            Some(data) => r is Ok && r->Ok_0@ == data,
            None => r == Err::<Vec<u8>, DecodeError>(DecodeError::UnexpectedEof),
        },
{
    if input.len() < HEADER {
        return Err(DecodeError::UnexpectedEof);
    }
    let data = Decoder::read_block_data(input);
    let body = slice_subrange(input, HEADER, input.len());
    assert(body@ =~= input@.skip(HEADER as int));
    let mut dec = match Decoder::new(body) {
        Some(dec) => dec,
        None => {
            return Err(DecodeError::UnexpectedEof);
        },
    };
    let mut out: Vec<u8> = Vec::new();
    let ghost first = dec@;
    let ghost mut remaining: int = data.declared();
    proof {
        let whole = decode_bytes(first, body@, remaining as nat);
        if whole is Some {
            assert(out@ + whole->0 =~= whole->0);
        }
    }
    let mut blocks: u64 = if data.count == 0 { 0 } else { data.count - 1 };
    assert(remaining == blocks * data.base_size + data.final_size);
    while blocks > 0
        invariant
            dec.wf(body@),
            body@.len() + 3 <= usize::MAX,
            remaining == blocks * data.base_size + data.final_size,
            prefixed(out@, decode_bytes(dec@, body@, remaining as nat)) == decompressed(input@),
        decreases blocks,
    {
        let ghost before = dec@;
        let ghost rest: nat = (remaining - data.base_size) as nat;
        assert(remaining - data.base_size == (blocks - 1) * data.base_size + data.final_size
            && (blocks - 1) * data.base_size >= 0) by (nonlinear_arith)
            requires
                remaining == blocks * data.base_size + data.final_size,
                blocks >= 1,
                data.base_size >= 0,
        ;
        assert(decode_bytes(before, body@, data.base_size as nat + rest) == decode_bytes(
            before,
            body@,
            remaining as nat,
        ));
        if !dec.decode_block(body, data.base_size, &mut out) {
            return Err(DecodeError::UnexpectedEof);
        }
        proof {
            remaining = remaining - data.base_size;
        }
        blocks -= 1;
    }
    let ghost before = dec@;
    assert(decode_bytes(before, body@, data.final_size as nat + 0) == decode_bytes(
        before,
        body@,
        remaining as nat,
    ));
    if !dec.decode_block(body, data.final_size, &mut out) {
        return Err(DecodeError::UnexpectedEof);
    }
    proof {
        assert(out@ + Seq::<u8>::empty() =~= out@);
    }
    Ok(out)
}

} // verus!
