//! FLZP: a byte-oriented coder that predicts, from a hash of the last
//! bytes, where the input has been seen before, and writes how many
//! bytes follow the prediction.
//!
//! The input is cut into blocks. A block starts with a 32-byte map, one
//! bit per byte value, lowest value in the lowest bit of the first byte:
//! a set bit marks a value that stands for itself. The values left over
//! are, in ascending order, the end of the block and the match lengths
//! 1, 2, 3, and so on.

use vstd::prelude::*;
use crate::bufio::ByteWriter;
use crate::bufio::BufferedWrite;
use crate::error::DecodeError;
use crate::error::prefixed_ok;
use crate::bits::bit_weight;
use crate::bits::two_to;

verus! {

/// Bytes in the rotating buffer.
pub const BUF_SIZE: usize = 0x40_0000;

/// Entries in the hash table.
pub const HT_SIZE: usize = 0x10_0000;

/// Most bytes in a block.
pub const MAX_BLOCK: usize = 0x1_0000;

/// Fewest match lengths a block keeps.
pub const MIN_LENGTHS: usize = 32;

/// Mathematical content of a [`Buffer`], but for its tables of symbols.
pub struct BufferModel {
    pub buf: Seq<u8>,
    /// For each context hash, where its context was last followed.
    pub ht: Seq<u32>,
    pub hash: int,
    /// Where the match in the making started.
    pub m_pos: int,
    /// How long it is so far.
    pub m_len: int,
    /// Where the next byte goes.
    pub p: int,
}

impl BufferModel {
    /// The tables have their sizes and every position is within the
    /// buffer.
    pub open spec fn wf(self) -> bool {
        &&& self.buf.len() == BUF_SIZE
        &&& self.ht.len() == HT_SIZE
        &&& 0 <= self.hash < HT_SIZE
        &&& 0 <= self.m_pos < BUF_SIZE
        &&& 0 <= self.m_len <= 255
        &&& 0 <= self.p < BUF_SIZE
        &&& forall|h: int| 0 <= h < HT_SIZE ==> #[trigger] self.ht[h] < BUF_SIZE
    }

    /// Nothing seen: a buffer of zeros, every context followed at its
    /// start.
    pub open spec fn fresh() -> Self {
        BufferModel {
            buf: Seq::new(BUF_SIZE as nat, |i: int| 0u8),
            ht: Seq::new(HT_SIZE as nat, |i: int| 0u32),
            hash: 0,
            m_pos: 0,
            m_len: 0,
            p: 0,
        }
    }

    /// Takes in `byte`: the hash table learns where the current context
    /// is followed, the hash and the buffer move on.
    pub open spec fn update(self, byte: u8) -> Self {
        BufferModel {
            ht: self.ht.update(self.hash, self.p as u32),
            hash: (self.hash * 96 + byte) % (HT_SIZE as int),
            buf: self.buf.update(self.p, byte),
            p: (self.p + 1) % (BUF_SIZE as int),
            ..self
        }
    }

    /// The symbol for the match in the making, if there is one: the last
    /// byte itself for a match of one byte, else the symbol of its
    /// length.
    pub open spec fn match_symbol(self, enc: Seq<u8>) -> Seq<u8> {
        if self.m_len == 0 {
            Seq::empty()
        } else if self.m_len == 1 {
            seq![self.buf[(self.p + BUF_SIZE - 1) % (BUF_SIZE as int)]]
        } else {
            seq![enc[self.m_len]]
        }
    }

    /// Whether `byte` goes on with the match in the making, or starts
    /// one where there is none.
    pub open spec fn extends(self, byte: u8, max_len: int) -> bool {
        let start = if self.m_len == 0 { self.ht[self.hash] as int } else { self.m_pos };
        self.m_len < max_len && self.buf[(start + self.m_len) % (BUF_SIZE as int)] == byte
    }

    /// What is written when `byte` is taken in: nothing while a match
    /// goes on; else the symbol of the match that ends, and the byte
    /// itself unless it starts a new match.
    pub open spec fn written(self, byte: u8, max_len: int, enc: Seq<u8>) -> Seq<u8> {
        if self.extends(byte, max_len) {
            Seq::empty()
        } else if self.buf[self.ht[self.hash] as int] == byte {
            self.match_symbol(enc)
        } else {
            self.match_symbol(enc).push(byte)
        }
    }

    /// The state after `byte` has been taken in.
    pub open spec fn compress(self, byte: u8, max_len: int) -> Self {
        let start = if self.m_len == 0 { self.ht[self.hash] as int } else { self.m_pos };
        if self.extends(byte, max_len) {
            BufferModel { m_pos: start, m_len: self.m_len + 1, ..self }.update(byte)
        } else if self.buf[self.ht[self.hash] as int] == byte {
            BufferModel { m_pos: self.ht[self.hash] as int, m_len: 1, ..self }.update(byte)
        } else {
            BufferModel { m_pos: self.ht[self.hash] as int, m_len: 0, ..self }.update(byte)
        }
    }
}

/// Whether the map `dec` marks `value` as standing for itself.
pub open spec fn marked(dec: Seq<u8>, value: int) -> bool {
    (dec[value / 8] as int / two_to(value % 8)) % 2 == 1
}

/// The map with `value` marked.
pub open spec fn mark(dec: Seq<u8>, value: int) -> Seq<u8> {
    if marked(dec, value) {
        dec
    } else {
        dec.update(value / 8, (dec[value / 8] + two_to(value % 8)) as u8)
    }
}

/// How many bytes from `pos` on make the next block, given that `size`
/// are in it already with `max_len` byte values to spare: the block
/// grows until the input ends, or it is full, or only the fewest match
/// lengths are left.
pub open spec fn block_size(data: Seq<u8>, pos: int, dec: Seq<u8>, max_len: int, size: int) -> int
    decreases data.len() - pos - size,
{
    if max_len > MIN_LENGTHS && size < MAX_BLOCK && pos + size < data.len() {
        let byte = data[pos + size] as int;
        block_size(
            data,
            pos,
            mark(dec, byte),
            if marked(dec, byte) {
                max_len
            } else {
                max_len - 1
            },
            size + 1,
        )
    } else {
        size
    }
}

/// The map of the block that `block_size` measures.
pub open spec fn block_map(data: Seq<u8>, pos: int, dec: Seq<u8>, max_len: int, size: int) -> Seq<
    u8,
>
    decreases data.len() - pos - size,
{
    if max_len > MIN_LENGTHS && size < MAX_BLOCK && pos + size < data.len() {
        let byte = data[pos + size] as int;
        block_map(
            data,
            pos,
            mark(dec, byte),
            if marked(dec, byte) {
                max_len
            } else {
                max_len - 1
            },
            size + 1,
        )
    } else {
        dec
    }
}

/// A block ends within the data.
pub proof fn lemma_block_size_bounds(data: Seq<u8>, pos: int, dec: Seq<u8>, max_len: int, size: int)
    requires
        0 <= size,
        pos + size <= data.len(),
    ensures
        size <= block_size(data, pos, dec, max_len, size) <= MAX_BLOCK || size > MAX_BLOCK,
        pos + block_size(data, pos, dec, max_len, size) <= data.len(),
    decreases data.len() - pos - size,
{
    if max_len > MIN_LENGTHS && size < MAX_BLOCK && pos + size < data.len() {
        let byte = data[pos + size] as int;
        lemma_block_size_bounds(
            data,
            pos,
            mark(dec, byte),
            if marked(dec, byte) {
                max_len
            } else {
                max_len - 1
            },
            size + 1,
        );
    }
}

/// The symbols for the end of the block and the match lengths: the
/// unmarked values among the first `n`, in ascending order, behind those
/// already in `enc`.
pub open spec fn symbols(dec: Seq<u8>, n: int) -> Seq<u8>
    decreases n,
{
    if n <= 0 {
        Seq::empty()
    } else if marked(dec, n - 1) {
        symbols(dec, n - 1)
    } else {
        symbols(dec, n - 1).push((n - 1) as u8)
    }
}

/// What is written for the bytes of the block from `i` on.
pub open spec fn block_body(
    m: BufferModel,
    data: Seq<u8>,
    pos: int,
    size: int,
    i: int,
    enc: Seq<u8>,
) -> Seq<u8>
    decreases size - i,
{
    if i >= size {
        m.match_symbol(enc).push(enc[0])
    } else {
        let max_len = enc.len() - 1;
        m.written(data[pos + i], max_len, enc) + block_body(
            m.compress(data[pos + i], max_len),
            data,
            pos,
            size,
            i + 1,
            enc,
        )
    }
}

/// The state after the block.
pub open spec fn after_block(
    m: BufferModel,
    data: Seq<u8>,
    pos: int,
    size: int,
    i: int,
    enc: Seq<u8>,
) -> BufferModel
    decreases size - i,
{
    if i >= size {
        BufferModel { m_len: 0, ..m }
    } else {
        after_block(m.compress(data[pos + i], enc.len() - 1), data, pos, size, i + 1, enc)
    }
}

/// An empty map.
pub open spec fn no_marks() -> Seq<u8> {
    Seq::new(32, |i: int| 0u8)
}

/// The FLZP stream for `data` from `pos` on.
pub open spec fn compressed_from(m: BufferModel, data: Seq<u8>, pos: int) -> Seq<u8>
    decreases data.len() - pos,
{
    let size = block_size(data, pos, no_marks(), 255, 0);
    if size < 1 || pos < 0 || pos > data.len() {
        Seq::empty()
    } else {
        proof {
            lemma_block_size_bounds(data, pos, no_marks(), 255, 0);
        }
        let dec = block_map(data, pos, no_marks(), 255, 0);
        let enc = symbols(dec, 256);
        dec + block_body(m, data, pos, size, 0, enc) + compressed_from(
            after_block(m, data, pos, size, 0, enc),
            data,
            pos + size,
        )
    }
}

/// The FLZP stream for `data`.
pub open spec fn compressed(data: Seq<u8>) -> Seq<u8> {
    compressed_from(BufferModel::fresh(), data, 0)
}

/// The coder's memory: the bytes seen, where each context was last
/// followed, and the match in the making.
pub struct Buffer {
    buf: Vec<u8>,
    ht: Vec<u32>,
    enc: Vec<u8>,
    hash: usize,
    m_pos: usize,
    m_len: usize,
    max_len: usize,
    p: usize,
}

impl View for Buffer {
    type V = BufferModel;

    closed spec fn view(&self) -> BufferModel {
        BufferModel {
            buf: self.buf@,
            ht: self.ht@,
            hash: self.hash as int,
            m_pos: self.m_pos as int,
            m_len: self.m_len as int,
            p: self.p as int,
        }
    }
}

impl Buffer {
    /// The symbols of the current block.
    pub closed spec fn symbols(&self) -> Seq<u8> {
        self.enc@
    }

    /// Longest match of the current block.
    pub closed spec fn longest(&self) -> int {
        self.max_len as int
    }

    /// The content is well-formed and the match in the making is no
    /// longer than a match may be.
    pub closed spec fn wf(&self) -> bool {
        &&& self@.wf()
        &&& self.m_len <= self.max_len
        &&& self.max_len <= 255
    }

    /// Well-formed, with a symbol for the end of the block and for every
    /// match length.
    pub open spec fn ready(&self) -> bool {
        self.wf() && self.symbols().len() == self.longest() + 1 && self.longest() >= 1
    }

    /// A memory that has seen nothing.
    pub fn new() -> (b: Buffer)
        ensures
            b.wf(),
            b@ == BufferModel::fresh(),
    {
        let b = Buffer {
            buf: vec![0u8; BUF_SIZE],
            ht: vec![0u32; HT_SIZE],
            enc: Vec::new(),
            hash: 0,
            m_pos: 0,
            m_len: 0,
            max_len: 0,
            p: 0,
        };
        assert(b@.buf =~= BufferModel::fresh().buf);
        assert(b@.ht =~= BufferModel::fresh().ht);
        b
    }

    /// Takes in `byte`.
    pub fn update(&mut self, byte: u8)
        requires
            old(self).wf(),
        ensures
            final(self).wf(),
            final(self)@ == old(self)@.update(byte),
            final(self).symbols() == old(self).symbols(),
            final(self).longest() == old(self).longest(),
    {
        self.ht[self.hash] = self.p as u32;
        self.hash = (self.hash * 96 + (byte as usize)) % HT_SIZE;
        self.buf[self.p] = byte;
        self.p = (self.p + 1) % BUF_SIZE;
    }

    /// Writes the symbol of the match in the making, if there is one, and
    /// ends the match.
    pub fn output_match(&mut self, file_out: &mut ByteWriter)
        requires
            old(self).ready(),
        ensures
            final(self).ready(),
            final(self)@ == (BufferModel { m_len: 0, ..old(self)@ }),
            final(self).symbols() == old(self).symbols(),
            final(self).longest() == old(self).longest(),
            final(file_out).written() =~= old(file_out).written() + old(self)@.match_symbol(
                old(self).symbols(),
            ),
    {
        if self.m_len > 0 {
            if self.m_len == 1 {
                file_out.write_byte(self.buf[(self.p + BUF_SIZE - 1) % BUF_SIZE]);
            } else {
                file_out.write_byte(self.enc[self.m_len]);
            }
            self.m_len = 0;
        }
    }

    /// Takes in `byte`, writing what has to be written first.
    pub fn compress(&mut self, byte: u8, file_out: &mut ByteWriter)
        requires
            old(self).ready(),
        ensures
            final(self).ready(),
            final(self)@ == old(self)@.compress(byte, old(self).longest()),
            final(self).symbols() == old(self).symbols(),
            final(self).longest() == old(self).longest(),
            final(file_out).written() =~= old(file_out).written() + old(self)@.written(
                byte,
                old(self).longest(),
                old(self).symbols(),
            ),
    {
        if self.m_len == 0 {
            self.m_pos = self.ht[self.hash] as usize;
        }
        let next: usize = (self.m_pos + self.m_len) % BUF_SIZE;
        if self.m_len < self.max_len && self.buf[next] == byte {
            self.m_len += 1;
        } else {
            self.output_match(file_out);
            self.m_pos = self.ht[self.hash] as usize;
            if self.buf[self.m_pos] == byte {
                self.m_len = 1;
            } else {
                file_out.write_byte(byte);
            }
        }
        self.update(byte);
    }

    /// Sets the symbols of the next block.
    fn set_symbols(&mut self, enc: Vec<u8>)
        requires
            old(self).wf(),
            old(self)@.m_len == 0,
            2 <= enc@.len() <= 256,
        ensures
            final(self).ready(),
            final(self)@ == old(self)@,
            final(self).symbols() == enc@,
            final(self).longest() == enc@.len() - 1,
    {
        self.max_len = enc.len() - 1;
        self.enc = enc;
    }
}

/// Whether `dec` marks `value`.
fn is_marked(dec: &Vec<u8>, value: u8) -> (r: bool)
    requires
        dec@.len() == 32,
    ensures
        r == marked(dec@, value as int),
{
    (dec[(value / 8) as usize] / bit_weight(value % 8)) % 2 == 1
}

/// Setting a bit that is clear adds its weight.
pub proof fn lemma_mark_fits(byte: u8, k: int)
    requires
        0 <= k <= 7,
        (byte as int / two_to(k)) % 2 != 1,
    ensures
        byte + two_to(k) <= 255,
{
    let b = byte;
    if k == 0 {
        assert((b / 1) % 2 != 1 ==> b + 1 <= 255) by (bit_vector);
    } else if k == 1 {
        assert((b / 2) % 2 != 1 ==> b + 2 <= 255) by (bit_vector);
    } else if k == 2 {
        assert((b / 4) % 2 != 1 ==> b + 4 <= 255) by (bit_vector);
    } else if k == 3 {
        assert((b / 8) % 2 != 1 ==> b + 8 <= 255) by (bit_vector);
    } else if k == 4 {
        assert((b / 16) % 2 != 1 ==> b + 16 <= 255) by (bit_vector);
    } else if k == 5 {
        assert((b / 32) % 2 != 1 ==> b + 32 <= 255) by (bit_vector);
    } else if k == 6 {
        assert((b / 64) % 2 != 1 ==> b + 64 <= 255) by (bit_vector);
    } else {
        assert((b / 128) % 2 != 1 ==> b + 128 <= 255) by (bit_vector);
    }
}

/// There are at most `n` symbols among the first `n` values.
pub proof fn lemma_symbols_len(dec: Seq<u8>, n: int)
    requires
        0 <= n,
    ensures
        symbols(dec, n).len() <= n,
    decreases n,
{
    if n > 0 {
        lemma_symbols_len(dec, n - 1);
    }
}

/// The symbols of the map `dec`.
fn symbol_table(dec: &Vec<u8>) -> (enc: Vec<u8>)
    requires
        dec@.len() == 32,
    ensures
        enc@ == symbols(dec@, 256),
        enc@.len() <= 256,
{
    let mut enc: Vec<u8> = Vec::new();
    let mut i: usize = 0;
    while i < 256
        invariant
            i <= 256,
            dec@.len() == 32,
            enc@ == symbols(dec@, i as int),
        decreases 256 - i,
    {
        if !is_marked(dec, i as u8) {
            enc.push(i as u8);
        }
        i += 1;
    }
    proof {
        lemma_symbols_len(dec@, 256);
    }
    enc
}

/// Compresses `input` with FLZP.
pub fn flzp_compress(input: &[u8]) -> (out: Vec<u8>)
    ensures
        out@ == compressed(input@),
{
    let mut buf = Buffer::new();
    let mut file_out = ByteWriter::new();
    let mut pos: usize = 0;
    let total: usize = input.len();
    proof {
        assert(file_out.written() + compressed(input@) =~= compressed(input@));
    }
    loop
        invariant
            pos <= input@.len() == total,
            buf.wf(),
            buf@.m_len == 0,
            compressed(input@) == file_out.written() + compressed_from(buf@, input@, pos as int),
        decreases input@.len() - pos,
    {
        // First pass: how far the block goes, and which values it holds.
        let mut dec: Vec<u8> = vec![0u8; 32];
        let mut block_len: usize = 0;
        let mut max_len: usize = 255;
        assert(dec@ =~= no_marks());
        while max_len > MIN_LENGTHS && block_len < MAX_BLOCK && block_len < input.len() - pos
            invariant
                pos <= input@.len(),
                block_len <= input@.len() - pos,
                block_len <= MAX_BLOCK,
                MIN_LENGTHS <= max_len <= 255,
                dec@.len() == 32,
                block_size(input@, pos as int, dec@, max_len as int, block_len as int)
                    == block_size(input@, pos as int, no_marks(), 255, 0),
                block_map(input@, pos as int, dec@, max_len as int, block_len as int) == block_map(
                    input@,
                    pos as int,
                    no_marks(),
                    255,
                    0,
                ),
            decreases input@.len() - pos - block_len,
        {
            let byte: u8 = input[pos + block_len];
            if !is_marked(&dec, byte) {
                max_len -= 1;
                let at: usize = (byte / 8) as usize;
                proof {
                    lemma_mark_fits(dec@[at as int], (byte % 8) as int);
                }
                dec[at] = dec[at] + bit_weight(byte % 8);
            }
            block_len += 1;
        }
        if block_len < 1 {
            proof {
                assert(file_out.written() + Seq::<u8>::empty() =~= file_out.written());
            }
            return file_out.into_bytes();
        }
        let enc = symbol_table(&dec);
        proof {
            lemma_symbols_unmarked(256);
            lemma_symbols_nonempty(input@, pos as int, no_marks(), 255, 0);
        }
        buf.set_symbols(enc);

        // Second pass: the map, then the block.
        let ghost written = file_out.written();
        let ghost before = buf@;
        let ghost table = buf.symbols();
        file_out.write_(dec.as_slice());
        let mut i: usize = 0;
        while i < block_len
            invariant
                i <= block_len,
                pos + block_len <= input@.len() == total,
                buf.ready(),
                buf.symbols() == table,
                file_out.written() + block_body(
                    buf@,
                    input@,
                    pos as int,
                    block_len as int,
                    i as int,
                    table,
                ) =~= written + dec@ + block_body(
                    before,
                    input@,
                    pos as int,
                    block_len as int,
                    0,
                    table,
                ),
                after_block(buf@, input@, pos as int, block_len as int, i as int, table)
                    == after_block(before, input@, pos as int, block_len as int, 0, table),
            decreases block_len - i,
        {
            let ghost out_before = file_out.written();
            let ghost m = buf@;
            buf.compress(input[pos + i], &mut file_out);
            proof {
                let step = m.written(input@[pos + i], table.len() - 1, table);
                let rest = block_body(
                    buf@,
                    input@,
                    pos as int,
                    block_len as int,
                    i + 1,
                    table,
                );
                assert(out_before + (step + rest) =~= file_out.written() + rest);
            }
            i += 1;
        }
        let ghost out_before = file_out.written();
        let ghost m = buf@;
        buf.output_match(&mut file_out);
        file_out.write_byte(buf.end_symbol());
        proof {
            assert(out_before + m.match_symbol(table).push(table[0]) =~= file_out.written());
            let tail = compressed_from(buf@, input@, pos + block_len);
            assert(written + (dec@ + block_body(
                before,
                input@,
                pos as int,
                block_len as int,
                0,
                table,
            ) + tail) =~= file_out.written() + tail);
        }
        pos += block_len;
    }
}

impl Buffer {
    /// The symbol that ends a block.
    fn end_symbol(&self) -> (b: u8)
        requires
            self.ready(),
        ensures
            b == self.symbols()[0],
    {
        self.enc[0]
    }
}

/// With nothing marked, every value is a symbol.
pub proof fn lemma_symbols_unmarked(n: int)
    requires
        0 <= n <= 256,
    ensures
        symbols(no_marks(), n).len() == n,
    decreases n,
{
    if n > 0 {
        lemma_symbols_unmarked(n - 1);
        assert(!marked(no_marks(), n - 1));
    }
}

/// A block of at least one byte leaves at least the fewest match lengths
/// and the end symbol unmarked.
pub proof fn lemma_symbols_nonempty(data: Seq<u8>, pos: int, dec: Seq<u8>, max_len: int, size: int)
    requires
        dec.len() == 32,
        0 <= size,
        pos + size <= data.len(),
        MIN_LENGTHS <= max_len <= 255,
        symbols(dec, 256).len() == max_len + 1,
    ensures
        symbols(block_map(data, pos, dec, max_len, size), 256).len() >= MIN_LENGTHS + 1,
        block_map(data, pos, dec, max_len, size).len() == 32,
    decreases data.len() - pos - size,
{
    if max_len > MIN_LENGTHS && size < MAX_BLOCK && pos + size < data.len() {
        let byte = data[pos + size] as int;
        if !marked(dec, byte) {
            lemma_mark_fits(dec[byte / 8], byte % 8);
            lemma_symbols_mark(dec, byte, 256);
        }
        lemma_symbols_nonempty(
            data,
            pos,
            mark(dec, byte),
            if marked(dec, byte) {
                max_len
            } else {
                max_len - 1
            },
            size + 1,
        );
    }
}

/// Marking a value takes one symbol away.
pub proof fn lemma_symbols_mark(dec: Seq<u8>, value: int, n: int)
    requires
        dec.len() == 32,
        0 <= value < 256,
        0 <= n <= 256,
        !marked(dec, value),
    ensures
        symbols(mark(dec, value), n).len() == symbols(dec, n).len() - if value < n {
            1int
        } else {
            0int
        },
    decreases n,
{
    if n > 0 {
        lemma_symbols_mark(dec, value, n - 1);
        lemma_mark_others(dec, value, n - 1);
    }
}

/// Marking a value marks it and leaves the other marks as they are.
pub proof fn lemma_mark_others(dec: Seq<u8>, value: int, other: int)
    requires
        dec.len() == 32,
        0 <= value < 256,
        0 <= other < 256,
        !marked(dec, value),
    ensures
        marked(mark(dec, value), other) == (marked(dec, other) || other == value),
{
    let k = value % 8;
    let j = other % 8;
    let b = dec[value / 8];
    lemma_mark_fits(b, k);
    if value / 8 == other / 8 {
        lemma_bit_after_add(b, k, j);
    }
}

/// Adding the weight of a clear bit sets that bit and no other.
pub proof fn lemma_bit_after_add(b: u8, k: int, j: int)
    requires
        0 <= k <= 7,
        0 <= j <= 7,
        (b as int / two_to(k)) % 2 != 1,
    ensures
        ((b + two_to(k)) / two_to(j)) % 2 == if j == k {
            1int
        } else {
            (b as int / two_to(j)) % 2
        },
{
    lemma_mark_fits(b, k);
    let w: u8 = two_to(k) as u8;
    let v: u8 = two_to(j) as u8;
    assert((w == 1 || w == 2 || w == 4 || w == 8 || w == 16 || w == 32 || w == 64 || w == 128)
        && (v == 1 || v == 2 || v == 4 || v == 8 || v == 16 || v == 32 || v == 64 || v == 128)
        && (b / w) % 2 != 1 && b <= 255 - w ==> ((((b + w) as u8) / v) % 2 == if v == w {
        1u8
    } else {
        (b / v) % 2
    })) by (bit_vector);
}

/// What an unmarked value stands for: 0 for the end of the block, else a
/// match length. It is the number of unmarked values below it.
pub open spec fn meaning(dec: Seq<u8>, value: int) -> int {
    symbols(dec, value).len() as int
}

/// The bytes of a match of `d` bytes that starts at `start`, from its
/// byte `i` on; each byte is taken in before the next is looked at, so
/// that a match may run into itself.
pub open spec fn match_bytes(m: BufferModel, start: int, i: int, d: int) -> Seq<u8>
    decreases d - i,
{
    if i >= d {
        Seq::empty()
    } else {
        let byte = m.buf[(start + i) % (BUF_SIZE as int)];
        seq![byte] + match_bytes(m.update(byte), start, i + 1, d)
    }
}

/// The state after that match.
pub open spec fn after_match(m: BufferModel, start: int, i: int, d: int) -> BufferModel
    decreases d - i,
{
    if i >= d {
        m
    } else {
        after_match(m.update(m.buf[(start + i) % (BUF_SIZE as int)]), start, i + 1, d)
    }
}

/// What the FLZP stream `input` stands for from `pos` on, inside the
/// block whose map is `dec`, or between blocks if there is none. A
/// stream ends between blocks; one that ends inside a block or inside a
/// map is cut short.
pub open spec fn decompressed_from(
    m: BufferModel,
    input: Seq<u8>,
    pos: int,
    dec: Option<Seq<u8>>,
) -> Result<Seq<u8>, DecodeError>
    decreases input.len() - pos,
{
    match dec {
        None => if pos >= input.len() {
            Ok(Seq::empty())
        } else if pos + 32 > input.len() || pos < 0 {
            Err(DecodeError::UnexpectedEof)
        } else {
            decompressed_from(m, input, pos + 32, Some(input.subrange(pos, pos + 32)))
        },
        Some(map) => if pos >= input.len() || pos < 0 {
            Err(DecodeError::UnexpectedEof)
        } else if marked(map, input[pos] as int) {
            prefixed_ok(
                seq![input[pos]],
                decompressed_from(m.update(input[pos]), input, pos + 1, dec),
            )
        } else if meaning(map, input[pos] as int) == 0 {
            decompressed_from(m, input, pos + 1, None)
        } else {
            let start = m.ht[m.hash] as int;
            let d = meaning(map, input[pos] as int);
            prefixed_ok(
                match_bytes(m, start, 0, d),
                decompressed_from(after_match(m, start, 0, d), input, pos + 1, dec),
            )
        },
    }
}

/// What the FLZP stream `input` stands for.
pub open spec fn decompressed(input: Seq<u8>) -> Result<Seq<u8>, DecodeError> {
    decompressed_from(BufferModel::fresh(), input, 0, None)
}

/// What every value stands for under the map `dec`: -1 for itself, 0 for
/// the end of the block, else a match length.
fn meanings(dec: &Vec<u8>) -> (table: Vec<i32>)
    requires
        dec@.len() == 32,
    ensures
        table@.len() == 256,
        forall|v: int|
            0 <= v < 256 ==> #[trigger] table@[v] == if marked(dec@, v) {
                -1
            } else {
                meaning(dec@, v)
            },
{
    let mut table: Vec<i32> = Vec::new();
    let mut rank: i32 = 0;
    let mut i: usize = 0;
    while i < 256
        invariant
            i <= 256,
            dec@.len() == 32,
            table@.len() == i,
            rank == symbols(dec@, i as int).len(),
            0 <= rank <= i,
            forall|v: int|
                0 <= v < i ==> #[trigger] table@[v] == if marked(dec@, v) {
                    -1
                } else {
                    meaning(dec@, v)
                },
        decreases 256 - i,
    {
        if is_marked(dec, i as u8) {
            table.push(-1);
        } else {
            table.push(rank);
            rank += 1;
        }
        i += 1;
    }
    table
}

/// Decompresses the FLZP stream `input`.
pub fn flzp_decompress(input: &[u8]) -> (r: Result<Vec<u8>, DecodeError>)
    ensures
        match decompressed(input@) {
            Ok(data) => r is Ok && r->Ok_0@ == data,
            Err(e) => r == Err::<Vec<u8>, DecodeError>(e),
        },
{
    let mut buf = Buffer::new();
    let mut out: Vec<u8> = Vec::new();
    let mut pos: usize = 0;
    let total: usize = input.len();
    let mut table: Vec<i32> = Vec::new();
    let mut in_block: bool = false;
    let ghost mut map: Option<Seq<u8>> = None;
    proof {
        let whole = decompressed(input@);
        if whole is Ok {
            assert(out@ + whole->Ok_0 =~= whole->Ok_0);
        }
    }
    loop
        invariant
            pos <= input@.len() == total,
            buf.wf(),
            in_block == (map is Some),
            in_block ==> map->0.len() == 32 && table@.len() == 256,
            in_block ==> forall|v: int|
                0 <= v < 256 ==> #[trigger] table@[v] == if marked(map->0, v) {
                    -1
                } else {
                    meaning(map->0, v)
                },
            decompressed(input@) == prefixed_ok(out@, decompressed_from(buf@, input@, pos as int, map)),
        decreases input@.len() - pos,
    {
        if !in_block {
            if pos >= total {
                proof {
                    assert(out@ + Seq::<u8>::empty() =~= out@);
                }
                return Ok(out);
            }
            if total - pos < 32 {
                return Err(DecodeError::UnexpectedEof);
            }
            let mut dec: Vec<u8> = Vec::new();
            let mut i: usize = 0;
            while i < 32
                invariant
                    i <= 32,
                    pos + 32 <= input@.len() == total,
                    dec@ =~= input@.subrange(pos as int, pos + i),
                decreases 32 - i,
            {
                dec.push(input[pos + i]);
                i += 1;
            }
            table = meanings(&dec);
            in_block = true;
            proof {
                map = Some(dec@);
            }
            pos += 32;
        } else {
            if pos >= total {
                return Err(DecodeError::UnexpectedEof);
            }
            let byte: u8 = input[pos];
            let d: i32 = table[byte as usize];
            let ghost written = out@;
            let ghost m = buf@;
            if d < 0 {
                buf.update(byte);
                out.push(byte);
                proof {
                    let rest = decompressed_from(buf@, input@, pos + 1, map);
                    if rest is Ok {
                        assert(written + (seq![byte] + rest->Ok_0) =~= out@ + rest->Ok_0);
                    }
                }
            } else if d == 0 {
                in_block = false;
                proof {
                    map = None;
                }
            } else {
                let start: usize = buf.predicted();
                let mut i: i32 = 0;
                proof {
                    lemma_symbols_len(map->0, byte as int);
                    assert(written + Seq::<u8>::empty() =~= written);
                }
                let ghost mut copied: Seq<u8> = Seq::empty();
                while i < d
                    invariant
                        0 <= i <= d <= 256,
                        start < BUF_SIZE,
                        buf.wf(),
                        out@ == written + copied,
                        copied + match_bytes(buf@, start as int, i as int, d as int) =~= match_bytes(
                            m,
                            start as int,
                            0,
                            d as int,
                        ),
                        after_match(buf@, start as int, i as int, d as int) == after_match(
                            m,
                            start as int,
                            0,
                            d as int,
                        ),
                    decreases d - i,
                {
                    let b: u8 = buf.byte_at((start + (i as usize)) % BUF_SIZE);
                    buf.update(b);
                    out.push(b);
                    proof {
                        let tail = match_bytes(buf@, start as int, i + 1, d as int);
                        assert(copied + (seq![b] + tail) =~= copied.push(b) + tail);
                        assert(out@ =~= written + copied.push(b));
                        copied = copied.push(b);
                    }
                    i += 1;
                }
                proof {
                    assert(copied + Seq::<u8>::empty() =~= copied);
                    let rest = decompressed_from(buf@, input@, pos + 1, map);
                    if rest is Ok {
                        assert(written + (copied + rest->Ok_0) =~= out@ + rest->Ok_0);
                    }
                }
            }
            pos += 1;
        }
    }
}

impl Buffer {
    /// Where the current context was last followed.
    fn predicted(&self) -> (start: usize)
        requires
            self.wf(),
        ensures
            start == self@.ht[self@.hash],
            start < BUF_SIZE,
    {
        self.ht[self.hash] as usize
    }

    /// The byte at `pos` in the buffer.
    fn byte_at(&self, pos: usize) -> (b: u8)
        requires
            self.wf(),
            pos < BUF_SIZE,
        ensures
            b == self@.buf[pos as int],
    {
        self.buf[pos]
    }
}

} // verus!
