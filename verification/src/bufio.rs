//! Byte streams held in memory: a reader that hands out its bytes one
//! value or one buffer at a time, and a writer that collects them.
//!
//! Multi-byte values are little-endian.

use vstd::prelude::*;

verus! {

/// Whether a refill found anything to read.
#[derive(Clone, Copy, PartialEq, Eq, Structural, Debug)]
pub enum BufferState {
    NotEmpty,
    Empty,
}

impl BufferState {
    /// An empty refill marks the end of the stream.
    pub fn is_eof(&self) -> (eof: bool)
        ensures
            eof == (*self == BufferState::Empty),
    {
        *self == BufferState::Empty
    }
}

/// A value did not fit the width it was to be written in.
#[derive(Clone, Copy, PartialEq, Eq, Structural, Debug)]
pub struct TooWide;

/// The two bytes of `v`, least significant first.
pub open spec fn u16_bytes(v: u16) -> Seq<u8> {
    seq![(v % 256) as u8, (v / 0x100) as u8]
}

/// The four bytes of `v`, least significant first.
pub open spec fn u32_bytes(v: u32) -> Seq<u8> {
    seq![
        (v % 256) as u8,
        (v / 0x100 % 256) as u8,
        (v / 0x1_0000 % 256) as u8,
        (v / 0x100_0000) as u8,
    ]
}

/// The eight bytes of `v`, least significant first.
pub open spec fn u64_bytes(v: u64) -> Seq<u8> {
    seq![
        (v % 256) as u8,
        (v / 0x100 % 256) as u8,
        (v / 0x1_0000 % 256) as u8,
        (v / 0x100_0000 % 256) as u8,
        (v / 0x1_0000_0000 % 256) as u8,
        (v / 0x100_0000_0000 % 256) as u8,
        (v / 0x1_0000_0000_0000 % 256) as u8,
        (v / 0x100_0000_0000_0000 % 256) as u8,
    ]
}

/// Byte `i` of `s`, zero beyond its end.
pub open spec fn padded(s: Seq<u8>, i: int) -> u8 {
    if 0 <= i < s.len() {
        s[i]
    } else {
        0
    }
}

/// The value whose two bytes, least significant first, start at `at`;
/// bytes beyond the end count as zero.
pub open spec fn u16_at(s: Seq<u8>, at: int) -> u16 {
    (padded(s, at) + padded(s, at + 1) * 0x100) as u16
}

/// The value whose four bytes, least significant first, start at `at`;
/// bytes beyond the end count as zero.
pub open spec fn u32_at(s: Seq<u8>, at: int) -> u32 {
    (padded(s, at) + padded(s, at + 1) * 0x100 + padded(s, at + 2) * 0x1_0000 + padded(s, at + 3)
        * 0x100_0000) as u32
}

/// The value whose eight bytes, least significant first, start at `at`;
/// bytes beyond the end count as zero.
pub open spec fn u64_at(s: Seq<u8>, at: int) -> u64 {
    (padded(s, at) + padded(s, at + 1) * 0x100 + padded(s, at + 2) * 0x1_0000 + padded(s, at + 3)
        * 0x100_0000 + padded(s, at + 4) * 0x1_0000_0000 + padded(s, at + 5) * 0x100_0000_0000
        + padded(s, at + 6) * 0x1_0000_0000_0000 + padded(s, at + 7) * 0x100_0000_0000_0000) as u64
}

/// Reading back the bytes of a value gives the value.
pub proof fn lemma_u16_bytes_value(v: u16)
    ensures
        u16_at(u16_bytes(v), 0) == v,
        u16_bytes(v).len() == 2,
{
}

/// Reading back the bytes of a value gives the value.
pub proof fn lemma_u32_bytes_value(v: u32)
    ensures
        u32_at(u32_bytes(v), 0) == v,
        u32_bytes(v).len() == 4,
{
    assert(v % 256 + (v / 0x100 % 256) * 0x100 + (v / 0x1_0000 % 256) * 0x1_0000 + (v
        / 0x100_0000) * 0x100_0000 == v) by (bit_vector);
}

/// Reading back the bytes of a value gives the value.
pub proof fn lemma_u64_bytes_value(v: u64)
    ensures
        u64_at(u64_bytes(v), 0) == v,
        u64_bytes(v).len() == 8,
{
    assert(v % 256 + (v / 0x100 % 256) * 0x100 + (v / 0x1_0000 % 256) * 0x1_0000 + (v
        / 0x100_0000 % 256) * 0x100_0000 + (v / 0x1_0000_0000 % 256) * 0x1_0000_0000 + (v
        / 0x100_0000_0000 % 256) * 0x100_0000_0000 + (v / 0x1_0000_0000_0000 % 256)
        * 0x1_0000_0000_0000 + (v / 0x100_0000_0000_0000 % 256) * 0x100_0000_0000_0000 == v)
        by (bit_vector);
}

/// Appends the eight bytes of `v` to `out`, least significant first.
pub fn put_u64(out: &mut Vec<u8>, v: u64)
    ensures
        final(out)@ == old(out)@ + u64_bytes(v),
{
    out.push((v % 256) as u8);
    out.push((v / 0x100 % 256) as u8);
    out.push((v / 0x1_0000 % 256) as u8);
    out.push((v / 0x100_0000 % 256) as u8);
    out.push((v / 0x1_0000_0000 % 256) as u8);
    out.push((v / 0x100_0000_0000 % 256) as u8);
    out.push((v / 0x1_0000_0000_0000 % 256) as u8);
    out.push((v / 0x100_0000_0000_0000 % 256) as u8);
    assert(out@ =~= old(out)@ + u64_bytes(v));
}

/// Appends `bytes` to `out`.
pub fn put_bytes(out: &mut Vec<u8>, bytes: &[u8])
    ensures
        final(out)@ =~= old(out)@ + bytes@,
{
    let mut i: usize = 0;
    while i < bytes.len()
        invariant
            i <= bytes@.len(),
            out@ =~= old(out)@ + bytes@.take(i as int),
        decreases bytes@.len() - i,
    {
        out.push(bytes[i]);
        i += 1;
    }
}

/// Byte `at` of `input`, zero beyond its end.
pub fn get_u8(input: &[u8], at: usize) -> (v: u8)
    ensures
        v == padded(input@, at as int),
{
    if at < input.len() {
        input[at]
    } else {
        0
    }
}

/// Reads up to two bytes at `at` as a value, least significant first.
pub fn get_u16(input: &[u8], at: usize) -> (v: u16)
    requires
        at + 2 <= usize::MAX,
    ensures
        v == u16_at(input@, at as int),
{
    (get_u8(input, at) as u16) + (get_u8(input, at + 1) as u16) * 0x100
}

/// Reads up to four bytes at `at` as a value, least significant first.
pub fn get_u32(input: &[u8], at: usize) -> (v: u32)
    requires
        at + 4 <= usize::MAX,
    ensures
        v == u32_at(input@, at as int),
{
    (get_u8(input, at) as u32) + (get_u8(input, at + 1) as u32) * 0x100 + (get_u8(input, at + 2)
        as u32) * 0x1_0000 + (get_u8(input, at + 3) as u32) * 0x100_0000
}

/// Reads up to eight bytes at `at` as a value, least significant first.
pub fn get_u64(input: &[u8], at: usize) -> (v: u64)
    requires
        at + 8 <= usize::MAX,
    ensures
        v == u64_at(input@, at as int),
{
    (get_u8(input, at) as u64) + (get_u8(input, at + 1) as u64) * 0x100 + (get_u8(input, at + 2)
        as u64) * 0x1_0000 + (get_u8(input, at + 3) as u64) * 0x100_0000 + (get_u8(input, at + 4)
        as u64) * 0x1_0000_0000 + (get_u8(input, at + 5) as u64) * 0x100_0000_0000 + (get_u8(
        input,
        at + 6,
    ) as u64) * 0x1_0000_0000_0000 + (get_u8(input, at + 7) as u64) * 0x100_0000_0000_0000
}

/// `s` without its first `n` bytes, or without any if it has fewer.
pub open spec fn dropped(s: Seq<u8>, n: int) -> Seq<u8> {
    if n <= s.len() {
        s.skip(n)
    } else {
        Seq::empty()
    }
}

/// Reading values off a stream through a buffer. A plain read past the
/// end of the stream takes the missing bytes as zero; a checked read
/// gives `None` instead and takes nothing.
pub trait BufferedRead {
    /// The bytes not yet taken.
    spec fn unread(&self) -> Seq<u8>;

    /// The bytes of the current buffer not yet taken: those the stream
    /// hands out next.
    spec fn buffered(&self) -> Seq<u8>;

    /// Size of a full buffer.
    spec fn buffer_size(&self) -> nat;

    /// Whether the reader is in a state in which it can be read from.
    spec fn readable(&self) -> bool;

    /// Takes the next `n` bytes.
    fn read_(&mut self, n: usize) -> (bytes: Vec<u8>)
        requires
            old(self).readable(),
        ensures
            final(self).readable(),
            bytes@.len() == n,
            forall|i: int| 0 <= i < n ==> bytes@[i] == padded(old(self).unread(), i),
            final(self).unread() =~= dropped(old(self).unread(), n as int),
            final(self).buffered() =~= dropped(old(self).buffered(), n as int),
            final(self).buffer_size() == old(self).buffer_size(),
    ;

    /// Takes the next `n` bytes if there are that many.
    fn read_checked(&mut self, n: usize) -> (bytes: Option<Vec<u8>>)
        requires
            old(self).readable(),
        ensures
            final(self).readable(),
            bytes is Some <==> n <= old(self).unread().len(),
            bytes is Some ==> bytes->0@ =~= old(self).unread().take(n as int),
            bytes is Some ==> final(self).unread() =~= dropped(old(self).unread(), n as int),
            bytes is Some ==> final(self).buffered() =~= dropped(old(self).buffered(), n as int),
            bytes is None ==> final(self).unread() == old(self).unread(),
            bytes is None ==> final(self).buffered() == old(self).buffered(),
            final(self).buffer_size() == old(self).buffer_size(),
    ;

    fn read_byte(&mut self) -> (v: u8)
        requires
            old(self).readable(),
        ensures
            final(self).readable(),
            v == padded(old(self).unread(), 0),
            final(self).unread() =~= dropped(old(self).unread(), 1),
            final(self).buffered() =~= dropped(old(self).buffered(), 1),
            final(self).buffer_size() == old(self).buffer_size(),
    ;

    fn read_u16(&mut self) -> (v: u16)
        requires
            old(self).readable(),
        ensures
            final(self).readable(),
            v == u16_at(old(self).unread(), 0),
            final(self).unread() =~= dropped(old(self).unread(), 2),
            final(self).buffered() =~= dropped(old(self).buffered(), 2),
            final(self).buffer_size() == old(self).buffer_size(),
    ;

    fn read_u32(&mut self) -> (v: u32)
        requires
            old(self).readable(),
        ensures
            final(self).readable(),
            v == u32_at(old(self).unread(), 0),
            final(self).unread() =~= dropped(old(self).unread(), 4),
            final(self).buffered() =~= dropped(old(self).buffered(), 4),
            final(self).buffer_size() == old(self).buffer_size(),
    ;

    fn read_u64(&mut self) -> (v: u64)
        requires
            old(self).readable(),
        ensures
            final(self).readable(),
            v == u64_at(old(self).unread(), 0),
            final(self).unread() =~= dropped(old(self).unread(), 8),
            final(self).buffered() =~= dropped(old(self).buffered(), 8),
            final(self).buffer_size() == old(self).buffer_size(),
    ;

    fn read_byte_checked(&mut self) -> (v: Option<u8>)
        requires
            old(self).readable(),
        ensures
            final(self).readable(),
            v is Some <==> old(self).unread().len() >= 1,
            v is Some ==> v->0 == old(self).unread()[0],
            v is Some ==> final(self).unread() =~= dropped(old(self).unread(), 1),
            v is Some ==> final(self).buffered() =~= dropped(old(self).buffered(), 1),
            v is None ==> final(self).unread() == old(self).unread(),
            v is None ==> final(self).buffered() == old(self).buffered(),
            final(self).buffer_size() == old(self).buffer_size(),
    ;

    fn read_u16_checked(&mut self) -> (v: Option<u16>)
        requires
            old(self).readable(),
        ensures
            final(self).readable(),
            v is Some <==> old(self).unread().len() >= 2,
            v is Some ==> v->0 == u16_at(old(self).unread(), 0),
            v is Some ==> final(self).unread() =~= dropped(old(self).unread(), 2),
            v is Some ==> final(self).buffered() =~= dropped(old(self).buffered(), 2),
            v is None ==> final(self).unread() == old(self).unread(),
            v is None ==> final(self).buffered() == old(self).buffered(),
            final(self).buffer_size() == old(self).buffer_size(),
    ;

    fn read_u32_checked(&mut self) -> (v: Option<u32>)
        requires
            old(self).readable(),
        ensures
            final(self).readable(),
            v is Some <==> old(self).unread().len() >= 4,
            v is Some ==> v->0 == u32_at(old(self).unread(), 0),
            v is Some ==> final(self).unread() =~= dropped(old(self).unread(), 4),
            v is Some ==> final(self).buffered() =~= dropped(old(self).buffered(), 4),
            v is None ==> final(self).unread() == old(self).unread(),
            v is None ==> final(self).buffered() == old(self).buffered(),
            final(self).buffer_size() == old(self).buffer_size(),
    ;

    fn read_u64_checked(&mut self) -> (v: Option<u64>)
        requires
            old(self).readable(),
        ensures
            final(self).readable(),
            v is Some <==> old(self).unread().len() >= 8,
            v is Some ==> v->0 == u64_at(old(self).unread(), 0),
            v is Some ==> final(self).unread() =~= dropped(old(self).unread(), 8),
            v is Some ==> final(self).buffered() =~= dropped(old(self).buffered(), 8),
            v is None ==> final(self).unread() == old(self).unread(),
            v is None ==> final(self).buffered() == old(self).buffered(),
            final(self).buffer_size() == old(self).buffer_size(),
    ;

    /// Drops what is left of the current buffer, fills the buffer with
    /// what follows, and says whether that was nothing.
    fn fill_buffer(&mut self) -> (state: BufferState)
        requires
            old(self).readable(),
        ensures
            final(self).readable(),
            final(self).unread() =~= old(self).unread().skip(old(self).buffered().len() as int),
            final(self).buffered() =~= final(self).unread().take(
                if final(self).unread().len() < final(self).buffer_size() {
                    final(self).unread().len() as int
                } else {
                    final(self).buffer_size() as int
                },
            ),
            final(self).buffer_size() == old(self).buffer_size(),
            state == BufferState::Empty <==> final(self).buffered().len() == 0,
    ;
}

/// A reader over bytes held in memory, handed out in buffers of a fixed
/// capacity.
pub struct ByteReader {
    data: Vec<u8>,
    /// Number of bytes taken.
    pos: usize,
    /// End of the current buffer.
    end: usize,
    capacity: usize,
}

impl ByteReader {
    /// The buffer lies within the data, behind what was taken.
    pub closed spec fn wf(&self) -> bool {
        self.pos <= self.end <= self.data@.len()
    }

    /// A reader at the start of `data`, with an empty buffer.
    pub fn new(data: Vec<u8>, capacity: usize) -> (r: Self)
        ensures
            r.readable(),
            r.unread() == data@,
            r.buffered().len() == 0,
            r.buffer_size() == capacity,
    {
        let r = ByteReader { data, pos: 0, end: 0, capacity };
        assert(r.unread() =~= data@);
        r
    }

    /// Size of a full buffer.
    pub fn capacity(&self) -> (c: usize)
        ensures
            c == self.buffer_size(),
    {
        self.capacity
    }

    /// The bytes of the current buffer that are not yet taken.
    pub fn buffer(&self) -> (b: &[u8])
        requires
            self.readable(),
        ensures
            b@ == self.buffered(),
    {
        vstd::slice::slice_subrange(self.data.as_slice(), self.pos, self.end)
    }

    /// Takes `n` bytes, or what is left if that is less.
    fn skip(&mut self, n: usize)
        requires
            old(self).wf(),
        ensures
            final(self).wf(),
            final(self).data == old(self).data,
            final(self).capacity == old(self).capacity,
            final(self).unread() =~= dropped(old(self).unread(), n as int),
            final(self).buffered() =~= dropped(old(self).buffered(), n as int),
    {
        let left: usize = self.data.len() - self.pos;
        if n <= left {
            self.pos = self.pos + n;
        } else {
            self.pos = self.data.len();
        }
        if self.end < self.pos {
            self.end = self.pos;
        }
    }
}

impl BufferedRead for ByteReader {
    closed spec fn unread(&self) -> Seq<u8> {
        self.data@.skip(self.pos as int)
    }

    closed spec fn buffered(&self) -> Seq<u8> {
        self.data@.subrange(self.pos as int, self.end as int)
    }

    closed spec fn buffer_size(&self) -> nat {
        self.capacity as nat
    }

    open spec fn readable(&self) -> bool {
        self.wf()
    }

    fn read_(&mut self, n: usize) -> (bytes: Vec<u8>) {
        let mut bytes: Vec<u8> = Vec::new();
        let mut i: usize = 0;
        while i < n
            invariant
                i <= n,
                self.wf(),
                *self == *old(self),
                bytes@.len() == i,
                forall|k: int| 0 <= k < i ==> bytes@[k] == padded(self.unread(), k),
            decreases n - i,
        {
            let left: usize = self.data.len() - self.pos;
            let b: u8 = if i < left { self.data[self.pos + i] } else { 0 };
            bytes.push(b);
            i += 1;
        }
        self.skip(n);
        bytes
    }

    fn read_checked(&mut self, n: usize) -> (bytes: Option<Vec<u8>>) {
        if n > self.data.len() - self.pos {
            return None;
        }
        Some(self.read_(n))
    }

    fn read_byte(&mut self) -> (v: u8) {
        let v: u8 = get_u8(self.data.as_slice(), self.pos);
        self.skip(1);
        v
    }

    fn read_u16(&mut self) -> (v: u16) {
        let bytes = self.read_(2);
        let v: u16 = get_u16(bytes.as_slice(), 0);
        v
    }

    fn read_u32(&mut self) -> (v: u32) {
        let bytes = self.read_(4);
        let v: u32 = get_u32(bytes.as_slice(), 0);
        v
    }

    fn read_u64(&mut self) -> (v: u64) {
        let bytes = self.read_(8);
        let v: u64 = get_u64(bytes.as_slice(), 0);
        v
    }

    fn read_byte_checked(&mut self) -> (v: Option<u8>) {
        if self.pos >= self.data.len() {
            return None;
        }
        Some(self.read_byte())
    }

    fn read_u16_checked(&mut self) -> (v: Option<u16>) {
        if self.data.len() - self.pos < 2 {
            return None;
        }
        Some(self.read_u16())
    }

    fn read_u32_checked(&mut self) -> (v: Option<u32>) {
        if self.data.len() - self.pos < 4 {
            return None;
        }
        Some(self.read_u32())
    }

    fn read_u64_checked(&mut self) -> (v: Option<u64>) {
        if self.data.len() - self.pos < 8 {
            return None;
        }
        Some(self.read_u64())
    }

    fn fill_buffer(&mut self) -> (state: BufferState) {
        self.pos = self.end;
        let left: usize = self.data.len() - self.pos;
        if left < self.capacity {
            self.end = self.data.len();
        } else {
            self.end = self.pos + self.capacity;
        }
        if self.pos == self.end {
            BufferState::Empty
        } else {
            BufferState::NotEmpty
        }
    }
}

/// Writing values to a stream.
pub trait BufferedWrite {
    /// All that has been written.
    spec fn written(&self) -> Seq<u8>;

    fn write_(&mut self, output: &[u8])
        ensures
            final(self).written() =~= old(self).written() + output@,
    ;

    fn write_byte(&mut self, output: u8)
        ensures
            final(self).written() =~= old(self).written().push(output),
    ;

    fn write_u16(&mut self, output: u16)
        ensures
            final(self).written() =~= old(self).written() + u16_bytes(output),
    ;

    fn write_u32(&mut self, output: u32)
        ensures
            final(self).written() =~= old(self).written() + u32_bytes(output),
    ;

    fn write_u64(&mut self, output: u64)
        ensures
            final(self).written() =~= old(self).written() + u64_bytes(output),
    ;

    /// Writes `output` as one byte if it fits in one; else writes nothing.
    fn write_byte_checked(&mut self, output: u64) -> (r: Result<(), TooWide>)
        ensures
            r is Ok <==> output <= u8::MAX,
            r is Ok ==> final(self).written() =~= old(self).written().push(output as u8),
            r is Err ==> final(self).written() == old(self).written(),
    ;

    /// Writes `output` as two bytes if it fits in two; else writes nothing.
    fn write_u16_checked(&mut self, output: u64) -> (r: Result<(), TooWide>)
        ensures
            r is Ok <==> output <= u16::MAX,
            r is Ok ==> final(self).written() =~= old(self).written() + u16_bytes(output as u16),
            r is Err ==> final(self).written() == old(self).written(),
    ;

    /// Writes `output` as four bytes if it fits in four; else writes
    /// nothing.
    fn write_u32_checked(&mut self, output: u64) -> (r: Result<(), TooWide>)
        ensures
            r is Ok <==> output <= u32::MAX,
            r is Ok ==> final(self).written() =~= old(self).written() + u32_bytes(output as u32),
            r is Err ==> final(self).written() == old(self).written(),
    ;

    /// Writes `output` as eight bytes.
    fn write_u64_checked(&mut self, output: u64) -> (r: Result<(), TooWide>)
        ensures
            r is Ok,
            final(self).written() =~= old(self).written() + u64_bytes(output),
    ;

    /// Writes the lowest byte of `output`.
    fn write_byte_forced(&mut self, output: u64)
        ensures
            final(self).written() =~= old(self).written().push((output % 0x100) as u8),
    ;

    /// Writes the two lowest bytes of `output`.
    fn write_u16_forced(&mut self, output: u64)
        ensures
            final(self).written() =~= old(self).written() + u16_bytes((output % 0x1_0000) as u16),
    ;

    /// Writes the four lowest bytes of `output`.
    fn write_u32_forced(&mut self, output: u64)
        ensures
            final(self).written() =~= old(self).written() + u32_bytes(
                (output % 0x1_0000_0000) as u32,
            ),
    ;

    /// Nothing is held back in memory: there is nothing to flush.
    fn flush_buffer(&mut self)
        ensures
            final(self).written() == old(self).written(),
    ;
}

/// A writer that keeps what it is given.
pub struct ByteWriter {
    out: Vec<u8>,
}

impl ByteWriter {
    /// A writer that has written nothing.
    pub fn new() -> (w: Self)
        ensures
            w.written() =~= Seq::<u8>::empty(),
    {
        ByteWriter { out: Vec::new() }
    }

    /// Hands over all that has been written.
    pub fn into_bytes(self) -> (out: Vec<u8>)
        ensures
            out@ == self.written(),
    {
        self.out
    }
}

impl BufferedWrite for ByteWriter {
    closed spec fn written(&self) -> Seq<u8> {
        self.out@
    }

    fn write_(&mut self, output: &[u8]) {
        let mut i: usize = 0;
        while i < output.len()
            invariant
                i <= output@.len(),
                self.out@ =~= old(self).out@ + output@.take(i as int),
            decreases output@.len() - i,
        {
            self.out.push(output[i]);
            i += 1;
        }
    }

    fn write_byte(&mut self, output: u8) {
        self.out.push(output);
    }

    fn write_u16(&mut self, output: u16) {
        self.out.push((output % 256) as u8);
        self.out.push((output / 0x100) as u8);
    }

    fn write_u32(&mut self, output: u32) {
        self.out.push((output % 256) as u8);
        self.out.push((output / 0x100 % 256) as u8);
        self.out.push((output / 0x1_0000 % 256) as u8);
        self.out.push((output / 0x100_0000) as u8);
    }

    fn write_u64(&mut self, output: u64) {
        put_u64(&mut self.out, output);
    }

    fn write_byte_checked(&mut self, output: u64) -> (r: Result<(), TooWide>) {
        if output > 0xFF {
            return Err(TooWide);
        }
        self.write_byte(output as u8);
        Ok(())
    }

    fn write_u16_checked(&mut self, output: u64) -> (r: Result<(), TooWide>) {
        if output > 0xFFFF {
            return Err(TooWide);
        }
        self.write_u16(output as u16);
        Ok(())
    }

    fn write_u32_checked(&mut self, output: u64) -> (r: Result<(), TooWide>) {
        if output > 0xFFFF_FFFF {
            return Err(TooWide);
        }
        self.write_u32(output as u32);
        Ok(())
    }

    fn write_u64_checked(&mut self, output: u64) -> (r: Result<(), TooWide>) {
        self.write_u64(output);
        Ok(())
    }

    fn write_byte_forced(&mut self, output: u64) {
        self.write_byte((output % 0x100) as u8);
    }

    fn write_u16_forced(&mut self, output: u64) {
        self.write_u16((output % 0x1_0000) as u16);
    }

    fn write_u32_forced(&mut self, output: u64) {
        self.write_u32((output % 0x1_0000_0000) as u32);
    }

    fn flush_buffer(&mut self) {
    }
}

} // verus!
