//! LZ77: repeats of what a sliding window holds are replaced by pointers
//! into the window.
//!
//! The output is a sequence of two-byte tokens. A token whose first byte
//! is zero carries a literal in its second byte. Any other token is a
//! big-endian pointer: the window offset in its upper eleven bits, the
//! length of the repeat in its lower five.

use vstd::prelude::*;
use crate::bufio::BufferState;
use crate::bufio::BufferedRead;
use crate::bufio::BufferedWrite;
use crate::bufio::ByteReader;
use crate::bufio::ByteWriter;
use crate::error::DecodeError;
use crate::error::prefixed;

verus! {

/// Bytes in the window.
pub const WINDOW_SIZE: usize = 2048;

/// Candidates looked at for one token.
pub const MAX_MATCHES: usize = 512;

/// Lowest offset a pointer may carry: below it, a pointer would read as a
/// literal.
pub const MIN_OFFSET: usize = 8;

/// Longest repeat.
pub const MAX_LEN: usize = 31;

/// A repeat: where it starts in the window and how long it is.
#[derive(Clone, Copy, PartialEq, Eq, Structural, Debug)]
pub struct Match {
    pub offset: u16,
    pub len: u16,
}

impl Match {
    /// The repeat of `len` bytes at `offset`.
    pub fn new(offset: u16, len: u16) -> (m: Self)
        ensures
            m == (Match { offset, len }),
    {
        Match { offset, len }
    }
}

/// Mathematical content of a [`Window`]: its bytes and where the next
/// byte goes.
pub struct WindowModel {
    pub data: Seq<u8>,
    pub pos: int,
}

impl WindowModel {
    /// The window holds a byte at least, and the next byte goes inside
    /// it.
    pub open spec fn wf(self) -> bool {
        self.data.len() > 0 && 0 <= self.pos < self.data.len()
    }

    /// A window of `size` zeros.
    pub open spec fn fresh(size: nat) -> Self {
        WindowModel { data: Seq::new(size, |i: int| 0u8), pos: 0 }
    }

    /// The byte at `pos`, counted round the window.
    pub open spec fn get(self, pos: int) -> u8 {
        self.data[pos % (self.data.len() as int)]
    }

    /// The window with `byte` over its oldest byte.
    pub open spec fn add_byte(self, byte: u8) -> Self {
        WindowModel {
            data: self.data.update(self.pos, byte),
            pos: if self.pos + 1 == self.data.len() {
                0
            } else {
                self.pos + 1
            },
        }
    }

    /// The window with `bytes` put in one after the other.
    pub open spec fn add_bytes(self, bytes: Seq<u8>) -> Self
        decreases bytes.len(),
    {
        if bytes.len() == 0 {
            self
        } else {
            self.add_byte(bytes[0]).add_bytes(bytes.skip(1))
        }
    }
}

/// The bytes the window has seen last, to be matched against.
pub struct Window {
    data: Vec<u8>,
    pos: usize,
    size: usize,
}

impl View for Window {
    type V = WindowModel;

    closed spec fn view(&self) -> WindowModel {
        WindowModel { data: self.data@, pos: self.pos as int }
    }
}

impl Window {
    /// Well-formed: the content is, and the size is that of the data.
    pub closed spec fn wf(&self) -> bool {
        self@.wf() && self.size == self.data@.len()
    }

    /// A window of `size` zero bytes.
    pub fn new(size: usize) -> (w: Self)
        requires
            size > 0,
        ensures
            w.wf(),
            w@ == WindowModel::fresh(size as nat),
    {
        let w = Window { data: vec![0u8; size], pos: 0, size };
        assert(w@.data =~= WindowModel::fresh(size as nat).data);
        w
    }

    /// Puts `byte` over the oldest byte.
    pub fn add_byte(&mut self, byte: u8)
        requires
            old(self).wf(),
        ensures
            final(self).wf(),
            final(self)@ == old(self)@.add_byte(byte),
    {
        self.data[self.pos] = byte;
        self.pos = if self.pos + 1 == self.size { 0 } else { self.pos + 1 };
    }

    /// Puts `bytes` into the window one after the other.
    pub fn add_bytes(&mut self, bytes: &[u8])
        requires
            old(self).wf(),
        ensures
            final(self).wf(),
            final(self)@ == old(self)@.add_bytes(bytes@),
    {
        let mut i: usize = 0;
        assert(bytes@.skip(0) =~= bytes@);
        while i < bytes.len()
            invariant
                i <= bytes@.len(),
                self.wf(),
                self@.add_bytes(bytes@.skip(i as int)) == old(self)@.add_bytes(bytes@),
            decreases bytes@.len() - i,
        {
            assert(bytes@.skip(i as int).skip(1) =~= bytes@.skip(i + 1));
            self.add_byte(bytes[i]);
            i += 1;
        }
    }

    /// The byte at `pos`, counted round the window.
    pub fn get_byte(&self, pos: usize) -> (b: u8)
        requires
            self.wf(),
        ensures
            b == self@.get(pos as int),
    {
        self.data[pos % self.size]
    }

    /// Number of bytes in the window.
    pub fn len(&self) -> (n: usize)
        requires
            self.wf(),
        ensures
            n == self@.data.len(),
    {
        self.data.len()
    }
}

/// How far the bytes of `block` from `pos` agree with the window from
/// `offset`, given that the first `len` agree; at most [`MAX_LEN`] and
/// never beyond the block.
pub open spec fn match_len(w: WindowModel, block: Seq<u8>, pos: int, offset: int, len: int) -> int
    decreases MAX_LEN - len,
{
    if len < MAX_LEN && pos + len < block.len() && block[pos + len] == w.get(offset + len) {
        match_len(w, block, pos, offset, len + 1)
    } else {
        len
    }
}

/// The better of the best repeat so far and a new one: the longer, the
/// earlier found if they are equally long.
pub open spec fn better(best: Option<Match>, m: Match) -> Option<Match> {
    match best {
        Some(b) => if m.len > b.len {
            Some(m)
        } else {
            Some(b)
        },
        None => Some(m),
    }
}

/// The best repeat among the offsets from `i` down to [`MIN_OFFSET`],
/// given the best of the `found` repeats seen at higher offsets. Only
/// repeats of two bytes or more count, and only the first
/// [`MAX_MATCHES`] of them.
pub open spec fn best_match(
    w: WindowModel,
    block: Seq<u8>,
    pos: int,
    i: int,
    found: int,
    best: Option<Match>,
) -> Option<Match>
    decreases i,
{
    if i < MIN_OFFSET || found >= MAX_MATCHES {
        best
    } else if w.get(i) == block[pos] && match_len(w, block, pos, i, 1) > 1 {
        best_match(
            w,
            block,
            pos,
            i - 1,
            found + 1,
            better(best, Match { offset: i as u16, len: match_len(w, block, pos, i, 1) as u16 }),
        )
    } else {
        best_match(w, block, pos, i - 1, found, best)
    }
}

/// Byte `k` of `block` behind `pos` is byte `k` of the window behind
/// `offset`.
pub open spec fn agrees(w: WindowModel, block: Seq<u8>, pos: int, offset: int, k: int) -> bool {
    block[pos + k] == w.get(offset + k)
}

/// A repeat that a pointer can carry and that the window holds: the
/// bytes of `block` from `pos` are those of the window from its offset.
pub open spec fn valid_match(w: WindowModel, block: Seq<u8>, pos: int, m: Match) -> bool {
    &&& MIN_OFFSET <= m.offset < w.data.len()
    &&& 2 <= m.len <= MAX_LEN
    &&& pos + m.len <= block.len()
    &&& forall|k: int| 0 <= k < m.len ==> #[trigger] agrees(w, block, pos, m.offset as int, k)
}

/// Extending a repeat keeps it a repeat.
pub proof fn lemma_match_len(w: WindowModel, block: Seq<u8>, pos: int, offset: int, len: int)
    requires
        1 <= len <= MAX_LEN,
        0 <= pos,
        pos + len <= block.len(),
        forall|k: int| 0 <= k < len ==> #[trigger] agrees(w, block, pos, offset, k),
    ensures
        len <= match_len(w, block, pos, offset, len) <= MAX_LEN,
        pos + match_len(w, block, pos, offset, len) <= block.len(),
        forall|k: int|
            0 <= k < match_len(w, block, pos, offset, len) ==> #[trigger] agrees(
                w,
                block,
                pos,
                offset,
                k,
            ),
    decreases MAX_LEN - len,
{
    if len < MAX_LEN && pos + len < block.len() && block[pos + len] == w.get(offset + len) {
        assert(agrees(w, block, pos, offset, len));
        lemma_match_len(w, block, pos, offset, len + 1);
    }
}

/// The best repeat, if there is one, is a valid one.
pub proof fn lemma_best_match(
    w: WindowModel,
    block: Seq<u8>,
    pos: int,
    i: int,
    found: int,
    best: Option<Match>,
)
    requires
        0 <= pos < block.len(),
        i < w.data.len() <= 0x1_0000,
        best is Some ==> valid_match(w, block, pos, best->0),
    ensures
        best_match(w, block, pos, i, found, best) is Some ==> valid_match(
            w,
            block,
            pos,
            best_match(w, block, pos, i, found, best)->0,
        ),
    decreases i,
{
    if i < MIN_OFFSET || found >= MAX_MATCHES {
    } else if w.get(i) == block[pos] && match_len(w, block, pos, i, 1) > 1 {
        assert(agrees(w, block, pos, i, 0));
        lemma_match_len(w, block, pos, i, 1);
        let m = Match { offset: i as u16, len: match_len(w, block, pos, i, 1) as u16 };
        lemma_best_match(w, block, pos, i - 1, found + 1, better(best, m));
    } else {
        lemma_best_match(w, block, pos, i - 1, found, best);
    }
}

/// The token for a repeat.
pub open spec fn pointer(m: Match) -> Seq<u8> {
    seq![((m.offset * 32 + m.len) / 256) as u8, ((m.offset * 32 + m.len) % 256) as u8]
}

/// The token for a literal.
pub open spec fn literal(byte: u8) -> Seq<u8> {
    seq![0u8, byte]
}

/// The tokens for `block` from `pos` on, followed by the tokens for the
/// blocks cut from `rest`, with the window `w` as it stands at `pos`.
pub open spec fn compressed_from(
    w: WindowModel,
    block: Seq<u8>,
    pos: int,
    rest: Seq<u8>,
    capacity: nat,
) -> Seq<u8>
    decreases rest.len(), block.len() - pos,
{
    if capacity == 0 || pos < 0 || w.data.len() > 0x1_0000 {
        Seq::empty()
    } else if pos >= block.len() {
        if rest.len() == 0 {
            Seq::empty()
        } else {
            let n = if rest.len() < capacity { rest.len() } else { capacity };
            compressed_from(w, rest.take(n as int), 0, rest.skip(n as int), capacity)
        }
    } else {
        match best_match(w, block, pos, w.data.len() - 1, 0, None) {
            Some(m) => {
                proof {
                    lemma_best_match(w, block, pos, w.data.len() - 1, 0, None);
                }
                pointer(m) + compressed_from(
                    w.add_bytes(block.subrange(pos, pos + m.len)),
                    block,
                    pos + m.len,
                    rest,
                    capacity,
                )
            },
            None => literal(block[pos]) + compressed_from(
                w.add_byte(block[pos]),
                block,
                pos + 1,
                rest,
                capacity,
            ),
        }
    }
}

/// The LZ77 tokens for `data` read in buffers of `capacity` bytes. A
/// repeat never runs from one buffer into the next.
pub open spec fn compressed(data: Seq<u8>, capacity: nat) -> Seq<u8> {
    compressed_from(WindowModel::fresh(WINDOW_SIZE as nat), Seq::empty(), 0, data, capacity)
}

/// The `n` bytes of the window from `offset`, counted round the window.
pub open spec fn copied(w: WindowModel, offset: int, n: nat) -> Seq<u8> {
    Seq::new(n, |i: int| w.get(offset + i))
}

/// What the tokens `tokens` stand for, with the window `w` as it stands
/// before them; `None` if the last token is cut short.
pub open spec fn decompressed_from(w: WindowModel, tokens: Seq<u8>) -> Option<Seq<u8>>
    decreases tokens.len(),
{
    if tokens.len() == 0 {
        Some(Seq::empty())
    } else if tokens.len() == 1 {
        None
    } else {
        let ptr = tokens[0] * 256 + tokens[1];
        if tokens[0] == 0 {
            prefixed(
                seq![tokens[1]],
                decompressed_from(w.add_byte(tokens[1]), tokens.skip(2)),
            )
        } else {
            let bytes = copied(w, ptr / 32, (ptr % 32) as nat);
            prefixed(bytes, decompressed_from(w.add_bytes(bytes), tokens.skip(2)))
        }
    }
}

/// What the LZ77 tokens `input` stand for.
pub open spec fn decompressed(input: Seq<u8>) -> Option<Seq<u8>> {
    decompressed_from(WindowModel::fresh(WINDOW_SIZE as nat), input)
}

/// Adding bytes keeps a window well-formed and of the same size.
pub proof fn lemma_add_bytes_wf(w: WindowModel, bytes: Seq<u8>)
    requires
        w.wf(),
    ensures
        w.add_bytes(bytes).wf(),
        w.add_bytes(bytes).data.len() == w.data.len(),
    decreases bytes.len(),
{
    if bytes.len() > 0 {
        lemma_add_bytes_wf(w.add_byte(bytes[0]), bytes.skip(1));
    }
}

/// The tokens for a block and the blocks behind it stand for what is left
/// of the block and those blocks.
pub proof fn lemma_round_trip_from(
    w: WindowModel,
    block: Seq<u8>,
    pos: int,
    rest: Seq<u8>,
    capacity: nat,
)
    requires
        w.wf(),
        w.data.len() <= WINDOW_SIZE,
        0 <= pos <= block.len(),
        capacity >= 1,
    ensures
        decompressed_from(w, compressed_from(w, block, pos, rest, capacity)) == Some(
            block.skip(pos) + rest,
        ),
    decreases rest.len(), block.len() - pos,
{
    let tokens = compressed_from(w, block, pos, rest, capacity);
    if pos >= block.len() {
        if rest.len() == 0 {
            assert(block.skip(pos) + rest =~= Seq::<u8>::empty());
        } else {
            let n = if rest.len() < capacity { rest.len() } else { capacity };
            lemma_round_trip_from(w, rest.take(n as int), 0, rest.skip(n as int), capacity);
            assert(rest.take(n as int).skip(0) + rest.skip(n as int) =~= block.skip(pos) + rest);
        }
    } else {
        match best_match(w, block, pos, w.data.len() - 1, 0, None) {
            Some(m) => {
                lemma_best_match(w, block, pos, w.data.len() - 1, 0, None);
                let bytes = block.subrange(pos, pos + m.len);
                let next = w.add_bytes(bytes);
                let tail = compressed_from(next, block, pos + m.len, rest, capacity);
                lemma_add_bytes_wf(w, bytes);
                lemma_round_trip_from(next, block, pos + m.len, rest, capacity);
                let ptr = m.offset * 32 + m.len;
                assert(tokens =~= pointer(m) + tail);
                assert(pointer(m).len() == 2);
                assert(tokens[0] == pointer(m)[0] && tokens[1] == pointer(m)[1]);
                assert(tokens[0] == ptr / 256 && tokens[1] == ptr % 256);
                assert(tokens[0] * 256 + tokens[1] == ptr);
                assert(tokens.skip(2) =~= tail);
                assert(copied(w, ptr / 32, (ptr % 32) as nat) =~= bytes) by {
                    assert forall|k: int| 0 <= k < m.len implies w.get(m.offset + k) == bytes[k] by {
                        assert(agrees(w, block, pos, m.offset as int, k));
                    }
                }
                assert(bytes + (block.skip(pos + m.len) + rest) =~= block.skip(pos) + rest);
            },
            None => {
                let next = w.add_byte(block[pos]);
                let tail = compressed_from(next, block, pos + 1, rest, capacity);
                lemma_round_trip_from(next, block, pos + 1, rest, capacity);
                assert(tokens =~= literal(block[pos]) + tail);
                assert(tokens.skip(2) =~= tail);
                assert(seq![block[pos]] + (block.skip(pos + 1) + rest) =~= block.skip(pos) + rest);
            },
        }
    }
}

/// Decompressing what compression produced gives back the data, for
/// every buffer capacity but zero.
pub proof fn lemma_round_trip(data: Seq<u8>, capacity: nat)
    requires
        capacity >= 1,
    ensures
        decompressed(compressed(data, capacity)) == Some(data),
{
    lemma_round_trip_from(WindowModel::fresh(WINDOW_SIZE as nat), Seq::empty(), 0, data, capacity);
    assert(Seq::<u8>::empty().skip(0) + data =~= data);
}

/// An LZ77 coder between a reader and a writer.
pub struct Lz77 {
    window: Window,
    buf_pos: usize,
    file_in: ByteReader,
    file_out: ByteWriter,
}

impl Lz77 {
    /// The input not yet read.
    pub closed spec fn input(&self) -> Seq<u8> {
        self.file_in.unread()
    }

    /// The output so far.
    pub closed spec fn output(&self) -> Seq<u8> {
        self.file_out.written()
    }

    /// Size of the reader's buffer.
    pub closed spec fn capacity(&self) -> nat {
        self.file_in.buffer_size()
    }

    /// Nothing read yet: the window is empty and so is the buffer.
    pub closed spec fn fresh(&self) -> bool {
        &&& self.window.wf()
        &&& self.window@ == WindowModel::fresh(WINDOW_SIZE as nat)
        &&& self.buf_pos == 0
        &&& self.file_in.readable()
        &&& self.file_in.buffered().len() == 0
    }

    /// A coder that will read `file_in` and write to `file_out`.
    pub fn new(file_in: ByteReader, file_out: ByteWriter) -> (lz: Lz77)
        requires
            file_in.readable(),
            file_in.buffered().len() == 0,
        ensures
            lz.fresh(),
            lz.input() == file_in.unread(),
            lz.output() == file_out.written(),
            lz.capacity() == file_in.buffer_size(),
    {
        Lz77 { window: Window::new(WINDOW_SIZE), buf_pos: 0, file_in, file_out }
    }

    /// Hands over the output.
    pub fn into_output(self) -> (out: Vec<u8>)
        ensures
            out@ == self.output(),
    {
        self.file_out.into_bytes()
    }

    /// The longest repeat in the window of the bytes at the current
    /// position of the buffer.
    fn find_match(&self) -> (best: Option<Match>)
        requires
            self.window.wf(),
            self.window@.data.len() == WINDOW_SIZE,
            self.file_in.readable(),
            self.buf_pos < self.file_in.buffered().len(),
        ensures
            best == best_match(
                self.window@,
                self.file_in.buffered(),
                self.buf_pos as int,
                WINDOW_SIZE - 1,
                0,
                None,
            ),
    {
        let block = self.file_in.buffer();
        let mut best: Option<Match> = None;
        let mut found: usize = 0;
        let mut i: usize = WINDOW_SIZE;
        while i > MIN_OFFSET && found < MAX_MATCHES
            invariant
                MIN_OFFSET <= i <= WINDOW_SIZE,
                found <= MAX_MATCHES,
                self.window.wf(),
                self.window@.data.len() == WINDOW_SIZE,
                block@ == self.file_in.buffered(),
                self.buf_pos < block@.len(),
                best_match(self.window@, block@, self.buf_pos as int, i - 1, found as int, best)
                    == best_match(self.window@, block@, self.buf_pos as int, WINDOW_SIZE - 1, 0, None),
            decreases i,
        {
            i -= 1;
            if self.window.get_byte(i) == block[self.buf_pos] {
                let len: usize = self.measure(block, i);
                if len > 1 {
                    let m = Match::new(i as u16, len as u16);
                    best = match best {
                        Some(b) => if m.len > b.len {
                            Some(m)
                        } else {
                            Some(b)
                        },
                        None => Some(m),
                    };
                    found += 1;
                }
            }
        }
        best
    }

    /// Length of the repeat at window offset `offset`, whose first byte
    /// is known to agree.
    fn measure(&self, block: &[u8], offset: usize) -> (len: usize)
        requires
            self.window.wf(),
            self.window@.data.len() == WINDOW_SIZE,
            self.buf_pos < block@.len(),
            offset < WINDOW_SIZE,
        ensures
            len == match_len(self.window@, block@, self.buf_pos as int, offset as int, 1),
            1 <= len <= MAX_LEN,
    {
        let mut len: usize = 1;
        while len < MAX_LEN && len < block.len() - self.buf_pos && block[self.buf_pos + len]
            == self.window.get_byte(offset + len)
            invariant
                1 <= len <= MAX_LEN,
                self.window.wf(),
                self.buf_pos < block@.len(),
                offset < WINDOW_SIZE,
                match_len(self.window@, block@, self.buf_pos as int, offset as int, len as int)
                    == match_len(self.window@, block@, self.buf_pos as int, offset as int, 1),
            decreases MAX_LEN - len,
        {
            len += 1;
        }
        len
    }

    /// Writes the tokens for all the input.
    pub fn compress(&mut self)
        requires
            old(self).fresh(),
        ensures
            final(self).output() == old(self).output() + compressed(
                old(self).input(),
                old(self).capacity(),
            ),
    {
        let ghost rest0 = self.file_in.unread();
        let ghost cap = self.file_in.buffer_size();
        let ghost out0 = self.file_out.written();
        let mut state = self.file_in.fill_buffer();
        proof {
            assert(rest0.skip(0) =~= rest0);
            assert(out0 + compressed(rest0, cap) =~= out0 + compressed_from(
                self.window@,
                self.file_in.buffered(),
                0,
                self.file_in.unread().skip(self.file_in.buffered().len() as int),
                cap,
            ));
        }
        while !state.is_eof()
            invariant
                self.window.wf(),
                self.window@.data.len() == WINDOW_SIZE,
                self.file_in.readable(),
                self.file_in.buffer_size() == cap,
                state == BufferState::Empty <==> self.file_in.buffered().len() == 0,
                state != BufferState::Empty ==> self.buf_pos < self.file_in.buffered().len(),
                self.file_in.buffered() =~= self.file_in.unread().take(
                    self.file_in.buffered().len() as int,
                ),
                self.file_in.buffered().len() == if self.file_in.unread().len() < cap {
                    self.file_in.unread().len()
                } else {
                    cap
                },
                state == BufferState::Empty ==> out0 + compressed(rest0, cap) == self.file_out.written(),
                state != BufferState::Empty ==> out0 + compressed(rest0, cap) == self.file_out.written()
                    + compressed_from(
                    self.window@,
                    self.file_in.buffered(),
                    self.buf_pos as int,
                    self.file_in.unread().skip(self.file_in.buffered().len() as int),
                    cap,
                ),
            decreases self.file_in.unread().len(), self.file_in.buffered().len() - self.buf_pos,
        {
            let ghost w = self.window@;
            let ghost block = self.file_in.buffered();
            let ghost rest = self.file_in.unread().skip(block.len() as int);
            let ghost written = self.file_out.written();
            let ghost pos = self.buf_pos as int;
            let best = self.find_match();
            let step: usize;
            match best {
                Some(m) => {
                    proof {
                        lemma_best_match(w, block, pos, WINDOW_SIZE - 1, 0, None);
                    }
                    let ptr: u16 = m.offset * 32 + m.len;
                    self.file_out.write_byte((ptr / 256) as u8);
                    self.file_out.write_byte((ptr % 256) as u8);
                    let buffer = self.file_in.buffer();
                    let end: usize = if buffer.len() - self.buf_pos < (m.len as usize) {
                        buffer.len()
                    } else {
                        self.buf_pos + (m.len as usize)
                    };
                    let bytes = vstd::slice::slice_subrange(buffer, self.buf_pos, end);
                    self.window.add_bytes(bytes);
                    step = m.len as usize;
                    proof {
                        lemma_add_bytes_wf(w, block.subrange(pos, pos + m.len));
                        assert(self.file_out.written() =~= written + pointer(m));
                    }
                },
                None => {
                    let byte: u8 = self.file_in.buffer()[self.buf_pos];
                    self.file_out.write_byte(0);
                    self.file_out.write_byte(byte);
                    self.window.add_byte(byte);
                    step = 1;
                    proof {
                        assert(self.file_out.written() =~= written + literal(byte));
                    }
                },
            }
            let ghost tail = compressed_from(self.window@, block, pos + step, rest, cap);
            proof {
                assert(written + compressed_from(w, block, pos, rest, cap) =~= self.file_out.written()
                    + tail);
            }
            self.buf_pos += step;
            if self.buf_pos >= self.file_in.buffer().len() {
                self.buf_pos = 0;
                state = self.file_in.fill_buffer();
                proof {
                    assert(self.file_in.unread() =~= rest);
                    if rest.len() == 0 {
                        assert(tail =~= Seq::<u8>::empty());
                        assert(self.file_out.written() + tail =~= self.file_out.written());
                    }
                }
            }
        }
    }

    /// Reads tokens up to the end of the input and writes what they stand
    /// for; fails, having written what came before, if the last token is
    /// cut short.
    pub fn decompress(&mut self) -> (r: Result<(), DecodeError>)
        requires
            old(self).fresh(),
        ensures
            match decompressed(old(self).input()) {
                Some(data) => r is Ok && final(self).output() == old(self).output() + data,
                None => r == Err::<(), DecodeError>(DecodeError::UnexpectedEof),
            },
    {
        let ghost out0 = self.file_out.written();
        let ghost all = decompressed(self.file_in.unread());
        proof {
            if all is Some {
                assert(Seq::<u8>::empty() + all->0 =~= all->0);
            }
        }
        let ghost mut done: Seq<u8> = Seq::empty();
        loop
            invariant
                self.window.wf(),
                self.window@.data.len() == WINDOW_SIZE,
                self.file_in.readable(),
                self.file_out.written() == out0 + done,
                out0 == old(self).output(),
                all == decompressed(old(self).input()),
                all == prefixed(done, decompressed_from(self.window@, self.file_in.unread())),
            decreases self.file_in.unread().len(),
        {
            let ghost tokens = self.file_in.unread();
            let ghost w = self.window@;
            let first: u8 = match self.file_in.read_byte_checked() {
                Some(b) => b,
                None => {
                    proof {
                        assert(done + Seq::<u8>::empty() =~= done);
                    }
                    return Ok(());
                },
            };
            let second: u8 = match self.file_in.read_byte_checked() {
                Some(b) => b,
                None => {
                    return Err(DecodeError::UnexpectedEof);
                },
            };
            proof {
                assert(self.file_in.unread() =~= tokens.skip(2));
            }
            if first == 0 {
                self.file_out.write_byte(second);
                self.window.add_byte(second);
                proof {
                    let rest = decompressed_from(self.window@, tokens.skip(2));
                    if rest is Some {
                        assert(done + (seq![second] + rest->0) =~= done.push(second) + rest->0);
                    }
                    done = done.push(second);
                }
            } else {
                let ptr: u16 = (first as u16) * 256 + (second as u16);
                let m = Match::new(ptr / 32, ptr % 32);
                let mut pending: Vec<u8> = Vec::new();
                let mut i: u16 = 0;
                let ghost reader = self.file_in;
                while i < m.len
                    invariant
                        i <= m.len < 32,
                        m.offset <= 2047,
                        self.file_in == reader,
                        self.window.wf(),
                        self.window@ == w,
                        pending@ =~= copied(w, m.offset as int, i as nat),
                        self.file_out.written() =~= out0 + done + pending@,
                    decreases m.len - i,
                {
                    let byte: u8 = self.window.get_byte((m.offset + i) as usize);
                    self.file_out.write_byte(byte);
                    pending.push(byte);
                    i += 1;
                }
                self.window.add_bytes(pending.as_slice());
                proof {
                    lemma_add_bytes_wf(w, pending@);
                    let rest = decompressed_from(self.window@, tokens.skip(2));
                    if rest is Some {
                        assert(done + (pending@ + rest->0) =~= (done + pending@) + rest->0);
                    }
                    done = done + pending@;
                }
            }
        }
    }
}

} // verus!

