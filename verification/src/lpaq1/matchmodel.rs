//! Prediction from the longest recent match.
//!
//! The model remembers the input in a rotating buffer and, for two hashes
//! of the latest bytes, where in the buffer those bytes were last followed.
//! While the bytes before some earlier position equal the bytes just seen,
//! the bit that followed there is predicted to follow here, with a
//! confidence learnt per match length.

use vstd::prelude::*;
use crate::bits::two_to;
use crate::bits::two_to_exec;
use crate::lpaq1::hashtable::power_of_two;
use crate::statemap::StateMap;
use crate::statemap::StateMapKind;
use crate::statemap::StateMapModel;

verus! {

/// Longest match that is counted.
pub const MAX_LEN: usize = 62;

/// Contexts of the model's state map: 56 length-and-bit classes times
/// 256 previous bytes.
pub const CONTEXTS: usize = 14336;

/// The position before `i` in a rotating buffer of `n` bytes.
pub open spec fn before(i: int, n: int) -> int {
    if i == 0 {
        n - 1
    } else {
        i - 1
    }
}

/// The match length reached by walking backwards from `m1` (before the
/// candidate) and `m2` (before the current position) while the bytes
/// agree, the length is below the maximum and the candidate side has not
/// come round to the current position.
pub open spec fn extended(buf: Seq<u8>, pos: int, len: int, m1: int, m2: int) -> int
    decreases MAX_LEN - len,
{
    if len < MAX_LEN && m1 != pos && buf[m2] == buf[m1] {
        extended(buf, pos, len + 1, before(m1, buf.len() as int), before(m2, buf.len() as int))
    } else {
        len
    }
}

/// Mathematical content of a [`MatchModel`].
pub struct MatchState {
    /// Where in the buffer the predicted byte is.
    pub match_ptr: int,
    pub match_len: int,
    /// Bits of the current byte behind a leading one.
    pub cxt: int,
    /// Number of bits in `cxt`.
    pub bits: int,
    pub hash_s: int,
    pub hash_l: int,
    /// Where the next byte goes.
    pub buf_pos: int,
    pub sm: StateMapModel,
    pub buf: Seq<u8>,
    /// For each hash, the position that followed its last occurrence.
    pub ht: Seq<u32>,
}

impl MatchState {
    /// Every position is within the buffer, every hash within the hash
    /// table, and the bits of the current byte are as many as counted.
    pub open spec fn wf(self) -> bool {
        &&& 1 <= self.buf.len() <= 0x8000_0000
        &&& 1 <= self.ht.len() <= 0x2000_0000
        &&& 0 <= self.match_ptr < self.buf.len()
        &&& 0 <= self.buf_pos < self.buf.len()
        &&& 0 <= self.match_len <= MAX_LEN
        &&& 0 <= self.bits < 8
        &&& 1 <= self.cxt < two_to(self.bits + 1)
        &&& 0 <= self.hash_s < self.ht.len()
        &&& 0 <= self.hash_l < self.ht.len()
        &&& forall|h: int| 0 <= h < self.ht.len() ==> #[trigger] self.ht[h] < self.buf.len()
        &&& self.sm.wf()
        &&& self.sm.kind == StateMapKind::Lpaq1
        &&& self.sm.entries.len() == CONTEXTS
    }

    /// A model over `n / 2` buffer bytes and `n / 8` hash entries.
    pub open spec fn fresh(n: int) -> Self {
        MatchState {
            match_ptr: 0,
            match_len: 0,
            cxt: 1,
            bits: 0,
            hash_s: 0,
            hash_l: 0,
            buf_pos: 0,
            sm: StateMapModel::fresh(StateMapKind::Lpaq1, CONTEXTS as nat),
            buf: Seq::new((n / 2) as nat, |i: int| 0u8),
            ht: Seq::new((n / 8) as nat, |i: int| 0u32),
        }
    }

    /// Looks up `hash` and measures the match found there.
    pub open spec fn find_match(self, hash: int) -> Self {
        let n = self.buf.len() as int;
        let ptr = self.ht[hash] as int;
        if ptr != self.buf_pos {
            MatchState {
                match_ptr: ptr,
                match_len: extended(
                    self.buf,
                    self.buf_pos,
                    self.match_len,
                    (ptr + n - self.match_len - 1) % n,
                    (self.buf_pos + n - self.match_len - 1) % n,
                ),
                ..self
            }
        } else {
            MatchState { match_ptr: ptr, ..self }
        }
    }

    /// Takes in the whole byte `byte`: the hashes and the buffer move on,
    /// a running match is followed or a new one is looked for, and the
    /// hash table learns the new position.
    pub open spec fn end_byte(self, byte: u8) -> Self {
        let n = self.buf.len() as int;
        let hn = self.ht.len() as int;
        let hashed = MatchState {
            hash_l: (self.hash_l * 24 + byte) % hn,
            hash_s: (self.hash_s * 160 + byte) % hn,
            buf: self.buf.update(self.buf_pos, byte),
            buf_pos: (self.buf_pos + 1) % n,
            bits: 0,
            cxt: 1,
            ..self
        };
        let long = if hashed.match_len > 0 {
            MatchState {
                match_ptr: (hashed.match_ptr + 1) % n,
                match_len: if hashed.match_len < MAX_LEN {
                    hashed.match_len + 1
                } else {
                    hashed.match_len
                },
                ..hashed
            }
        } else {
            hashed.find_match(hashed.hash_l)
        };
        let short = if long.match_len < 2 {
            MatchState { match_len: 0, ..long }.find_match(long.hash_s)
        } else {
            long
        };
        MatchState {
            ht: short.ht.update(short.hash_s, short.buf_pos as u32).update(
                short.hash_l,
                short.buf_pos as u32,
            ),
            ..short
        }
    }

    /// Takes in `bit`.
    pub open spec fn update(self, bit: int) -> Self {
        let cxt = self.cxt * 2 + bit;
        if self.bits + 1 == 8 {
            self.end_byte((cxt % 256) as u8)
        } else {
            MatchState { cxt, bits: self.bits + 1, ..self }
        }
    }

    /// The byte at the match position.
    pub open spec fn expected(self) -> u8 {
        self.buf[self.match_ptr]
    }

    /// Whether the match position agrees with the bits of the current byte.
    pub open spec fn matching(self) -> bool {
        self.match_len > 0 && (self.expected() + 256) / two_to(8 - self.bits) == self.cxt
    }

    /// The state-map context: match length class, predicted bit and
    /// previous byte while matching; else the bits of the current byte.
    pub open spec fn context(self) -> int {
        if self.matching() {
            let n = self.buf.len() as int;
            let pr_bit = (self.expected() as int / two_to(7 - self.bits)) % 2;
            let class = if self.match_len < 16 {
                self.match_len * 2 + pr_bit
            } else {
                (self.match_len / 4) * 2 + pr_bit + 24
            };
            class * 256 + self.buf[(self.buf_pos + n - 1) % n]
        } else {
            self.cxt
        }
    }

    /// Takes in `bit`, drops a match that the bits so far contradict, and
    /// predicts.
    pub open spec fn predict(self, bit: int) -> Self {
        let u = self.update(bit);
        MatchState {
            match_len: if u.matching() { u.match_len } else { 0 },
            sm: u.sm.predict(bit, u.context()),
            ..u
        }
    }
}

/// The match model: buffer, hash table, current match and its
/// predictions.
pub struct MatchModel {
    match_ptr: usize,
    match_len: usize,
    cxt: usize,
    bits: usize,
    hash_s: usize,
    hash_l: usize,
    buf_pos: usize,
    sm: StateMap,
    buf: Vec<u8>,
    ht: Vec<u32>,
}

impl View for MatchModel {
    type V = MatchState;

    closed spec fn view(&self) -> MatchState {
        MatchState {
            match_ptr: self.match_ptr as int,
            match_len: self.match_len as int,
            cxt: self.cxt as int,
            bits: self.bits as int,
            hash_s: self.hash_s as int,
            hash_l: self.hash_l as int,
            buf_pos: self.buf_pos as int,
            sm: self.sm@,
            buf: self.buf@,
            ht: self.ht@,
        }
    }
}

impl MatchModel {
    /// Well-formed: its content is.
    pub open spec fn wf(&self) -> bool {
        self@.wf()
    }

    /// A model over `n / 2` buffer bytes and `n / 8` hash entries; `n` is
    /// a power of two.
    pub fn new(n: usize) -> (mm: Self)
        requires
            8 <= n <= 0x1_0000_0000,
            power_of_two(n as int),
        ensures
            mm.wf(),
            mm@ == MatchState::fresh(n as int),
    {
        let mm = MatchModel {
            match_ptr: 0,
            match_len: 0,
            cxt: 1,
            bits: 0,
            hash_s: 0,
            hash_l: 0,
            buf_pos: 0,
            sm: StateMap::new(StateMapKind::Lpaq1, CONTEXTS),
            buf: vec![0u8; n / 2],
            ht: vec![0u32; n / 8],
        };
        assert(mm@.buf =~= MatchState::fresh(n as int).buf);
        assert(mm@.ht =~= MatchState::fresh(n as int).ht);
        mm
    }

    /// Takes in `bit` and predicts the next one.
    pub fn p(&mut self, bit: i32) -> (pr: i32)
        requires
            old(self).wf(),
            bit == 0 || bit == 1,
        ensures
            final(self).wf(),
            final(self)@ == old(self)@.predict(bit as int),
            pr == final(self)@.sm.probability(),
            0 <= pr <= 4095,
    {
        self.update(bit);
        let mut cxt: usize = self.cxt;
        let expected: usize = self.buf[self.match_ptr] as usize;
        let pr_cxt: usize = (expected + 256) / two_to_exec(8 - self.bits);
        if self.match_len > 0 && pr_cxt == cxt {
            let pr_bit: usize = (expected / two_to_exec(7 - self.bits)) % 2;
            if self.match_len < 16 {
                cxt = self.match_len * 2 + pr_bit;
            } else {
                cxt = (self.match_len / 4) * 2 + pr_bit + 24;
            }
            let prev: u8 = self.buf[self.back(self.buf_pos, 1)];
            cxt = cxt * 256 + (prev as usize);
        } else {
            self.match_len = 0;
        }
        self.sm.p(bit, cxt)
    }

    /// Takes in `bit`; at the end of a byte, moves the buffer on and looks
    /// for a match.
    pub fn update(&mut self, bit: i32)
        requires
            old(self).wf(),
            bit == 0 || bit == 1,
        ensures
            final(self).wf(),
            final(self)@ == old(self)@.update(bit as int),
    {
        self.cxt = self.cxt * 2 + (bit as usize);
        self.bits += 1;
        if self.bits == 8 {
            let n: usize = self.buf.len();
            let byte: u8 = (self.cxt % 256) as u8;
            self.update_long_hash(byte);
            self.update_short_hash(byte);
            self.buf[self.buf_pos] = byte;
            self.buf_pos = (self.buf_pos + 1) % n;
            self.bits = 0;
            self.cxt = 1;
            if self.match_len > 0 {
                self.match_ptr = (self.match_ptr + 1) % n;
                if self.match_len < MAX_LEN {
                    self.match_len += 1;
                }
            } else {
                self.find_match(self.hash_l);
            }
            if self.match_len < 2 {
                self.match_len = 0;
                self.find_match(self.hash_s);
            }
            let pos: u32 = self.buf_pos as u32;
            self.ht[self.hash_s] = pos;
            self.ht[self.hash_l] = pos;
        }
    }

    /// Looks up `hash` and counts the bytes before the position found
    /// there that equal the bytes before the current position.
    pub fn find_match(&mut self, hash: usize)
        requires
            old(self).wf(),
            hash < old(self)@.ht.len(),
        ensures
            final(self).wf(),
            final(self)@ == old(self)@.find_match(hash as int),
    {
        self.match_ptr = self.ht[hash] as usize;
        if self.match_ptr != self.buf_pos {
            let n: usize = self.buf.len();
            let mut m1: usize = self.back(self.match_ptr, self.match_len + 1);
            let mut m2: usize = self.back(self.buf_pos, self.match_len + 1);
            while self.match_len < MAX_LEN && m1 != self.buf_pos && self.buf[m2] == self.buf[m1]
                invariant
                    self.wf(),
                    n == self.buf@.len(),
                    m1 < n,
                    m2 < n,
                    self@ == (MatchState {
                        match_ptr: old(self)@.ht[hash as int] as int,
                        match_len: self.match_len as int,
                        ..old(self)@
                    }),
                    extended(self.buf@, self.buf_pos as int, self.match_len as int, m1 as int, m2 as int)
                        == old(self)@.find_match(hash as int).match_len,
                decreases MAX_LEN - self.match_len,
            {
                self.match_len += 1;
                m1 = if m1 == 0 { n - 1 } else { m1 - 1 };
                m2 = if m2 == 0 { n - 1 } else { m2 - 1 };
            }
        }
    }

    /// Folds the byte just completed into the short hash.
    pub fn update_short_hash(&mut self, byte: u8)
        requires
            old(self)@.ht.len() >= 1,
            old(self)@.hash_s < old(self)@.ht.len(),
            old(self)@.ht.len() <= 0x2000_0000,
        ensures
            final(self)@ == (MatchState {
                hash_s: (old(self)@.hash_s * 160 + byte) % (old(self)@.ht.len() as int),
                ..old(self)@
            }),
    {
        let len: u64 = self.ht.len() as u64;
        self.hash_s = (((self.hash_s as u64) * 160 + (byte as u64)) % len) as usize;
    }

    /// Folds the byte just completed into the long hash.
    pub fn update_long_hash(&mut self, byte: u8)
        requires
            old(self)@.ht.len() >= 1,
            old(self)@.hash_l < old(self)@.ht.len(),
            old(self)@.ht.len() <= 0x2000_0000,
        ensures
            final(self)@ == (MatchState {
                hash_l: (old(self)@.hash_l * 24 + byte) % (old(self)@.ht.len() as int),
                ..old(self)@
            }),
    {
        let len: u64 = self.ht.len() as u64;
        self.hash_l = (((self.hash_l as u64) * 24 + (byte as u64)) % len) as usize;
    }

    /// The position `k` bytes before `i` in the rotating buffer.
    fn back(&self, i: usize, k: usize) -> (r: usize)
        requires
            1 <= self.buf@.len() <= 0x8000_0000,
            i < self.buf@.len(),
            k <= 63,
        ensures
            r == (i + self.buf@.len() - k) % (self.buf@.len() as int),
            r < self.buf@.len(),
    {
        let n: u64 = self.buf.len() as u64;
        proof {
            vstd::arithmetic::div_mod::lemma_mod_multiples_vanish(63, i + n - k, n as int);
        }
        (((i as u64) + 64 * n - (k as u64)) % n) as usize
    }

    /// Length of the current match, zero when there is none.
    pub fn len(&self) -> (len: usize)
        ensures
            len == self@.match_len,
    {
        self.match_len
    }
}

} // verus!
