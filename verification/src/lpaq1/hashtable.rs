//! A fixed-size table of bit-history arrays found by hashed context.
//!
//! The table is cut into 16-byte slots. Byte 0 of a slot is a checksum of
//! the context that owns it; bytes 1 to 15 are bit histories. A context is
//! looked for in three neighbouring slots; when it is in none of them, the
//! one whose first history is lowest makes room for it.

use vstd::prelude::*;
use vstd::arithmetic::power2::pow2;
use vstd::arithmetic::power2::lemma2_to64;

verus! {

/// Bytes per slot.
pub const SLOT: usize = 16;

/// Bytes kept behind the addressed part of the table.
pub const PADDING: usize = 64;

/// A 32-bit value with its two halves swapped.
pub open spec fn rotate16(x: u32) -> u32 {
    (x / 0x1_0000 + (x % 0x1_0000) * 0x1_0000) as u32
}

/// The hash of a context.
pub open spec fn mix(cxt: u32) -> u32 {
    rotate16(cxt.wrapping_mul(123456791)).wrapping_mul(234567891)
}

/// The byte that marks a slot as owned by `cxt`.
pub open spec fn checksum(cxt: u32) -> u8 {
    (mix(cxt) / 0x100_0000) as u8
}

/// Where the search for `cxt` starts in a table of `size` addressed bytes.
pub open spec fn home(cxt: u32, size: int) -> int {
    (mix(cxt) * 16) % size
}

/// `i` with the bit of weight `b` inverted, `b` being 16 or 32: the
/// neighbouring slot.
pub open spec fn flip(i: int, b: int) -> int {
    if (i / b) % 2 == 0 {
        i + b
    } else {
        i - b
    }
}

/// Inverting one bit is an exclusive or.
pub proof fn lemma_flip_is_xor(i: u32)
    ensures
        flip(i as int, 16) == i ^ 16,
        flip(i as int, 32) == i ^ 32,
        flip(flip(i as int, 16), 32) == i ^ 48,
{
    assert((i / 16) % 2 == 0 ==> i ^ 16 == i + 16) by (bit_vector);
    assert((i / 16) % 2 != 0 ==> i ^ 16 == i - 16) by (bit_vector);
    assert((i / 32) % 2 == 0 ==> i ^ 32 == i + 32) by (bit_vector);
    assert((i / 32) % 2 != 0 ==> i ^ 32 == i - 32) by (bit_vector);
    assert(i ^ 48 == (i ^ 16) ^ 32) by (bit_vector);
    let j = i ^ 16;
    assert((j / 32) % 2 == 0 ==> j ^ 32 == j + 32) by (bit_vector);
    assert((j / 32) % 2 != 0 ==> j ^ 32 == j - 32) by (bit_vector);
}

/// The neighbours of a slot among the first `size` bytes lie within the
/// table.
pub proof fn lemma_flip_bounds(i: int, size: int)
    requires
        0 <= i < size,
        i % 16 == 0,
        size % 64 == 0,
    ensures
        0 <= flip(i, 16) <= size - 16 && flip(i, 16) % 16 == 0,
        0 <= flip(i, 32) <= size - 16 && flip(i, 32) % 16 == 0,
        0 <= flip(flip(i, 16), 32) <= size - 16 && flip(flip(i, 16), 32) % 16 == 0,
        flip(i, 16) != i && flip(i, 32) != i && flip(i, 16) != flip(i, 32),
        flip(flip(i, 16), 16) == i,
        flip(flip(i, 32), 32) == i,
{
}

/// `n` is one of 1, 2, 4, 8, ...
pub open spec fn power_of_two(n: int) -> bool {
    exists|k: nat| n == pow2(k)
}

/// Mathematical content of a [`HashTable`].
pub struct HashTableModel {
    pub t: Seq<u8>,
    /// Number of addressed bytes.
    pub size: int,
}

impl HashTableModel {
    /// At least four slots are addressed, in whole groups of four, and
    /// the padding follows them.
    pub open spec fn wf(self) -> bool {
        &&& self.size >= 64
        &&& self.size % 64 == 0
        &&& self.t.len() == self.size + PADDING
    }

    /// A table of `n` addressed bytes, all zero.
    pub open spec fn fresh(n: int) -> Self {
        HashTableModel { t: Seq::new((n + PADDING) as nat, |k: int| 0u8), size: n }
    }

    /// Whether one of the three slots searched for `cxt` carries its
    /// checksum.
    pub open spec fn hit(self, cxt: u32) -> bool {
        let i = home(cxt, self.size);
        let c = checksum(cxt);
        self.t[i] == c || self.t[flip(i, 16)] == c || self.t[flip(i, 32)] == c
    }

    /// The slot given up when `cxt` is not found from `i`: start at `i`,
    /// move to its neighbour if the first history at `i` is above that of
    /// either searched neighbour, then move across both bits if it is
    /// still above the history there.
    pub open spec fn victim(self, i: int) -> int {
        let j = if self.t[i + 1] > self.t[flip(i, 16) + 1] || self.t[i + 1] > self.t[flip(i, 32)
            + 1] {
            flip(i, 16)
        } else {
            i
        };
        if self.t[j + 1] > self.t[flip(flip(j, 16), 32) + 1] {
            flip(flip(j, 16), 32)
        } else {
            j
        }
    }

    /// The slot of `cxt`: the first searched slot with its checksum, else
    /// the victim.
    #[verifier::opaque]
    pub open spec fn slot(self, cxt: u32) -> int {
        let i = home(cxt, self.size);
        let c = checksum(cxt);
        if self.t[i] == c {
            i
        } else if self.t[flip(i, 16)] == c {
            flip(i, 16)
        } else if self.t[flip(i, 32)] == c {
            flip(i, 32)
        } else {
            self.victim(i)
        }
    }

    /// The table after a lookup of `cxt`: unchanged on a hit; else the
    /// victim is zeroed and marked with the checksum.
    #[verifier::opaque]
    pub open spec fn hash(self, cxt: u32) -> Self {
        if self.hit(cxt) {
            self
        } else {
            let s = self.slot(cxt);
            HashTableModel {
                t: Seq::new(
                    self.t.len(),
                    |k: int|
                        if k == s {
                            checksum(cxt)
                        } else if s < k < s + 16 {
                            0u8
                        } else {
                            self.t[k]
                        },
                ),
                ..self
            }
        }
    }
}

/// The slot of a context starts a whole slot inside the table.
pub proof fn lemma_slot_bounds(m: HashTableModel, cxt: u32)
    requires
        m.wf(),
    ensures
        0 <= m.slot(cxt) <= m.size - 16,
        m.slot(cxt) % 16 == 0,
        m.hash(cxt).wf(),
        m.hash(cxt).size == m.size,
        m.hash(cxt).t[m.slot(cxt)] == checksum(cxt),
        m.hash(cxt).t.len() == m.t.len(),
{
    reveal(HashTableModel::slot);
    reveal(HashTableModel::hash);
    let i = home(cxt, m.size);
    assert(i % 16 == 0 && 0 <= i < m.size) by {
        lemma_home_aligned(mix(cxt) as int, m.size);
    }
    lemma_flip_bounds(i, m.size);
    lemma_flip_bounds(flip(i, 16), m.size);
}

/// A power of two from 64 up is a multiple of 64.
pub proof fn lemma_power_of_two_aligned(n: int)
    requires
        n >= 64,
        power_of_two(n),
    ensures
        n % 64 == 0,
{
    let k = choose|k: nat| n == pow2(k);
    lemma2_to64();
    if k < 6 {
        vstd::arithmetic::power2::lemma_pow2_strictly_increases(k, 6);
    } else {
        vstd::arithmetic::power2::lemma_pow2_adds(6, (k - 6) as nat);
        assert(pow2(k) == 64 * pow2((k - 6) as nat));
    }
}

/// The search starts at a slot within the addressed bytes.
pub proof fn lemma_home_aligned(h: int, size: int)
    requires
        0 <= h,
        size >= 64,
        size % 64 == 0,
    ensures
        0 <= (h * 16) % size < size,
        ((h * 16) % size) % 16 == 0,
{
    let x = h * 16;
    let q = x / size;
    let r = x % size;
    let k = size / 16;
    assert(size == 16 * k);
    assert(x == size * q + r) by {
        vstd::arithmetic::div_mod::lemma_fundamental_div_mod(x, size);
    }
    assert(size * q == 16 * (k * q)) by (nonlinear_arith)
        requires
            size == 16 * k,
    ;
    assert(r == 16 * (h - k * q));
}

/// The table of hashed bit histories.
pub struct HashTable {
    t: Vec<u8>,
    size: usize,
}

impl View for HashTable {
    type V = HashTableModel;

    closed spec fn view(&self) -> HashTableModel {
        HashTableModel { t: self.t@, size: self.size as int }
    }
}

impl HashTable {
    /// Well-formed: its content is.
    pub open spec fn wf(&self) -> bool {
        self@.wf()
    }

    /// A table of `n` addressed bytes, all zero; `n` is a power of two
    /// and holds at least four slots.
    pub fn new(n: usize) -> (table: HashTable)
        requires
            n >= 64,
            power_of_two(n as int),
            n + PADDING <= usize::MAX,
        ensures
            table.wf(),
            table@ == HashTableModel::fresh(n as int),
    {
        proof {
            lemma_power_of_two_aligned(n as int);
        }
        let table = HashTable { t: vec![0u8; n + PADDING], size: n };
        assert(table@.t =~= HashTableModel::fresh(n as int).t);
        table
    }

    /// The byte at `index`.
    pub fn get(&self, index: usize) -> (b: u8)
        requires
            index < self@.t.len(),
        ensures
            b == self@.t[index as int],
    {
        self.t[index]
    }

    /// Overwrites the byte at `index`.
    pub fn set(&mut self, index: usize, b: u8)
        requires
            index < old(self)@.t.len(),
        ensures
            final(self)@ == (HashTableModel {
                t: old(self)@.t.update(index as int, b),
                ..old(self)@
            }),
    {
        self.t[index] = b;
    }

    /// Finds the slot of context `cxt`, claiming one if there is none,
    /// and returns the index of its first byte.
    pub fn hash(&mut self, cxt: u32) -> (slot: usize)
        requires
            old(self).wf(),
        ensures
            final(self).wf(),
            final(self)@ == old(self)@.hash(cxt),
            slot == old(self)@.slot(cxt),
            slot % 16 == 0,
            slot + 16 <= final(self)@.size,
    {
        proof {
            reveal(HashTableModel::slot);
            reveal(HashTableModel::hash);
        }
        let first: u32 = cxt.wrapping_mul(123456791);
        let turned: u32 = first / 0x1_0000 + (first % 0x1_0000) * 0x1_0000;
        let h: u32 = turned.wrapping_mul(234567891);
        let chksum: u8 = (h / 0x100_0000) as u8;
        proof {
            lemma_slot_bounds(self@, cxt);
            lemma_home_aligned(h as int, self.size as int);
        }
        let i: usize = (((h as u64) * 16) % (self.size as u64)) as usize;
        proof {
            lemma_flip_bounds(i as int, self.size as int);
            lemma_flip_bounds(flip(i as int, 16), self.size as int);
        }
        let a: usize = flipped(i, 16);
        let b: usize = flipped(i, 32);
        if self.t[i] == chksum {
            return i;
        }
        if self.t[a] == chksum {
            return a;
        }
        if self.t[b] == chksum {
            return b;
        }
        let mut j: usize = i;
        if self.t[i + 1] > self.t[a + 1] || self.t[i + 1] > self.t[b + 1] {
            j = a;
        }
        let across: usize = flipped(flipped(j, 16), 32);
        if self.t[j + 1] > self.t[across + 1] {
            j = across;
        }
        let ghost before = self.t@;
        let mut k: usize = 0;
        while k < SLOT
            invariant
                k <= SLOT,
                j + 16 <= self.size,
                self.size + PADDING == self.t@.len(),
                self.size == old(self).size,
                forall|x: int|
                    0 <= x < self.t@.len() ==> self.t@[x] == if j <= x < j + k {
                        0u8
                    } else {
                        before[x]
                    },
            decreases SLOT - k,
        {
            self.t[j + k] = 0;
            k += 1;
        }
        self.t[j] = chksum;
        assert(self.t@ =~= old(self)@.hash(cxt).t);
        j
    }
}

/// Computes `flip`.
fn flipped(i: usize, b: usize) -> (r: usize)
    requires
        b == 16 || b == 32,
        i + b <= usize::MAX,
    ensures
        r == flip(i as int, b as int),
{
    if (i / b) % 2 == 0 {
        i + b
    } else {
        i - b
    }
}

} // verus!
