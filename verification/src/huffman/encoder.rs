//! Huffman compression.
//!
//! A stream starts with one byte that counts the unused bits of its last
//! byte, followed by the 256 frequencies the code tree is built from,
//! four bytes each, least significant first. The codes of the input
//! bytes follow, packed eight bits to a byte, first bit highest; the bits
//! of a last byte that is not full sit in its low end.

use vstd::prelude::*;
use crate::bufio::ByteWriter;
use crate::bufio::BufferedWrite;
use crate::bufio::u32_bytes;
use crate::huffman::tree::Node;
use crate::huffman::tree::NodeType;
use crate::huffman::tree::build_tree;
use crate::huffman::tree::gen_codes;
use crate::huffman::tree::joined_fully;
use crate::huffman::tree::leaf_forest;
use crate::huffman::tree::total;
use crate::huffman::tree::with_codes;

verus! {

/// Length of the header: the padding count and 256 frequencies.
pub const HEADER: usize = 1025;

/// Number of times `byte` occurs in `data`.
pub open spec fn occurrences(data: Seq<u8>, byte: u8) -> nat
    decreases data.len(),
{
    if data.len() == 0 {
        0
    } else {
        occurrences(data.drop_last(), byte) + if data.last() == byte {
            1nat
        } else {
            0nat
        }
    }
}

/// The frequency of every byte value in `data`, each counted from one so
/// that every byte has a code.
pub open spec fn frequencies(data: Seq<u8>) -> Seq<u32> {
    Seq::new(256, |b: int| (1 + occurrences(data, b as u8)) as u32)
}

/// The code tree for the given frequencies.
pub open spec fn tree(frequencies: Seq<u32>) -> Node {
    joined_fully(leaf_forest(frequencies))[0]
}

/// The code of every byte value in the tree `root`.
pub open spec fn codes(root: Node) -> Seq<Seq<u8>> {
    with_codes(root, Seq::empty(), Seq::new(256, |b: int| Seq::<u8>::empty()))
}

/// The codes of the bytes of `data`, one after the other.
pub open spec fn code_bits(codes: Seq<Seq<u8>>, data: Seq<u8>) -> Seq<u8>
    decreases data.len(),
{
    if data.len() == 0 {
        Seq::empty()
    } else {
        code_bits(codes, data.drop_last()) + codes[data.last() as int]
    }
}

/// The number whose binary digits, highest first, are `bits`, cut to a
/// byte.
pub open spec fn bits_value(bits: Seq<u8>) -> u8
    decreases bits.len(),
{
    if bits.len() == 0 {
        0
    } else {
        ((bits_value(bits.drop_last()) * 2 + bits.last()) % 256) as u8
    }
}

/// `bits` packed eight to a byte; a last byte that is not full holds its
/// bits in its low end.
pub open spec fn packed(bits: Seq<u8>) -> Seq<u8>
    decreases bits.len(),
{
    if bits.len() == 0 {
        Seq::empty()
    } else if bits.len() <= 8 {
        seq![bits_value(bits)]
    } else {
        seq![bits_value(bits.take(8))] + packed(bits.skip(8))
    }
}

/// Number of unused bits in the last byte of `n` packed bits; 8 when
/// there is no bit at all.
pub open spec fn padding(n: nat) -> u8 {
    if n == 0 {
        8
    } else {
        (7 - (n - 1) % 8) as u8
    }
}

/// The frequencies, four bytes each.
pub open spec fn frequency_bytes(frequencies: Seq<u32>, n: nat) -> Seq<u8>
    decreases n,
{
    if n == 0 {
        Seq::empty()
    } else {
        frequency_bytes(frequencies, (n - 1) as nat) + u32_bytes(frequencies[n - 1])
    }
}

/// The Huffman stream for `data`.
pub open spec fn compressed(data: Seq<u8>) -> Seq<u8> {
    let f = frequencies(data);
    let bits = code_bits(codes(tree(f)), data);
    seq![padding(bits.len())] + frequency_bytes(f, 256) + packed(bits)
}

/// Sum of the first `n` frequencies.
pub open spec fn sum(frequencies: Seq<u32>, n: int) -> int
    decreases n,
{
    if n <= 0 {
        0
    } else {
        sum(frequencies, n - 1) + frequencies[n - 1]
    }
}

/// The total of the leaves is the sum of their frequencies.
pub proof fn lemma_total_is_sum(frequencies: Seq<u32>, n: int)
    requires
        0 <= n <= 256,
    ensures
        total(leaf_forest(frequencies), n) == sum(frequencies, n),
    decreases n,
{
    if n > 0 {
        lemma_total_is_sum(frequencies, n - 1);
    }
}

/// Raising one frequency by one raises the sum by one.
pub proof fn lemma_sum_bump(a: Seq<u32>, b: Seq<u32>, at: int, n: int)
    requires
        0 <= n <= a.len(),
        a.len() == b.len(),
        0 <= at < a.len(),
        b[at] == a[at] + 1,
        forall|k: int| 0 <= k < a.len() && k != at ==> a[k] == b[k],
    ensures
        sum(b, n) == sum(a, n) + if at < n {
            1int
        } else {
            0int
        },
    decreases n,
{
    if n > 0 {
        lemma_sum_bump(a, b, at, n - 1);
    }
}

/// Counts the bytes of `input`, each value from one.
pub fn model(input: &[u8]) -> (counts: Vec<u32>)
    requires
        input@.len() + 256 <= u32::MAX,
    ensures
        counts@ == frequencies(input@),
        sum(counts@, 256) == input@.len() + 256,
{
    let mut counts: Vec<u32> = vec![1u32; 256];
    proof {
        lemma_sum_ones(counts@, 256);
    }
    let mut i: usize = 0;
    while i < input.len()
        invariant
            i <= input@.len(),
            input@.len() + 256 <= u32::MAX,
            counts@.len() == 256,
            forall|b: int|
                0 <= b < 256 ==> #[trigger] counts@[b] == 1 + occurrences(
                    input@.take(i as int),
                    b as u8,
                ),
            sum(counts@, 256) == i + 256,
        decreases input@.len() - i,
    {
        let byte: usize = input[i] as usize;
        let ghost before = counts@;
        proof {
            lemma_sum_bounds(before, 256, byte as int);
        }
        counts[byte] = counts[byte] + 1;
        proof {
            lemma_sum_bump(before, counts@, byte as int, 256);
            let more = input@.take(i + 1);
            assert(more.drop_last() =~= input@.take(i as int));
        }
        i += 1;
    }
    assert(input@.take(i as int) =~= input@);
    assert(counts@ =~= frequencies(input@));
    counts
}

/// Frequencies that are all one add up to their number.
pub proof fn lemma_sum_ones(f: Seq<u32>, n: int)
    requires
        0 <= n <= f.len(),
        forall|k: int| 0 <= k < f.len() ==> f[k] == 1,
    ensures
        sum(f, n) == n,
    decreases n,
{
    if n > 0 {
        lemma_sum_ones(f, n - 1);
    }
}

/// No single frequency is above the sum.
pub proof fn lemma_sum_bounds(f: Seq<u32>, n: int, i: int)
    requires
        0 <= i < n <= f.len(),
    ensures
        f[i] <= sum(f, n),
        0 <= sum(f, i),
    decreases n,
{
    if i < n - 1 {
        lemma_sum_bounds(f, n - 1, i);
    } else {
        lemma_sum_nonnegative(f, n - 1);
    }
    lemma_sum_nonnegative(f, i);
}

/// A sum of frequencies is not negative.
pub proof fn lemma_sum_nonnegative(f: Seq<u32>, n: int)
    ensures
        0 <= sum(f, n),
    decreases n,
{
    if n > 0 {
        lemma_sum_nonnegative(f, n - 1);
    }
}

/// Builds the code tree for `counts`.
pub fn grow_tree(counts: &Vec<u32>) -> (root: Node)
    requires
        counts@.len() == 256,
        sum(counts@, 256) <= u32::MAX,
    ensures
        root == tree(counts@),
{
    let mut heap: Vec<Node> = Vec::new();
    let mut i: usize = 0;
    while i < 256
        invariant
            i <= 256,
            counts@.len() == 256,
            heap@ =~= leaf_forest(counts@).take(i as int),
        decreases 256 - i,
    {
        heap.push(Node::new(counts[i], NodeType::Leaf(i as u8)));
        i += 1;
    }
    proof {
        assert(heap@ =~= leaf_forest(counts@));
        lemma_total_is_sum(counts@, 256);
    }
    build_tree(&mut heap);
    heap.remove(0)
}

/// The code of every byte value in the tree `root`.
pub fn code_table(root: &Node) -> (table: Vec<Vec<u8>>)
    ensures
        table@.len() == 256,
        table@.map_values(|c: Vec<u8>| c@) =~= codes(*root),
{
    let mut table: Vec<Vec<u8>> = Vec::new();
    let mut i: usize = 0;
    while i < 256
        invariant
            i <= 256,
            table@.len() == i,
            forall|k: int| 0 <= k < i ==> (#[trigger] table@[k])@ =~= Seq::<u8>::empty(),
        decreases 256 - i,
    {
        table.push(Vec::new());
        i += 1;
    }
    assert(table@.map_values(|c: Vec<u8>| c@) =~= Seq::new(256, |b: int| Seq::<u8>::empty()));
    gen_codes(root, Vec::new(), &mut table);
    table
}

/// Where a packer stands after the bits `all`: full bytes written, and
/// the bits of the byte in the making.
pub open spec fn packing(all: Seq<u8>, written: Seq<u8>, packed_codes: u8, bits: u8) -> bool {
    &&& bits <= 8
    &&& bits <= all.len()
    &&& bits == 0 <==> all.len() == 0
    &&& (all.len() - bits) % 8 == 0
    &&& packed_codes == bits_value(all.skip(all.len() - bits))
    &&& written == packed(all.take(all.len() - bits))
}

/// Full bytes followed by a last byte pack to the packed full bytes
/// followed by the value of the last.
pub proof fn lemma_packed_append(full: Seq<u8>, last: Seq<u8>)
    requires
        full.len() % 8 == 0,
        1 <= last.len() <= 8,
    ensures
        packed(full + last) == packed(full) + seq![bits_value(last)],
    decreases full.len(),
{
    let all = full + last;
    if full.len() == 0 {
        assert(all =~= last);
        assert(packed(full) + seq![bits_value(last)] =~= seq![bits_value(last)]);
    } else {
        assert(all.take(8) =~= full.take(8));
        assert(all.skip(8) =~= full.skip(8) + last);
        lemma_packed_append(full.skip(8), last);
        if full.len() == 8 {
            assert(full.take(8) =~= full);
            assert(packed(full.skip(8)) =~= Seq::<u8>::empty());
            assert(packed(full) =~= seq![bits_value(full)]);
        }
        assert(packed(all) =~= seq![bits_value(full.take(8))] + (packed(full.skip(8))
            + seq![bits_value(last)]));
        assert(packed(full) =~= seq![bits_value(full.take(8))] + packed(full.skip(8)));
    }
}

/// The value of a single bit is the bit.
pub proof fn lemma_bits_value_one(bit: u8)
    ensures
        bits_value(seq![bit]) == bit,
{
    let s = seq![bit];
    assert(s.drop_last() =~= Seq::<u8>::empty());
    assert(bits_value(s.drop_last()) == 0);
}

/// Takes one more bit into the byte in the making, writing the byte out
/// first if it is full.
fn pack_bit(body: &mut ByteWriter, packed_codes: &mut u8, bits: &mut u8, bit: u8, Ghost(all): Ghost<Seq<u8>>)
    requires
        packing(all, old(body).written(), *old(packed_codes), *old(bits)),
    ensures
        packing(all.push(bit), final(body).written(), *final(packed_codes), *final(bits)),
{
    let ghost n = all.len() as int;
    let ghost more = all.push(bit);
    if *bits >= 8 {
        proof {
            let full = all.take(n - 8);
            let last = all.skip(n - 8);
            lemma_packed_append(full, last);
            assert(full + last =~= all);
            assert(more.take(n) =~= all);
            assert(more.skip(n) =~= seq![bit]);
            lemma_bits_value_one(bit);
        }
        body.write_byte(*packed_codes);
        proof {
            assert(body.written() =~= old(body).written() + seq![*old(packed_codes)]);
            assert(body.written() == packed(all));
        }
        *packed_codes = bit;
        *bits = 1;
    } else {
        proof {
            let group = all.skip(n - *bits);
            let grown = more.skip(n - *bits);
            assert(grown =~= group.push(bit));
            assert(grown.drop_last() =~= group);
            assert(more.take(n - *bits) =~= all.take(n - *bits));
        }
        *packed_codes = ((((*packed_codes) as u16) * 2 + (bit as u16)) % 256) as u8;
        *bits = *bits + 1;
        proof {
            let grown = more.skip(n - *old(bits));
            assert(more.skip(more.len() - *bits) =~= grown);
            assert(grown.last() == bit);
            assert(*packed_codes == bits_value(grown));
        }
    }
}

/// Compresses `input` with a Huffman code of its own byte frequencies.
pub fn compress(input: &[u8]) -> (out: Vec<u8>)
    requires
        input@.len() + 256 <= u32::MAX,
    ensures
        out@ == compressed(input@),
{
    let counts = model(input);
    let root = grow_tree(&counts);
    let table = code_table(&root);
    let ghost codes = codes(root);

    let mut body = ByteWriter::new();
    let mut packed_codes: u8 = 0;
    let mut bits: u8 = 0;
    let ghost mut all: Seq<u8> = Seq::empty();
    let mut i: usize = 0;
    proof {
        assert(all.take(0) =~= Seq::<u8>::empty());
        assert(all.skip(0) =~= Seq::<u8>::empty());
    }
    while i < input.len()
        invariant
            i <= input@.len(),
            table@.len() == 256,
            table@.map_values(|c: Vec<u8>| c@) =~= codes,
            all == code_bits(codes, input@.take(i as int)),
            packing(all, body.written(), packed_codes, bits),
        decreases input@.len() - i,
    {
        let code = &table[input[i] as usize];
        let ghost before = all;
        let mut j: usize = 0;
        proof {
            assert(before + code@.take(0) =~= before);
        }
        while j < code.len()
            invariant
                j <= code@.len(),
                all == before + code@.take(j as int),
                packing(all, body.written(), packed_codes, bits),
            decreases code@.len() - j,
        {
            let bit: u8 = code[j];
            pack_bit(&mut body, &mut packed_codes, &mut bits, bit, Ghost(all));
            proof {
                assert(before + code@.take(j + 1) =~= (before + code@.take(j as int)).push(bit));
                all = all.push(bit);
            }
            j += 1;
        }
        proof {
            let more = input@.take(i + 1);
            assert(more.drop_last() =~= input@.take(i as int));
            assert(code@.take(code@.len() as int) =~= code@);
            assert(code@ == table@.map_values(|c: Vec<u8>| c@)[input@[i as int] as int]);
        }
        i += 1;
    }
    proof {
        assert(input@.take(i as int) =~= input@);
        let n = all.len() as int;
        if bits > 0 {
            lemma_packed_append(all.take(n - bits), all.skip(n - bits));
            assert(all.take(n - bits) + all.skip(n - bits) =~= all);
        } else {
            assert(all =~= Seq::<u8>::empty());
        }
    }
    if bits > 0 {
        body.write_byte(packed_codes);
    }
    assert(body.written() =~= packed(all));
    assert(8 - bits == padding(all.len()));

    let mut out = ByteWriter::new();
    out.write_byte(8 - bits);
    let mut k: usize = 0;
    while k < 256
        invariant
            k <= 256,
            bits <= 8,
            counts@.len() == 256,
            out.written() =~= seq![(8 - bits) as u8] + frequency_bytes(counts@, k as nat),
        decreases 256 - k,
    {
        out.write_u32(counts[k]);
        k += 1;
    }
    let body_bytes = body.into_bytes();
    out.write_(body_bytes.as_slice());
    out.into_bytes()
}

} // verus!
