//! Huffman decompression: the code tree is built again from the
//! frequencies at the start of the stream, and the bits that follow are
//! walked down the tree, one byte out at every leaf.

use vstd::prelude::*;
use crate::bufio::get_u32;
use crate::bufio::u32_at;
use crate::error::DecodeError;
use crate::huffman::encoder::HEADER;
use crate::huffman::encoder::grow_tree;
use crate::huffman::encoder::sum;
use crate::huffman::encoder::tree;
use crate::huffman::tree::Node;
use crate::huffman::tree::NodeType;
use crate::bits::bit_weight;
use crate::bits::two_to;

verus! {

/// The low `n` bits of `b`, highest first.
pub open spec fn low_bits(b: int, n: nat) -> Seq<u8>
    decreases n,
{
    if n == 0 {
        Seq::empty()
    } else {
        low_bits(b / 2, (n - 1) as nat).push((b % 2) as u8)
    }
}

/// The bits packed in `body`, whose last byte has `padding` unused bits
/// at its high end.
pub open spec fn unpacked(body: Seq<u8>, padding: u8) -> Seq<u8>
    decreases body.len(),
{
    if body.len() == 0 {
        Seq::empty()
    } else if body.len() == 1 {
        low_bits(body[0] as int, (8 - padding) as nat)
    } else {
        low_bits(body[0] as int, 8) + unpacked(body.skip(1), padding)
    }
}

/// The bytes found by walking `bits` down the tree from `cur`, starting
/// again at `root` after every leaf. Bits that stop short of a leaf give
/// nothing.
pub open spec fn walked(root: Node, cur: Node, bits: Seq<u8>) -> Seq<u8>
    decreases bits.len(),
{
    if bits.len() == 0 {
        Seq::empty()
    } else {
        let next = cur.child(bits[0]);
        match next.node_type {
            NodeType::Leaf(byte) => seq![byte] + walked(root, root, bits.skip(1)),
            NodeType::Internal(_, _) => walked(root, next, bits.skip(1)),
        }
    }
}

/// The frequencies in the header of `input`.
pub open spec fn header_frequencies(input: Seq<u8>) -> Seq<u32> {
    Seq::new(256, |i: int| u32_at(input, 1 + 4 * i))
}

/// What the Huffman stream `input` decompresses to. A stream shorter
/// than its header is cut short; frequencies that do not add up within
/// 32 bits, or a padding count above 7 before packed bits, are not a
/// header.
pub open spec fn decompressed(input: Seq<u8>) -> Result<Seq<u8>, DecodeError> {
    if input.len() < HEADER {
        Err(DecodeError::UnexpectedEof)
    } else if sum(header_frequencies(input), 256) > u32::MAX {
        Err(DecodeError::InvalidHeader)
    } else if input.len() > HEADER && input[0] > 7 {
        Err(DecodeError::InvalidHeader)
    } else {
        let root = tree(header_frequencies(input));
        Ok(walked(root, root, unpacked(input.skip(HEADER as int), input[0])))
    }
}

/// Bit `k` of the low `n` bits, highest first, by division.
pub proof fn lemma_low_bits_index(b: int, n: nat, k: int)
    requires
        0 <= k < n <= 8,
        0 <= b,
    ensures
        low_bits(b, n).len() == n,
        low_bits(b, n)[k] == (b / two_to(n - 1 - k)) % 2,
    decreases n,
{
    lemma_low_bits_len(b, n);
    if k < n - 1 {
        lemma_low_bits_index(b / 2, (n - 1) as nat, k);
        assert((b / 2) / two_to(n - 2 - k) == b / two_to(n - 1 - k));
    }
}

/// There are as many low bits as asked for.
pub proof fn lemma_low_bits_len(b: int, n: nat)
    ensures
        low_bits(b, n).len() == n,
    decreases n,
{
    if n > 0 {
        lemma_low_bits_len(b / 2, (n - 1) as nat);
    }
}

/// Walking a run of bits can be done in two parts.
pub proof fn lemma_walked_push(root: Node, cur: Node, bits: Seq<u8>, bit: u8)
    ensures
        walked(root, cur, bits.push(bit)) == walked(root, cur, bits) + walked(
            root,
            landing(root, cur, bits),
            seq![bit],
        ),
    decreases bits.len(),
{
    let more = bits.push(bit);
    if bits.len() == 0 {
        assert(more =~= seq![bit]);
        assert(walked(root, cur, bits) + walked(root, cur, seq![bit]) =~= walked(
            root,
            cur,
            seq![bit],
        ));
    } else {
        let next = cur.child(bits[0]);
        assert(more.skip(1) =~= bits.skip(1).push(bit));
        assert(more[0] == bits[0]);
        match next.node_type {
            NodeType::Leaf(byte) => {
                lemma_walked_push(root, root, bits.skip(1), bit);
                assert(walked(root, cur, more) =~= (seq![byte] + walked(
                    root,
                    root,
                    bits.skip(1),
                )) + walked(root, landing(root, root, bits.skip(1)), seq![bit]));
            },
            NodeType::Internal(_, _) => {
                lemma_walked_push(root, next, bits.skip(1), bit);
            },
        }
    }
}

/// Where a walk stands after `bits`: at the root after a leaf, else at
/// the node reached.
pub open spec fn landing(root: Node, cur: Node, bits: Seq<u8>) -> Node
    decreases bits.len(),
{
    if bits.len() == 0 {
        cur
    } else {
        let next = cur.child(bits[0]);
        if next.is_leaf() {
            landing(root, root, bits.skip(1))
        } else {
            landing(root, next, bits.skip(1))
        }
    }
}

/// Where a walk stands after one more bit.
pub proof fn lemma_landing_push(root: Node, cur: Node, bits: Seq<u8>, bit: u8)
    ensures
        landing(root, cur, bits.push(bit)) == landing(
            root,
            landing(root, cur, bits),
            seq![bit],
        ),
    decreases bits.len(),
{
    let more = bits.push(bit);
    if bits.len() == 0 {
        assert(more =~= seq![bit]);
    } else {
        let next = cur.child(bits[0]);
        assert(more.skip(1) =~= bits.skip(1).push(bit));
        assert(more[0] == bits[0]);
        if next.is_leaf() {
            lemma_landing_push(root, root, bits.skip(1), bit);
        } else {
            lemma_landing_push(root, next, bits.skip(1), bit);
        }
    }
}

/// A walk of one bit.
pub proof fn lemma_walk_one(root: Node, cur: Node, bit: u8)
    ensures
        walked(root, cur, seq![bit]) =~= match cur.child(bit).node_type {
            NodeType::Leaf(byte) => seq![byte],
            NodeType::Internal(_, _) => Seq::empty(),
        },
        landing(root, cur, seq![bit]) == if cur.child(bit).is_leaf() {
            root
        } else {
            cur.child(bit)
        },
{
    let one = seq![bit];
    assert(one.skip(1) =~= Seq::<u8>::empty());
    assert(one[0] == bit);
    assert(walked(root, root, one.skip(1)) =~= Seq::<u8>::empty());
    assert(walked(root, cur.child(bit), one.skip(1)) =~= Seq::<u8>::empty());
    assert(landing(root, root, one.skip(1)) == root);
    assert(landing(root, cur.child(bit), one.skip(1)) == cur.child(bit));
}

/// The subtree of `node` that `bit` leads to.
fn step<'a>(node: &'a Node, bit: u8) -> (next: &'a Node)
    ensures
        *next == node.child(bit),
{
    match &node.node_type {
        NodeType::Internal(left, right) => if bit == 0 {
            left
        } else {
            right
        },
        NodeType::Leaf(_) => node,
    }
}

/// Decompresses the Huffman stream `input`.
pub fn decompress(input: &[u8]) -> (r: Result<Vec<u8>, DecodeError>)
    ensures
        match decompressed(input@) {
            Ok(data) => r is Ok && r->Ok_0@ == data,
            Err(e) => r == Err::<Vec<u8>, DecodeError>(e),
        },
{
    if input.len() < HEADER {
        return Err(DecodeError::UnexpectedEof);
    }
    let padding: u8 = input[0];
    let mut counts: Vec<u32> = Vec::new();
    let mut total: u64 = 0;
    let mut i: usize = 0;
    while i < 256
        invariant
            i <= 256,
            input@.len() >= HEADER,
            counts@ =~= header_frequencies(input@).take(i as int),
            total == sum(header_frequencies(input@), i as int),
            total <= i * 0xFFFF_FFFF,
        decreases 256 - i,
    {
        let f: u32 = get_u32(input, 1 + 4 * i);
        counts.push(f);
        total = total + (f as u64);
        i += 1;
    }
    assert(counts@ =~= header_frequencies(input@));
    if total > 0xFFFF_FFFF {
        return Err(DecodeError::InvalidHeader);
    }
    if input.len() > HEADER && padding > 7 {
        return Err(DecodeError::InvalidHeader);
    }
    let root = grow_tree(&counts);
    let body = vstd::slice::slice_subrange(input, HEADER, input.len());
    assert(body@ =~= input@.skip(HEADER as int));
    let mut out: Vec<u8> = Vec::new();
    let mut cur: &Node = &root;
    let ghost mut bits: Seq<u8> = Seq::empty();
    let mut at: usize = 0;
    proof {
        assert(body@.skip(0) =~= body@);
    }
    while at < body.len()
        invariant
            at <= body@.len(),
            body@.len() > 0 ==> padding <= 7,
            out@ == walked(root, root, bits),
            *cur == landing(root, root, bits),
            bits + unpacked(body@.skip(at as int), padding) =~= unpacked(body@, padding),
        decreases body@.len() - at,
    {
        let byte: u8 = body[at];
        let n: u8 = if at + 1 == body.len() { 8 - padding } else { 8 };
        let ghost before = bits;
        let ghost group = low_bits(byte as int, n as nat);
        proof {
            lemma_low_bits_len(byte as int, n as nat);
            let here = body@.skip(at as int);
            assert(here[0] == byte);
            assert(here.skip(1) =~= body@.skip(at + 1));
            if at + 1 == body@.len() {
                assert(unpacked(here, padding) == group);
                assert(unpacked(body@.skip(at + 1), padding) =~= Seq::<u8>::empty());
            }
            assert(unpacked(here, padding) =~= group + unpacked(body@.skip(at + 1), padding));
            assert(before + group.take(0) =~= before);
        }
        let mut k: u8 = 0;
        while k < n
            invariant
                k <= n <= 8,
                group == low_bits(byte as int, n as nat),
                group.len() == n,
                bits == before + group.take(k as int),
                out@ == walked(root, root, bits),
                *cur == landing(root, root, bits),
            decreases n - k,
        {
            let bit: u8 = (byte / bit_weight(n - 1 - k)) % 2;
            proof {
                lemma_low_bits_index(byte as int, n as nat, k as int);
                lemma_walked_push(root, root, bits, bit);
                lemma_landing_push(root, root, bits, bit);
                lemma_walk_one(root, *cur, bit);
                assert(before + group.take(k + 1) =~= bits.push(bit));
            }
            let next: &Node = step(cur, bit);
            let ghost written = out@;
            match &next.node_type {
                NodeType::Leaf(b) => {
                    out.push(*b);
                    cur = &root;

                },
                NodeType::Internal(_, _) => {
                    cur = next;
                    proof {
                        assert(written + Seq::<u8>::empty() =~= written);
                    }
                },
            }
            proof {
                bits = bits.push(bit);
            }
            k += 1;
        }
        proof {
            assert(group.take(n as int) =~= group);
            assert((before + group) + unpacked(body@.skip(at + 1), padding) =~= before + (group
                + unpacked(body@.skip(at + 1), padding)));
        }
        at += 1;
    }
    proof {
        assert(unpacked(body@.skip(at as int), padding) =~= Seq::<u8>::empty());
        assert(bits + Seq::<u8>::empty() =~= bits);
    }
    Ok(out)
}

} // verus!
