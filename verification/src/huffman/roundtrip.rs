//! Why Huffman decompression undoes compression: the header gives back
//! the frequencies, the frequencies the tree, the packed bytes the bits,
//! and the bits, walked down the tree, the bytes.

use vstd::prelude::*;
use crate::bufio::lemma_u32_bytes_value;
use crate::bufio::u32_at;
use crate::bufio::u32_bytes;
use crate::error::DecodeError;
use crate::huffman::decoder::decompressed;
use crate::huffman::decoder::header_frequencies;
use crate::huffman::decoder::low_bits;
use crate::huffman::decoder::unpacked;
use crate::huffman::decoder::walked;
use crate::huffman::encoder::bits_value;
use crate::huffman::encoder::code_bits;
use crate::huffman::encoder::codes;
use crate::huffman::encoder::compressed;
use crate::huffman::encoder::frequencies;
use crate::huffman::encoder::frequency_bytes;
use crate::huffman::encoder::lemma_sum_bump;
use crate::huffman::encoder::occurrences;
use crate::huffman::encoder::packed;
use crate::huffman::encoder::padding;
use crate::huffman::encoder::sum;
use crate::huffman::encoder::tree;
use crate::huffman::encoder::HEADER;
use crate::huffman::tree::first_min;
use crate::huffman::tree::joined;
use crate::huffman::tree::joined_fully;
use crate::huffman::tree::leaf_forest;
use crate::huffman::tree::lemma_code_leads_to_leaf;
use crate::huffman::tree::lemma_first_min_bounds;
use crate::huffman::tree::lemma_weighed_nonnegative;
use crate::huffman::tree::lemma_weighed_push;
use crate::huffman::tree::lemma_weighed_remove;
use crate::huffman::tree::lemma_with_codes_len;
use crate::huffman::tree::weighed;
use crate::huffman::tree::with_codes;
use crate::huffman::tree::Node;
use crate::huffman::tree::NodeType;
use crate::bits::two_to;

verus! {

/// No byte is at two leaves of the tree.
pub open spec fn distinct(node: Node) -> bool
    decreases node,
{
    match node.node_type {
        NodeType::Internal(left, right) => {
            &&& distinct(*left)
            &&& distinct(*right)
            &&& forall|b: u8| !(#[trigger] left.has_leaf(b) && right.has_leaf(b))
        },
        NodeType::Leaf(_) => true,
    }
}

/// In a tree without repeated bytes, the table of codes holds, for every
/// byte of the tree, the path to its leaf.
pub proof fn lemma_with_codes(node: Node, prefix: Seq<u8>, table: Seq<Seq<u8>>, b: u8)
    requires
        distinct(node),
        table.len() == 256,
    ensures
        with_codes(node, prefix, table)[b as int] == if node.has_leaf(b) {
            prefix + node.code(b)
        } else {
            table[b as int]
        },
    decreases node,
{
    match node.node_type {
        NodeType::Internal(left, right) => {
            let half = with_codes(*left, prefix.push(0), table);
            lemma_with_codes_len(*left, prefix.push(0), table);
            lemma_with_codes(*left, prefix.push(0), table, b);
            lemma_with_codes(*right, prefix.push(1), half, b);
            assert(with_codes(node, prefix, table) == with_codes(*right, prefix.push(1), half));
            if left.has_leaf(b) {
                assert(!right.has_leaf(b));
                assert(prefix.push(0) + left.code(b) =~= prefix + (seq![0u8] + left.code(b)));
            } else if right.has_leaf(b) {
                assert(prefix.push(1) + right.code(b) =~= prefix + (seq![1u8] + right.code(b)));
            }
        },
        NodeType::Leaf(x) => {
            if x == b {
                assert(prefix + node.code(b) =~= prefix);
            }
        },
    }
}

/// 1 for a tree with `b` at a leaf, 0 for any other.
pub open spec fn holds(b: u8) -> spec_fn(Node) -> int {
    |node: Node|
        if node.has_leaf(b) {
            1int
        } else {
            0int
        }
}

/// Number of trees of the forest with `b` at a leaf.
pub open spec fn owners(forest: Seq<Node>, b: u8) -> int {
    weighed(forest, forest.len() as int, holds(b))
}

/// Every byte is at exactly one leaf of the forest.
pub open spec fn sound(forest: Seq<Node>) -> bool {
    &&& forall|i: int| 0 <= i < forest.len() ==> distinct(#[trigger] forest[i])
    &&& forall|b: u8| #[trigger] owners(forest, b) == 1
}

/// Joining the two rarest trees keeps a byte at exactly one leaf: the
/// two trees do not both have it.
pub proof fn lemma_joined_owners(forest: Seq<Node>, b: u8)
    requires
        owners(forest, b) == 1,
        forest.len() >= 2,
    ensures
        owners(joined(forest), b) == 1,
        ({
            let i = first_min(forest, forest.len() as int);
            let rest = forest.remove(i);
            let j = first_min(rest, rest.len() as int);
            !(forest[i].has_leaf(b) && rest[j].has_leaf(b))
        }),
{
    let i = first_min(forest, forest.len() as int);
    lemma_first_min_bounds(forest, forest.len() as int);
    let rest = forest.remove(i);
    let j = first_min(rest, rest.len() as int);
    lemma_first_min_bounds(rest, rest.len() as int);
    let a = forest[i];
    let c = rest[j];
    let kept = rest.remove(j);
    let join = joined(forest).last();
    assert(joined(forest) =~= kept.push(join));
    let w = holds(b);
    lemma_weighed_remove(forest, i, w);
    lemma_weighed_remove(rest, j, w);
    lemma_weighed_nonnegative(kept, kept.len() as int, w);
    lemma_weighed_push(kept, join, w);
    assert(join.has_leaf(b) == (a.has_leaf(b) || c.has_leaf(b)));
}

/// Joining the two rarest trees keeps every byte at exactly one leaf.
pub proof fn lemma_joined_sound(forest: Seq<Node>)
    requires
        sound(forest),
        forest.len() >= 2,
    ensures
        sound(joined(forest)),
        joined(forest).len() == forest.len() - 1,
        !joined(forest).last().is_leaf(),
{
    let i = first_min(forest, forest.len() as int);
    lemma_first_min_bounds(forest, forest.len() as int);
    let rest = forest.remove(i);
    let j = first_min(rest, rest.len() as int);
    lemma_first_min_bounds(rest, rest.len() as int);
    let a = forest[i];
    let c = rest[j];
    let kept = rest.remove(j);
    let join = joined(forest).last();
    assert(joined(forest) =~= kept.push(join));
    assert forall|b: u8| #[trigger] owners(joined(forest), b) == 1 by {
        lemma_joined_owners(forest, b);
    }
    assert forall|b: u8| !(#[trigger] a.has_leaf(b) && c.has_leaf(b)) by {
        lemma_joined_owners(forest, b);
    }
    assert(distinct(a));
    assert(distinct(c));
    assert(distinct(join));
    assert forall|k: int| 0 <= k < joined(forest).len() implies distinct(
        #[trigger] joined(forest)[k],
    ) by {
        if k < kept.len() {
            let from_rest = if k < j { k } else { k + 1 };
            let from_forest = if from_rest < i { from_rest } else { from_rest + 1 };
            assert(kept[k] == rest[from_rest]);
            assert(rest[from_rest] == forest[from_forest]);
        }
    }
}

/// Joining to the end leaves one tree with every byte at exactly one
/// leaf.
pub proof fn lemma_joined_fully_sound(forest: Seq<Node>)
    requires
        sound(forest),
        forest.len() >= 1,
    ensures
        joined_fully(forest).len() == 1,
        sound(joined_fully(forest)),
        forest.len() >= 2 ==> !joined_fully(forest)[0].is_leaf(),
    decreases forest.len(),
{
    if forest.len() >= 2 {
        lemma_joined_sound(forest);
        lemma_joined_fully_sound(joined(forest));
        if forest.len() == 2 {
            assert(joined_fully(joined(forest)) == joined(forest));
        }
    }
}

/// Among the first `n` leaves, only leaf `b` has `b`.
pub proof fn lemma_leaf_owners(frequencies: Seq<u32>, b: u8, n: int)
    requires
        0 <= n <= 256,
    ensures
        weighed(leaf_forest(frequencies), n, holds(b)) == if b < n {
            1int
        } else {
            0int
        },
    decreases n,
{
    if n > 0 {
        lemma_leaf_owners(frequencies, b, n - 1);
        let leaf = leaf_forest(frequencies)[n - 1];
        assert(leaf.has_leaf(b) == (b == n - 1));
    }
}

/// The code tree has every byte at exactly one leaf, and is no leaf.
pub proof fn lemma_tree_sound(frequencies: Seq<u32>)
    ensures
        distinct(tree(frequencies)),
        !tree(frequencies).is_leaf(),
        forall|b: u8| #[trigger] tree(frequencies).has_leaf(b),
{
    let forest = leaf_forest(frequencies);
    assert forall|b: u8| #[trigger] owners(forest, b) == 1 by {
        lemma_leaf_owners(frequencies, b, 256);
    }
    lemma_joined_fully_sound(forest);
    let last = joined_fully(forest);
    assert forall|b: u8| #[trigger] tree(frequencies).has_leaf(b) by {
        assert(owners(last, b) == 1);
        assert(weighed(last, 0, holds(b)) == 0);
    }
}

/// Walking the code of a byte, from a node that has it below, gives the
/// byte and goes back to the root.
pub proof fn lemma_walk_code(root: Node, cur: Node, b: u8, rest: Seq<u8>)
    requires
        cur.has_leaf(b),
        !cur.is_leaf(),
    ensures
        walked(root, cur, cur.code(b) + rest) == seq![b] + walked(root, root, rest),
    decreases cur,
{
    match cur.node_type {
        NodeType::Internal(left, right) => {
            let sub = if left.has_leaf(b) { *left } else { *right };
            let bits = cur.code(b) + rest;
            assert(cur.child(bits[0]) == sub);
            assert(bits.skip(1) =~= sub.code(b) + rest);
            if sub.is_leaf() {
                assert(sub.code(b) + rest =~= rest);
            } else {
                lemma_walk_code(root, sub, b, rest);
            }
        },
        NodeType::Leaf(_) => {},
    }
}

/// The bits of some bytes are the code of the first and the bits of the
/// others.
pub proof fn lemma_code_bits_front(table: Seq<Seq<u8>>, data: Seq<u8>)
    requires
        data.len() > 0,
    ensures
        code_bits(table, data) =~= table[data[0] as int] + code_bits(table, data.skip(1)),
    decreases data.len(),
{
    let front = data.drop_last();
    if front.len() == 0 {
        assert(data.skip(1) =~= Seq::<u8>::empty());
        assert(code_bits(table, front) =~= Seq::<u8>::empty());
    } else {
        lemma_code_bits_front(table, front);
        assert(front.skip(1) =~= data.skip(1).drop_last());
        assert(front[0] == data[0]);
        assert(data.skip(1).last() == data.last());
    }
}

/// Walking the bits of some bytes gives the bytes.
pub proof fn lemma_walk_data(root: Node, table: Seq<Seq<u8>>, data: Seq<u8>)
    requires
        !root.is_leaf(),
        forall|b: u8| #[trigger] root.has_leaf(b),
        forall|b: u8| #[trigger] table[b as int] == root.code(b),
    ensures
        walked(root, root, code_bits(table, data)) =~= data,
    decreases data.len(),
{
    if data.len() > 0 {
        let b = data[0];
        let rest = code_bits(table, data.skip(1));
        lemma_code_bits_front(table, data);
        assert(root.has_leaf(b));
        assert(table[b as int] == root.code(b));
        lemma_walk_code(root, root, b, rest);
        lemma_walk_data(root, table, data.skip(1));
        assert(seq![b] + data.skip(1) =~= data);
    }
}

/// Every bit is 0 or 1.
pub open spec fn binary(bits: Seq<u8>) -> bool {
    forall|k: int| 0 <= k < bits.len() ==> #[trigger] bits[k] <= 1
}

/// The codes of a sound tree are made of bits.
pub proof fn lemma_code_bits_binary(root: Node, table: Seq<Seq<u8>>, data: Seq<u8>)
    requires
        forall|b: u8| #[trigger] root.has_leaf(b),
        forall|b: u8| #[trigger] table[b as int] == root.code(b),
    ensures
        binary(code_bits(table, data)),
    decreases data.len(),
{
    if data.len() > 0 {
        let b = data.last();
        lemma_code_bits_binary(root, table, data.drop_last());
        assert(root.has_leaf(b));
        assert(table[b as int] == root.code(b));
        lemma_code_leads_to_leaf(root, b);
    }
}

/// Up to eight bits are the low bits of their value.
pub proof fn lemma_low_bits_of_value(bits: Seq<u8>)
    requires
        bits.len() <= 8,
        binary(bits),
    ensures
        low_bits(bits_value(bits) as int, bits.len()) =~= bits,
        bits_value(bits) < two_to(bits.len() as int),
    decreases bits.len(),
{
    if bits.len() > 0 {
        let front = bits.drop_last();
        lemma_low_bits_of_value(front);
        let v = bits_value(front) as int * 2 + bits.last();
        assert(bits_value(bits) == v);
        assert(v / 2 == bits_value(front));
        assert(v % 2 == bits.last());
        assert(front.push(bits.last()) =~= bits);
    }
}

/// Packing leaves at least one byte for at least one bit.
pub proof fn lemma_packed_nonempty(bits: Seq<u8>)
    requires
        bits.len() > 0,
    ensures
        packed(bits).len() > 0,
{
}

/// Unpacking gives back the bits that were packed.
pub proof fn lemma_unpacked_packed(bits: Seq<u8>)
    requires
        binary(bits),
    ensures
        unpacked(packed(bits), padding(bits.len())) =~= bits,
    decreases bits.len(),
{
    let pad = padding(bits.len());
    if bits.len() == 0 {
    } else if bits.len() <= 8 {
        lemma_low_bits_of_value(bits);
        assert(packed(bits)[0] == bits_value(bits));
        assert((8 - pad) as nat == bits.len());
    } else {
        let head = bits.take(8);
        let tail = bits.skip(8);
        lemma_low_bits_of_value(head);
        lemma_unpacked_packed(tail);
        lemma_packed_nonempty(tail);
        let body = packed(bits);
        assert(body =~= seq![bits_value(head)] + packed(tail));
        assert(body.skip(1) =~= packed(tail));
        assert(padding(tail.len()) == pad);
        assert(head + tail =~= bits);
    }
}

/// The frequencies are written four bytes each.
pub proof fn lemma_frequency_bytes(f: Seq<u32>, n: nat, i: int)
    requires
        0 <= i < n,
    ensures
        frequency_bytes(f, n).len() == 4 * n,
        u32_at(frequency_bytes(f, n), 4 * i) == f[i],
    decreases n,
{
    let all = frequency_bytes(f, n);
    let before = frequency_bytes(f, (n - 1) as nat);
    lemma_frequency_bytes_len(f, (n - 1) as nat);
    lemma_u32_bytes_value(f[n - 1]);
    if i < n - 1 {
        lemma_frequency_bytes(f, (n - 1) as nat, i);
        assert(all[4 * i] == before[4 * i]);
        assert(all[4 * i + 1] == before[4 * i + 1]);
        assert(all[4 * i + 2] == before[4 * i + 2]);
        assert(all[4 * i + 3] == before[4 * i + 3]);
    } else {
        let last = u32_bytes(f[n - 1]);
        assert(all[4 * i] == last[0]);
        assert(all[4 * i + 1] == last[1]);
        assert(all[4 * i + 2] == last[2]);
        assert(all[4 * i + 3] == last[3]);
    }
}

/// Every frequency takes four bytes.
pub proof fn lemma_frequency_bytes_len(f: Seq<u32>, n: nat)
    ensures
        frequency_bytes(f, n).len() == 4 * n,
    decreases n,
{
    if n > 0 {
        lemma_frequency_bytes_len(f, (n - 1) as nat);
    }
}

/// A byte occurs at most as often as there are bytes.
pub proof fn lemma_occurrences_bound(data: Seq<u8>, b: u8)
    ensures
        occurrences(data, b) <= data.len(),
    decreases data.len(),
{
    if data.len() > 0 {
        lemma_occurrences_bound(data.drop_last(), b);
    }
}

/// The frequencies add up to the number of bytes and one for each value.
pub proof fn lemma_frequencies_sum(data: Seq<u8>)
    requires
        data.len() + 256 <= u32::MAX,
    ensures
        sum(frequencies(data), 256) == data.len() + 256,
    decreases data.len(),
{
    if data.len() == 0 {
        crate::huffman::encoder::lemma_sum_ones(frequencies(data), 256);
    } else {
        let front = data.drop_last();
        lemma_frequencies_sum(front);
        let a = frequencies(front);
        let b = frequencies(data);
        let at = data.last() as int;
        assert forall|k: int| 0 <= k < 256 implies (if k == at {
            b[k] == a[k] + 1
        } else {
            a[k] == b[k]
        }) by {
            lemma_occurrences_bound(front, k as u8);
        }
        lemma_sum_bump(a, b, at, 256);
    }
}

/// Decompressing what compression produced gives back the data.
pub proof fn lemma_round_trip(data: Seq<u8>)
    requires
        data.len() + 256 <= u32::MAX,
    ensures
        decompressed(compressed(data)) == Ok::<Seq<u8>, DecodeError>(data),
{
    let f = frequencies(data);
    let root = tree(f);
    let table = codes(root);
    let bits = code_bits(table, data);
    let head = seq![padding(bits.len())] + frequency_bytes(f, 256);
    let out = compressed(data);
    lemma_frequency_bytes_len(f, 256);
    assert(out =~= head + packed(bits));
    assert(out.len() >= HEADER);
    assert(out[0] == padding(bits.len()));
    assert(out.skip(HEADER as int) =~= packed(bits));
    assert(header_frequencies(out) =~= f) by {
        assert forall|i: int| 0 <= i < 256 implies u32_at(out, 1 + 4 * i) == f[i] by {
            lemma_frequency_bytes(f, 256, i);
            let fb = frequency_bytes(f, 256);
            assert(out[1 + 4 * i] == fb[4 * i]);
            assert(out[1 + 4 * i + 1] == fb[4 * i + 1]);
            assert(out[1 + 4 * i + 2] == fb[4 * i + 2]);
            assert(out[1 + 4 * i + 3] == fb[4 * i + 3]);
        }
    }
    lemma_frequencies_sum(data);
    lemma_tree_sound(f);
    let empty = Seq::new(256, |b: int| Seq::<u8>::empty());
    assert forall|b: u8| #[trigger] table[b as int] == root.code(b) by {
        lemma_with_codes(root, Seq::empty(), empty, b);
        assert(root.has_leaf(b));
        assert(Seq::<u8>::empty() + root.code(b) =~= root.code(b));
    }
    lemma_code_bits_binary(root, table, data);
    lemma_unpacked_packed(bits);
    lemma_walk_data(root, table, data);
    if bits.len() > 0 {
        lemma_packed_nonempty(bits);
    } else {
        assert(packed(bits).len() == 0);
    }
}

} // verus!
