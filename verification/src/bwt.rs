//! The Burrows-Wheeler transform: every block of the input is replaced
//! by the bytes that precede its rotations, taken in the order of the
//! sorted rotations.
//!
//! A stream starts with the block size, eight bytes, least significant
//! first. Every block follows as eight bytes that tell where the
//! rotation starting at the second byte has gone, and the transformed
//! bytes.

use vstd::prelude::*;
use vstd::relations::sorted_by;
use vstd::relations::total_ordering;
use vstd::seq_lib::lemma_sorted_unique;
use vstd::seq_lib::lemma_multiset_commutative;
use crate::bufio::get_u64;
use crate::bufio::put_bytes;
use crate::bufio::put_u64;
use crate::bufio::u64_at;
use crate::bufio::u64_bytes;
use crate::error::DecodeError;
use crate::error::prefixed_ok;

verus! {

/// Byte `k` of the rotation of `block` that starts at `a`.
pub open spec fn rotated(block: Seq<u8>, a: int, k: int) -> u8 {
    block[(a + k) % (block.len() as int)]
}

/// Whether the rotation at `a` comes no later than the rotation at `b`,
/// given that they agree on their first `k` bytes: the first byte in
/// which they differ decides; equal rotations go by where they start.
pub open spec fn rot_le(block: Seq<u8>, a: int, b: int, k: int) -> bool
    decreases block.len() - k,
{
    if k >= block.len() {
        a <= b
    } else if rotated(block, a, k) < rotated(block, b, k) {
        true
    } else if rotated(block, a, k) > rotated(block, b, k) {
        false
    } else {
        rot_le(block, a, b, k + 1)
    }
}

/// The order of the rotations, as a relation on their starting points.
pub open spec fn rotation_order(block: Seq<u8>) -> spec_fn(u32, u32) -> bool {
    |a: u32, b: u32| rot_le(block, a as int, b as int, 0)
}

/// A rotation comes no later than itself.
pub proof fn lemma_rot_le_reflexive(block: Seq<u8>, a: int, k: int)
    ensures
        rot_le(block, a, a, k),
    decreases block.len() - k,
{
    if k < block.len() {
        lemma_rot_le_reflexive(block, a, k + 1);
    }
}

/// Of two rotations one comes no later than the other, and both do
/// only if they start at the same place.
pub proof fn lemma_rot_le_connected(block: Seq<u8>, a: int, b: int, k: int)
    ensures
        rot_le(block, a, b, k) || rot_le(block, b, a, k),
        rot_le(block, a, b, k) && rot_le(block, b, a, k) ==> a == b,
    decreases block.len() - k,
{
    if k < block.len() {
        lemma_rot_le_connected(block, a, b, k + 1);
    }
}

/// No later than a rotation that is no later than a third is no later
/// than the third.
pub proof fn lemma_rot_le_transitive(block: Seq<u8>, a: int, b: int, c: int, k: int)
    requires
        rot_le(block, a, b, k),
        rot_le(block, b, c, k),
    ensures
        rot_le(block, a, c, k),
    decreases block.len() - k,
{
    if k < block.len() {
        let x = rotated(block, a, k);
        let y = rotated(block, b, k);
        let z = rotated(block, c, k);
        if x == y && y == z {
            lemma_rot_le_transitive(block, a, b, c, k + 1);
        }
    }
}

/// The order of the rotations is a total order.
pub proof fn lemma_rotation_order_total(block: Seq<u8>)
    ensures
        total_ordering(rotation_order(block)),
{
    let r = rotation_order(block);
    assert forall|x: u32| #[trigger] r(x, x) by {
        lemma_rot_le_reflexive(block, x as int, 0);
    }
    assert forall|x: u32, y: u32| #[trigger] r(x, y) && #[trigger] r(y, x) implies x == y by {
        lemma_rot_le_connected(block, x as int, y as int, 0);
    }
    assert forall|x: u32, y: u32| #[trigger] r(x, y) || #[trigger] r(y, x) by {
        lemma_rot_le_connected(block, x as int, y as int, 0);
    }
    assert forall|x: u32, y: u32, z: u32| #[trigger] r(x, y) && #[trigger] r(y, z) implies r(
        x,
        z,
    ) by {
        lemma_rot_le_transitive(block, x as int, y as int, z as int, 0);
    }
}

/// The starting points `0, 1, 2, ...` of the rotations of a block of `n`
/// bytes.
pub open spec fn starts(n: nat) -> Seq<u32> {
    Seq::new(n, |i: int| i as u32)
}

/// The starting points of the rotations of `block`, sorted by rotation.
pub open spec fn sorted_rotations(block: Seq<u8>) -> Seq<u32> {
    starts(block.len()).sort_by(rotation_order(block))
}

/// The transformed block: for each rotation in sorted order, the byte
/// that precedes it.
pub open spec fn last_column(block: Seq<u8>, order: Seq<u32>) -> Seq<u8> {
    Seq::new(order.len(), |i: int| rotated(block, order[i] as int, block.len() - 1))
}

/// Where the starting point `start` has gone in `order`, looking at its
/// first `n` places: its last place among them, 0 if it has none.
pub open spec fn place_of(order: Seq<u32>, start: u32, n: int) -> int
    decreases n,
{
    if n <= 0 {
        0
    } else if order[n - 1] == start {
        n - 1
    } else {
        place_of(order, start, n - 1)
    }
}

/// A transformed block as it is written.
pub open spec fn transformed_block(block: Seq<u8>) -> Seq<u8> {
    let order = sorted_rotations(block);
    let second: u32 = if block.len() > 1 { 1 } else { 0 };
    u64_bytes(place_of(order, second, order.len() as int) as u64) + last_column(block, order)
}

/// The transformed blocks of `data`, cut every `capacity` bytes.
pub open spec fn transformed_from(data: Seq<u8>, capacity: nat) -> Seq<u8>
    decreases data.len(),
{
    if data.len() == 0 || capacity == 0 {
        Seq::empty()
    } else {
        let n = if data.len() < capacity { data.len() } else { capacity };
        transformed_block(data.take(n as int)) + transformed_from(data.skip(n as int), capacity)
    }
}

/// The stream for `data` transformed in blocks of `capacity` bytes.
pub open spec fn transformed(data: Seq<u8>, capacity: nat) -> Seq<u8> {
    u64_bytes(capacity as u64) + transformed_from(data, capacity)
}

/// Whether the rotation of `block` at `a` comes no later than the one at
/// `b`.
pub fn rotation_le(a: usize, b: usize, block: &[u8]) -> (le: bool)
    requires
        a < block@.len(),
        b < block@.len(),
    ensures
        le == rot_le(block@, a as int, b as int, 0),
{
    let n: usize = block.len();
    let mut k: usize = 0;
    let mut x: usize = a;
    let mut y: usize = b;
    proof {
        vstd::arithmetic::div_mod::lemma_small_mod(a as nat, n as nat);
        vstd::arithmetic::div_mod::lemma_small_mod(b as nat, n as nat);
    }
    while k < n
        invariant
            k <= n == block@.len(),
            a < n,
            b < n,
            x < n,
            y < n,
            x == (a + k) % (n as int),
            y == (b + k) % (n as int),
            rot_le(block@, a as int, b as int, k as int) == rot_le(block@, a as int, b as int, 0),
        decreases n - k,
    {
        if block[x] < block[y] {
            return true;
        }
        if block[x] > block[y] {
            return false;
        }
        proof {
            lemma_next_round(a as int, k as int, n as int);
            lemma_next_round(b as int, k as int, n as int);
        }
        x = if x + 1 == n { 0 } else { x + 1 };
        y = if y + 1 == n { 0 } else { y + 1 };
        k += 1;
    }
    a <= b
}

/// One step round a ring of `n` places.
pub proof fn lemma_next_round(a: int, k: int, n: int)
    requires
        0 <= a,
        0 <= k,
        0 < n,
    ensures
        (a + k + 1) % n == if (a + k) % n + 1 == n {
            0
        } else {
            (a + k) % n + 1
        },
{
    let q = (a + k) / n;
    let r = (a + k) % n;
    assert(a + k == n * q + r) by {
        vstd::arithmetic::div_mod::lemma_fundamental_div_mod(a + k, n);
    }
    if r + 1 == n {
        assert(a + k + 1 == n * (q + 1) + 0) by (nonlinear_arith)
            requires
                a + k == n * q + r,
                r + 1 == n,
        ;
        vstd::arithmetic::div_mod::lemma_fundamental_div_mod_converse(a + k + 1, n, q + 1, 0);
    } else {
        vstd::arithmetic::div_mod::lemma_fundamental_div_mod_converse(a + k + 1, n, q, r + 1);
    }
}

/// Merges two runs of starting points, each sorted by rotation, into one.
fn merge(left: &Vec<u32>, right: &Vec<u32>, block: &[u8]) -> (out: Vec<u32>)
    requires
        sorted_by(left@, rotation_order(block@)),
        sorted_by(right@, rotation_order(block@)),
        forall|i: int| 0 <= i < left@.len() ==> #[trigger] left@[i] < block@.len(),
        forall|i: int| 0 <= i < right@.len() ==> #[trigger] right@[i] < block@.len(),
    ensures
        sorted_by(out@, rotation_order(block@)),
        out@.to_multiset() == left@.to_multiset().add(right@.to_multiset()),
        forall|i: int| 0 <= i < out@.len() ==> #[trigger] out@[i] < block@.len(),
        out@.len() == left@.len() + right@.len(),
{
    broadcast use vstd::seq_lib::group_to_multiset_ensures;
    broadcast use vstd::multiset::group_multiset_axioms;

    let ghost leq = rotation_order(block@);
    proof {
        lemma_rotation_order_total(block@);
    }
    let mut out: Vec<u32> = Vec::new();
    let mut i: usize = 0;
    let mut j: usize = 0;
    proof {
        assert(left@.take(0) =~= Seq::<u32>::empty());
        assert(right@.take(0) =~= Seq::<u32>::empty());
    }
    while i < left.len() || j < right.len()
        invariant
            i <= left@.len(),
            j <= right@.len(),
            leq == rotation_order(block@),
            total_ordering(leq),
            sorted_by(left@, leq),
            sorted_by(right@, leq),
            sorted_by(out@, leq),
            out@.len() == i + j,
            forall|k: int| 0 <= k < left@.len() ==> #[trigger] left@[k] < block@.len(),
            forall|k: int| 0 <= k < right@.len() ==> #[trigger] right@[k] < block@.len(),
            forall|k: int| 0 <= k < out@.len() ==> #[trigger] out@[k] < block@.len(),
            forall|k: int| 0 <= k < out@.len() && i < left@.len() ==> leq(#[trigger] out@[k], left@[i as int]),
            forall|k: int| 0 <= k < out@.len() && j < right@.len() ==> leq(#[trigger] out@[k], right@[j as int]),
            out@.to_multiset() == left@.take(i as int).to_multiset().add(
                right@.take(j as int).to_multiset(),
            ),
        decreases left@.len() - i + right@.len() - j,
    {
        let take_left: bool = if i >= left.len() {
            false
        } else if j >= right.len() {
            true
        } else {
            rotation_le(left[i] as usize, right[j] as usize, block)
        };
        let ghost before = out@;
        if take_left {
            let x: u32 = left[i];
            out.push(x);
            proof {
                assert(left@.take(i + 1) =~= left@.take(i as int).push(x));
                vstd::seq_lib::to_multiset_build(before, x);
                vstd::seq_lib::to_multiset_build(left@.take(i as int), x);
                assert(out@ =~= before.push(x));
                assert(out@.to_multiset() =~= before.to_multiset().insert(x));
                assert(left@.take(i + 1).to_multiset() =~= left@.take(i as int).to_multiset().insert(
                    x,
                ));
                assert(out@.to_multiset() =~= left@.take(i + 1).to_multiset().add(
                    right@.take(j as int).to_multiset(),
                ));
                assert forall|a: int, b: int| 0 <= a < b < out@.len() implies leq(
                    out@[a],
                    out@[b],
                ) by {
                    if b == before.len() {
                        assert(leq(before[a], left@[i as int]));
                    }
                }
                assert forall|k: int| 0 <= k < out@.len() && i + 1 < left@.len() implies leq(
                    #[trigger] out@[k],
                    left@[i + 1],
                ) by {
                    assert(leq(left@[i as int], left@[i + 1]));
                    if k < before.len() {
                        assert(leq(before[k], left@[i as int]));
                    }
                }
                assert forall|k: int| 0 <= k < out@.len() && j < right@.len() implies leq(
                    #[trigger] out@[k],
                    right@[j as int],
                ) by {
                    if k == before.len() {
                        assert(leq(x, right@[j as int]));
                    }
                }
            }
            i += 1;
        } else {
            let y: u32 = right[j];
            out.push(y);
            proof {
                assert(right@.take(j + 1) =~= right@.take(j as int).push(y));
                vstd::seq_lib::to_multiset_build(before, y);
                vstd::seq_lib::to_multiset_build(right@.take(j as int), y);
                assert(out@ =~= before.push(y));
                assert(out@.to_multiset() =~= before.to_multiset().insert(y));
                assert(right@.take(j + 1).to_multiset() =~= right@.take(
                    j as int,
                ).to_multiset().insert(y));
                assert(out@.to_multiset() =~= left@.take(i as int).to_multiset().add(
                    right@.take(j + 1).to_multiset(),
                ));
                assert forall|a: int, b: int| 0 <= a < b < out@.len() implies leq(
                    out@[a],
                    out@[b],
                ) by {
                    if b == before.len() {
                        assert(leq(before[a], right@[j as int]));
                    }
                }
                assert forall|k: int| 0 <= k < out@.len() && j + 1 < right@.len() implies leq(
                    #[trigger] out@[k],
                    right@[j + 1],
                ) by {
                    assert(leq(right@[j as int], right@[j + 1]));
                    if k < before.len() {
                        assert(leq(before[k], right@[j as int]));
                    }
                }
                assert forall|k: int| 0 <= k < out@.len() && i < left@.len() implies leq(
                    #[trigger] out@[k],
                    left@[i as int],
                ) by {
                    if k == before.len() {
                        assert(leq(y, left@[i as int]) || leq(left@[i as int], y));
                    }
                }
            }
            j += 1;
        }
    }
    proof {
        assert(left@.take(i as int) =~= left@);
        assert(right@.take(j as int) =~= right@);
    }
    out
}

/// The starting points from `lo` up to `hi`, sorted by rotation.
fn sort_range(lo: u32, hi: u32, block: &[u8]) -> (out: Vec<u32>)
    requires
        lo <= hi <= block@.len(),
    ensures
        sorted_by(out@, rotation_order(block@)),
        out@.to_multiset() == starts(block@.len()).subrange(lo as int, hi as int).to_multiset(),
        forall|i: int| 0 <= i < out@.len() ==> #[trigger] out@[i] < block@.len(),
        out@.len() == hi - lo,
    decreases hi - lo,
{
    broadcast use vstd::seq_lib::group_to_multiset_ensures;

    let ghost all = starts(block@.len());
    if hi - lo <= 1 {
        let mut out: Vec<u32> = Vec::new();
        if hi > lo {
            out.push(lo);
        }
        proof {
            assert(out@ =~= all.subrange(lo as int, hi as int));
        }
        out
    } else {
        let mid: u32 = lo + (hi - lo) / 2;
        let left = sort_range(lo, mid, block);
        let right = sort_range(mid, hi, block);
        proof {
            lemma_multiset_commutative(
                all.subrange(lo as int, mid as int),
                all.subrange(mid as int, hi as int),
            );
            assert(all.subrange(lo as int, mid as int) + all.subrange(mid as int, hi as int)
                =~= all.subrange(lo as int, hi as int));
        }
        merge(&left, &right, block)
    }
}

/// The starting points of the rotations of `block`, sorted by rotation.
pub fn sort_rotations(block: &[u8]) -> (order: Vec<u32>)
    requires
        block@.len() <= u32::MAX,
    ensures
        order@ == sorted_rotations(block@),
        order@.len() == block@.len(),
        forall|i: int| 0 <= i < order@.len() ==> #[trigger] order@[i] < block@.len(),
{
    let order = sort_range(0, block.len() as u32, block);
    proof {
        let all = starts(block@.len());
        assert(all.subrange(0, block@.len() as int) =~= all);
        lemma_rotation_order_total(block@);
        all.lemma_sort_by_ensures(rotation_order(block@));
        lemma_sorted_unique(order@, sorted_rotations(block@), rotation_order(block@));
    }
    order
}

/// Transforms `input` in blocks of `capacity` bytes.
pub fn bwt_transform(input: &[u8], capacity: usize) -> (out: Vec<u8>)
    requires
        capacity <= u32::MAX,
    ensures
        out@ == transformed(input@, capacity as nat),
{
    let mut out: Vec<u8> = Vec::new();
    put_u64(&mut out, capacity as u64);
    let mut pos: usize = 0;
    let total: usize = input.len();
    proof {
        assert(input@.skip(0) =~= input@);
    }
    while pos < total && capacity > 0
        invariant
            pos <= input@.len() == total,
            capacity <= u32::MAX,
            out@ + transformed_from(input@.skip(pos as int), capacity as nat) =~= transformed(
                input@,
                capacity as nat,
            ),
        decreases input@.len() - pos,
    {
        let len: usize = if total - pos < capacity { total - pos } else { capacity };
        let block = vstd::slice::slice_subrange(input, pos, pos + len);
        let ghost written = out@;
        let ghost rest = input@.skip(pos as int);
        proof {
            assert(block@ =~= rest.take(len as int));
            assert(rest.skip(len as int) =~= input@.skip(pos + len));
        }
        let indices = sort_rotations(block);
        let second: u32 = if len > 1 { 1 } else { 0 };
        let mut primary_index: usize = 0;
        let mut bwt: Vec<u8> = Vec::new();
        let mut i: usize = 0;
        while i < len
            invariant
                i <= len == block@.len() == indices@.len(),
                0 < len,
                forall|k: int| 0 <= k < indices@.len() ==> #[trigger] indices@[k] < block@.len(),
                bwt@ =~= last_column(block@, indices@).take(i as int),
                primary_index == place_of(indices@, second, i as int),
            decreases len - i,
        {
            let idx: usize = indices[i] as usize;
            if indices[i] == second {
                primary_index = i;
            }
            let before: usize = if idx == 0 { len - 1 } else { idx - 1 };
            proof {
                lemma_previous(idx as int, len as int);
            }
            bwt.push(block[before]);
            i += 1;
        }
        put_u64(&mut out, primary_index as u64);
        put_bytes(&mut out, bwt.as_slice());
        proof {
            assert(last_column(block@, indices@).take(len as int) =~= last_column(
                block@,
                indices@,
            ));
            let tail = transformed_from(input@.skip(pos + len), capacity as nat);
            assert(written + (transformed_block(block@) + tail) =~= out@ + tail);
        }
        pos += len;
    }
    proof {
        assert(transformed_from(input@.skip(pos as int), capacity as nat) =~= Seq::<u8>::empty());
        assert(out@ + Seq::<u8>::empty() =~= out@);
    }
    out
}

/// The place before `a`, round a ring of `n` places.
pub proof fn lemma_previous(a: int, n: int)
    requires
        0 <= a < n,
    ensures
        (a + (n - 1)) % n == if a == 0 {
            n - 1
        } else {
            a - 1
        },
{
    if a == 0 {
        vstd::arithmetic::div_mod::lemma_fundamental_div_mod_converse(n - 1, n, 0, n - 1);
    } else {
        vstd::arithmetic::div_mod::lemma_fundamental_div_mod_converse(a + n - 1, n, 1, a - 1);
    }
}

/// Number of bytes below `v` among the first `n` of `block`.
pub open spec fn below(block: Seq<u8>, v: int, n: int) -> int
    decreases n,
{
    if n <= 0 {
        0
    } else {
        below(block, v, n - 1) + if block[n - 1] < v {
            1int
        } else {
            0int
        }
    }
}

/// Number of bytes equal to `v` among the first `n` of `block`.
pub open spec fn equal(block: Seq<u8>, v: int, n: int) -> int
    decreases n,
{
    if n <= 0 {
        0
    } else {
        equal(block, v, n - 1) + if block[n - 1] == v {
            1int
        } else {
            0int
        }
    }
}

/// Where byte `i` of a transformed block stands once the bytes are
/// sorted, equal bytes keeping their order.
pub open spec fn sorted_place(block: Seq<u8>, i: int) -> int {
    below(block, block[i] as int, block.len() as int) + equal(block, block[i] as int, i)
}

/// For each sorted place among those of the first `n` bytes, the byte
/// that stands there; 0 elsewhere.
pub open spec fn links(block: Seq<u8>, n: int) -> Seq<usize>
    decreases n,
{
    if n <= 0 {
        Seq::new(block.len(), |i: int| 0usize)
    } else {
        links(block, n - 1).update(sorted_place(block, n - 1), (n - 1) as usize)
    }
}

/// The `n` bytes found by starting at `index` and following the links.
pub open spec fn followed(block: Seq<u8>, links: Seq<usize>, index: int, n: int) -> Seq<u8>
    decreases n,
{
    if n <= 0 {
        Seq::empty()
    } else {
        seq![block[index]] + followed(block, links, links[index] as int, n - 1)
    }
}

/// The block that `block` is the transform of, given where the rotation
/// that starts at its second byte has gone.
pub open spec fn restored_block(block: Seq<u8>, primary: int) -> Seq<u8> {
    followed(block, links(block, block.len() as int), primary, block.len() as int)
}

/// What the transformed blocks of `input` from `pos` on restore to. A
/// block is cut short if its first eight bytes are not all there, and
/// invalid if they point beyond it.
pub open spec fn restored_from(input: Seq<u8>, pos: int, capacity: nat) -> Result<
    Seq<u8>,
    DecodeError,
>
    decreases input.len() - pos,
{
    if pos >= input.len() || pos < 0 {
        Ok(Seq::empty())
    } else if pos + 8 > input.len() {
        Err(DecodeError::UnexpectedEof)
    } else {
        let left = input.len() - pos - 8;
        let n = if left < capacity { left } else { capacity as int };
        let primary = u64_at(input, pos);
        if n > 0 && primary >= n {
            Err(DecodeError::InvalidData)
        } else {
            prefixed_ok(
                restored_block(input.subrange(pos + 8, pos + 8 + n), primary as int),
                restored_from(input, pos + 8 + n, capacity),
            )
        }
    }
}

/// What the stream `input` restores to.
pub open spec fn restored(input: Seq<u8>) -> Result<Seq<u8>, DecodeError> {
    if input.len() < 8 {
        Err(DecodeError::UnexpectedEof)
    } else {
        restored_from(input, 8, u64_at(input, 0) as nat)
    }
}

/// The bytes below `v + 1` are those below `v` and those equal to `v`.
pub proof fn lemma_below_next(block: Seq<u8>, v: int, n: int)
    ensures
        below(block, v + 1, n) == below(block, v, n) + equal(block, v, n),
        0 <= below(block, v, n),
        0 <= equal(block, v, n),
        below(block, v, n) + equal(block, v, n) <= if n < 0 {
            0
        } else {
            n
        },
    decreases n,
{
    if n > 0 {
        lemma_below_next(block, v, n - 1);
    }
}

/// No byte is below zero.
pub proof fn lemma_below_zero(block: Seq<u8>, n: int)
    ensures
        below(block, 0, n) == 0,
    decreases n,
{
    if n > 0 {
        lemma_below_zero(block, n - 1);
    }
}

/// Counts grow with the number of bytes looked at.
pub proof fn lemma_equal_grows(block: Seq<u8>, v: int, i: int, n: int)
    requires
        0 <= i <= n,
    ensures
        equal(block, v, i) <= equal(block, v, n),
        i < n && block[i] == v ==> equal(block, v, i) < equal(block, v, n),
    decreases n,
{
    if i < n {
        if i < n - 1 {
            lemma_equal_grows(block, v, i, n - 1);
        } else {
            lemma_equal_grows(block, v, i, i);
        }
    }
}

/// A sorted place is a place of the block.
pub proof fn lemma_sorted_place_bounds(block: Seq<u8>, i: int)
    requires
        0 <= i < block.len(),
    ensures
        0 <= sorted_place(block, i) < block.len(),
{
    let v = block[i] as int;
    let n = block.len() as int;
    lemma_below_next(block, v, n);
    lemma_below_next(block, v, i);
    lemma_equal_grows(block, v, i, n);
}

/// Restores one transformed block onto the end of `out`.
fn restore_block(block: &[u8], primary: usize, out: &mut Vec<u8>)
    requires
        block@.len() == 0 || primary < block@.len(),
    ensures
        final(out)@ =~= old(out)@ + restored_block(block@, primary as int),
{
    let n: usize = block.len();
    let mut count: Vec<usize> = vec![0usize; 256];
    let mut i: usize = 0;
    while i < n
        invariant
            i <= n == block@.len(),
            count@.len() == 256,
            forall|v: int| 0 <= v < 256 ==> #[trigger] count@[v] == equal(block@, v, i as int),
        decreases n - i,
    {
        let byte: usize = block[i] as usize;
        proof {
            lemma_below_next(block@, byte as int, i as int);
        }
        count[byte] = count[byte] + 1;
        i += 1;
    }
    let mut cumul: Vec<usize> = vec![0usize; 256];
    let mut sum: usize = 0;
    let mut v: usize = 0;
    proof {
        lemma_below_zero(block@, n as int);
    }
    while v < 256
        invariant
            v <= 256,
            n == block@.len(),
            count@.len() == 256,
            cumul@.len() == 256,
            sum == below(block@, v as int, n as int),
            forall|u: int| 0 <= u < 256 ==> #[trigger] count@[u] == equal(block@, u, n as int),
            forall|u: int| 0 <= u < v ==> #[trigger] cumul@[u] == below(block@, u, n as int),
        decreases 256 - v,
    {
        proof {
            lemma_below_next(block@, v as int, n as int);
            lemma_below_next(block@, v + 1, n as int);
        }
        cumul[v] = sum;
        sum = sum + count[v];
        v += 1;
    }
    let mut seen: Vec<usize> = vec![0usize; 256];
    let mut transform: Vec<usize> = vec![0usize; n];
    proof {
        assert(transform@ =~= links(block@, 0));
    }
    let mut i: usize = 0;
    while i < n
        invariant
            i <= n == block@.len(),
            seen@.len() == 256,
            cumul@.len() == 256,
            transform@.len() == n,
            transform@ == links(block@, i as int),
            forall|u: int| 0 <= u < 256 ==> #[trigger] seen@[u] == equal(block@, u, i as int),
            forall|u: int| 0 <= u < 256 ==> #[trigger] cumul@[u] == below(block@, u, n as int),
            forall|k: int| 0 <= k < n ==> #[trigger] transform@[k] < n,
        decreases n - i,
    {
        let byte: usize = block[i] as usize;
        proof {
            lemma_sorted_place_bounds(block@, i as int);
            lemma_below_next(block@, byte as int, i as int);
        }
        transform[seen[byte] + cumul[byte]] = i;
        seen[byte] = seen[byte] + 1;
        i += 1;
    }
    let mut index: usize = primary;
    let mut k: usize = 0;
    let ghost written = out@;
    let ghost all = restored_block(block@, primary as int);
    proof {
        assert(written + Seq::<u8>::empty() =~= written);
    }
    let ghost mut done: Seq<u8> = Seq::empty();
    while k < n
        invariant
            k <= n == block@.len(),
            n == 0 || index < n,
            transform@.len() == n,
            transform@ == links(block@, n as int),
            forall|j: int| 0 <= j < n ==> #[trigger] transform@[j] < n,
            out@ == written + done,
            done + followed(block@, transform@, index as int, n - k) =~= all,
        decreases n - k,
    {
        let byte: u8 = block[index];
        out.push(byte);
        proof {
            let tail = followed(block@, transform@, transform@[index as int] as int, n - k - 1);
            assert(done + (seq![byte] + tail) =~= done.push(byte) + tail);
            assert(out@ =~= written + done.push(byte));
            done = done.push(byte);
        }
        index = transform[index];
        k += 1;
    }
    proof {
        assert(done + Seq::<u8>::empty() =~= done);
    }
}

/// Restores what the stream `input` is the transform of.
pub fn bwt_inverse_transform(input: &[u8]) -> (r: Result<Vec<u8>, DecodeError>)
    ensures
        match restored(input@) {
            Ok(data) => r is Ok && r->Ok_0@ == data,
            Err(e) => r == Err::<Vec<u8>, DecodeError>(e),
        },
{
    let total: usize = input.len();
    if total < 8 {
        return Err(DecodeError::UnexpectedEof);
    }
    let capacity: u64 = get_u64(input, 0);
    let mut out: Vec<u8> = Vec::new();
    let mut pos: usize = 8;
    proof {
        let whole = restored(input@);
        if whole is Ok {
            assert(out@ + whole->Ok_0 =~= whole->Ok_0);
        }
    }
    while pos < total
        invariant
            8 <= pos <= input@.len() == total,
            restored(input@) == prefixed_ok(out@, restored_from(input@, pos as int, capacity as nat)),
        decreases input@.len() - pos,
    {
        if total - pos < 8 {
            return Err(DecodeError::UnexpectedEof);
        }
        let primary: u64 = get_u64(input, pos);
        let left: usize = total - pos - 8;
        let n: usize = if (left as u64) < capacity { left } else { capacity as usize };
        if n > 0 && primary >= (n as u64) {
            return Err(DecodeError::InvalidData);
        }
        let block = vstd::slice::slice_subrange(input, pos + 8, pos + 8 + n);
        let ghost written = out@;
        restore_block(block, primary as usize, &mut out);
        proof {
            let rest = restored_from(input@, pos + 8 + n, capacity as nat);
            let bytes = restored_block(block@, primary as int);
            if rest is Ok {
                assert(written + (bytes + rest->Ok_0) =~= out@ + rest->Ok_0);
            }
        }
        pos = pos + 8 + n;
    }
    proof {
        assert(out@ + Seq::<u8>::empty() =~= out@);
    }
    Ok(out)
}

} // verus!
