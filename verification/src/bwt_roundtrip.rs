//! Why the inverse transform undoes the transform.
//!
//! Sorting the transformed bytes, equal bytes in order, sorts the
//! rotations that start one byte earlier. So the byte at a sorted place
//! is the first byte of a rotation whose last byte is the byte at the
//! same place of the transformed block, and following the links from
//! place to place reads the block through.

use vstd::prelude::*;
use vstd::seq_lib::lemma_fold_left_permutation;
use vstd::seq_lib::commutative_foldl;
use vstd::relations::sorted_by;
use crate::bufio::lemma_u64_bytes_value;
use crate::bufio::u64_at;
use crate::bufio::u64_bytes;
use crate::error::DecodeError;
use crate::bwt::below;
use crate::bwt::followed;
use crate::bwt::links;
use crate::bwt::place_of;
use crate::bwt::restored;
use crate::bwt::restored_block;
use crate::bwt::restored_from;
use crate::bwt::transformed;
use crate::bwt::transformed_block;
use crate::bwt::transformed_from;
use crate::bwt::last_column;
use crate::bwt::lemma_rotation_order_total;
use crate::bwt::lemma_sorted_place_bounds;
use crate::bwt::rotation_order;
use crate::bwt::sorted_rotations;
use crate::bwt::equal;
use crate::bwt::rot_le;
use crate::bwt::rotated;
use crate::bwt::sorted_place;
use crate::bwt::starts;

verus! {

/// Whether the rotation at `x` comes before the rotation at `y`, given
/// that they agree on their first `k` bytes; `tie` decides for equal
/// rotations.
pub open spec fn before(block: Seq<u8>, x: int, y: int, k: int, tie: bool) -> bool
    decreases block.len() - k,
{
    if k >= block.len() {
        tie
    } else if rotated(block, x, k) < rotated(block, y, k) {
        true
    } else if rotated(block, x, k) > rotated(block, y, k) {
        false
    } else {
        before(block, x, y, k + 1, tie)
    }
}

/// The rotations at `x` and `y` are the same bytes.
pub open spec fn same(block: Seq<u8>, x: int, y: int) -> bool {
    forall|k: int| 0 <= k < block.len() ==> #[trigger] rotated(block, x, k) == rotated(block, y, k)
}

/// The order of the rotations is the order of their bytes, equal
/// rotations going by where they start.
pub proof fn lemma_rot_le_before(block: Seq<u8>, x: int, y: int, k: int)
    ensures
        rot_le(block, x, y, k) == before(block, x, y, k, x <= y),
    decreases block.len() - k,
{
    if k < block.len() {
        lemma_rot_le_before(block, x, y, k + 1);
    }
}

/// Strictly before is before.
pub proof fn lemma_before_weakens(block: Seq<u8>, x: int, y: int, k: int)
    requires
        before(block, x, y, k, false),
    ensures
        before(block, x, y, k, true),
    decreases block.len() - k,
{
    if k < block.len() && rotated(block, x, k) == rotated(block, y, k) {
        lemma_before_weakens(block, x, y, k + 1);
    }
}

/// Of two rotations, one is strictly before the other or they are not
/// after each other.
pub proof fn lemma_before_total(block: Seq<u8>, x: int, y: int, k: int)
    ensures
        before(block, x, y, k, true) == !before(block, y, x, k, false),
    decreases block.len() - k,
{
    if k < block.len() {
        lemma_before_total(block, x, y, k + 1);
    }
}

/// Before, in either sense, carries over a rotation in between, and is
/// strict if either step is.
pub proof fn lemma_before_transitive(
    block: Seq<u8>,
    x: int,
    y: int,
    z: int,
    k: int,
    s: bool,
    t: bool,
)
    requires
        before(block, x, y, k, s),
        before(block, y, z, k, t),
    ensures
        before(block, x, z, k, s && t),
    decreases block.len() - k,
{
    if k < block.len() {
        let a = rotated(block, x, k);
        let b = rotated(block, y, k);
        let c = rotated(block, z, k);
        if a == b && b == c {
            lemma_before_transitive(block, x, y, z, k + 1, s, t);
        }
    }
}

/// Rotations neither of which is strictly before the other are the same
/// from byte `k` on.
pub proof fn lemma_before_same(block: Seq<u8>, x: int, y: int, k: int, j: int)
    requires
        before(block, x, y, k, true),
        !before(block, x, y, k, false),
        0 <= k <= j < block.len(),
    ensures
        rotated(block, x, j) == rotated(block, y, j),
    decreases block.len() - k,
{
    if k < j {
        lemma_before_same(block, x, y, k + 1, j);
    }
}

/// The same rotations are before each other only by a tie.
pub proof fn lemma_same_before(block: Seq<u8>, x: int, y: int, k: int, tie: bool)
    requires
        same(block, x, y),
        0 <= k,
    ensures
        before(block, x, y, k, tie) == tie,
    decreases block.len() - k,
{
    if k < block.len() {
        assert(rotated(block, x, k) == rotated(block, y, k));
        lemma_same_before(block, x, y, k + 1, tie);
    }
}

/// A rotation is the same after a whole turn, and one place on it is
/// the next rotation.
pub proof fn lemma_rotated_turn(block: Seq<u8>, x: int, k: int)
    requires
        block.len() > 0,
    ensures
        rotated(block, x + block.len(), k) == rotated(block, x, k),
        rotated(block, x, k + block.len()) == rotated(block, x, k),
        rotated(block, x + 1, k) == rotated(block, x, k + 1),
{
    let n = block.len() as int;
    vstd::arithmetic::div_mod::lemma_mod_multiples_vanish(1, x + k, n);
    assert(x + block.len() + k == n * 1 + (x + k));
    assert(x + (k + block.len()) == n * 1 + (x + k));
}

/// The same rotations stay the same one place on.
pub proof fn lemma_same_next(block: Seq<u8>, x: int, y: int)
    requires
        block.len() > 0,
        same(block, x, y),
    ensures
        same(block, x + 1, y + 1),
{
    let n = block.len() as int;
    assert forall|k: int| 0 <= k < n implies #[trigger] rotated(block, x + 1, k) == rotated(
        block,
        y + 1,
        k,
    ) by {
        lemma_rotated_turn(block, x, k);
        lemma_rotated_turn(block, y, k);
        if k + 1 < n {
            assert(rotated(block, x, k + 1) == rotated(block, y, k + 1));
        } else {
            lemma_rotated_turn(block, x, 0);
            lemma_rotated_turn(block, y, 0);
            assert(rotated(block, x, 0) == rotated(block, y, 0));
        }
    }
}

/// The same rotations are the same a whole turn apart.
pub proof fn lemma_same_turn(block: Seq<u8>, x: int, y: int)
    requires
        block.len() > 0,
        same(block, x + block.len(), y),
    ensures
        same(block, x, y),
{
    assert forall|k: int| 0 <= k < block.len() implies #[trigger] rotated(block, x, k) == rotated(
        block,
        y,
        k,
    ) by {
        lemma_rotated_turn(block, x, k);
        assert(rotated(block, x + block.len(), k) == rotated(block, y, k));
    }
}

/// Two rotations that end in the same byte compare as the rotations
/// that start one byte earlier do behind their first byte.
pub proof fn lemma_before_earlier(block: Seq<u8>, x: int, y: int, k: int, tie: bool)
    requires
        block.len() > 0,
        0 <= k < block.len(),
        rotated(block, x, block.len() - 1) == rotated(block, y, block.len() - 1),
    ensures
        before(block, x + block.len() - 1, y + block.len() - 1, k + 1, tie) == before(
            block,
            x,
            y,
            k,
            tie,
        ),
    decreases block.len() - k,
{
    let n = block.len() as int;
    lemma_rotated_turn(block, x - 1, k + 1);
    lemma_rotated_turn(block, y - 1, k + 1);
    lemma_rotated_turn(block, x - 1, k);
    lemma_rotated_turn(block, y - 1, k);
    assert(rotated(block, x + n - 1, k + 1) == rotated(block, x, k));
    assert(rotated(block, y + n - 1, k + 1) == rotated(block, y, k));
    if k + 1 < n {
        lemma_before_earlier(block, x, y, k + 1, tie);
    } else {
        assert(before(block, x, y, k + 1, tie) == tie);
    }
}

/// How two rotations that start one byte earlier compare: by their
/// first bytes, which are the last bytes of the rotations themselves,
/// and for equal ones as the rotations themselves.
pub proof fn lemma_earlier_compare(block: Seq<u8>, x: int, y: int, tie: bool)
    requires
        block.len() > 0,
    ensures
        before(block, x + block.len() - 1, y + block.len() - 1, 0, tie) == {
            let a = rotated(block, x, block.len() - 1);
            let b = rotated(block, y, block.len() - 1);
            a < b || (a == b && before(block, x, y, 0, tie))
        },
{
    let n = block.len() as int;
    let a = rotated(block, x, n - 1);
    let b = rotated(block, y, n - 1);
    lemma_rotated_turn(block, x - 1, 0);
    lemma_rotated_turn(block, y - 1, 0);
    lemma_rotated_turn(block, x - 1, 1);
    lemma_rotated_turn(block, y - 1, 1);
    lemma_rotated_turn(block, x - 1, n - 1);
    lemma_rotated_turn(block, y - 1, n - 1);
    assert(rotated(block, x + n - 1, 0) == rotated(block, x - 1, 0));
    assert(rotated(block, x - 1, 0 + n) == rotated(block, x - 1, 0));
    assert(rotated(block, x, n - 1) == rotated(block, x - 1, n));
    assert(rotated(block, x + n - 1, 0) == a);
    assert(rotated(block, y + n - 1, 0) == b);
    if a == b {
        lemma_before_earlier(block, x, y, 0, tie);
    }
}

/// Number of places below `n` of which `f` holds.
pub open spec fn count(n: int, f: spec_fn(int) -> bool) -> int
    decreases n,
{
    if n <= 0 {
        0
    } else {
        count(n - 1, f) + if f(n - 1) {
            1int
        } else {
            0int
        }
    }
}

/// A count is between nothing and the number of places.
pub proof fn lemma_count_bounds(n: int, f: spec_fn(int) -> bool)
    ensures
        0 <= count(n, f),
        count(n, f) <= if n < 0 {
            0
        } else {
            n
        },
    decreases n,
{
    if n > 0 {
        lemma_count_bounds(n - 1, f);
    }
}

/// What holds of more places is counted at least as often; more often
/// if it holds of a place of which the other does not.
pub proof fn lemma_count_monotone(n: int, f: spec_fn(int) -> bool, g: spec_fn(int) -> bool, w: int)
    requires
        forall|j: int| 0 <= j < n && #[trigger] f(j) ==> g(j),
    ensures
        count(n, f) <= count(n, g),
        0 <= w < n && g(w) && !f(w) ==> count(n, f) < count(n, g),
    decreases n,
{
    if n > 0 {
        lemma_count_monotone(n - 1, f, g, w);
        if f(n - 1) {
            assert(g(n - 1));
        }
    }
}

/// What holds of the same places is counted as often.
pub proof fn lemma_count_equal(n: int, f: spec_fn(int) -> bool, g: spec_fn(int) -> bool)
    requires
        forall|j: int| 0 <= j < n ==> #[trigger] f(j) == g(j),
    ensures
        count(n, f) == count(n, g),
    decreases n,
{
    if n > 0 {
        lemma_count_equal(n - 1, f, g);
        assert(f(n - 1) == g(n - 1));
    }
}

/// What holds of a place holds of every place before it: then it holds
/// of exactly the first places, as many as it is counted.
pub proof fn lemma_count_prefix(n: int, f: spec_fn(int) -> bool, p: int)
    requires
        forall|a: int, b: int| 0 <= a < b < n && #[trigger] f(b) ==> #[trigger] f(a),
        0 <= p < n,
    ensures
        f(p) <==> p < count(n, f),
    decreases n,
{
    lemma_count_bounds(n - 1, f);
    if n - 1 > p {
        lemma_count_prefix(n - 1, f, p);
        if f(n - 1) {
            assert(f(p));
            lemma_count_all(n - 1, f);
        }
    } else {
        // p is the last place.
        if f(p) {
            lemma_count_all(p, f);
        }
    }
}

/// What holds of every place is counted for every place.
pub proof fn lemma_count_all(n: int, f: spec_fn(int) -> bool)
    requires
        0 <= n,
        forall|a: int| 0 <= a < n ==> #[trigger] f(a),
    ensures
        count(n, f) == n,
    decreases n,
{
    if n > 0 {
        lemma_count_all(n - 1, f);
    }
}

/// Counting from the second place on.
pub proof fn lemma_count_peel(n: int, f: spec_fn(int) -> bool, g: spec_fn(int) -> bool)
    requires
        1 <= n,
        forall|j: int| 0 <= j < n - 1 ==> #[trigger] g(j) == f(j + 1),
    ensures
        count(n, f) == count(n - 1, g) + if f(0) {
            1int
        } else {
            0int
        },
    decreases n,
{
    if n > 1 {
        lemma_count_peel(n - 1, f, g);
        assert(g(n - 2) == f(n - 1));
        assert(count(n - 1, g) == count(n - 2, g) + if g(n - 2) { 1int } else { 0int });
    } else {
        assert(count(0, f) == 0);
        assert(count(0, g) == 0);
    }
}

/// Adds one for every value of which `f` holds.
pub open spec fn tally(f: spec_fn(int) -> bool) -> spec_fn(int, u32) -> int {
    |acc: int, x: u32|
        acc + if f(x as int) {
            1int
        } else {
            0int
        }
}

/// Counting over the places of a sequence is tallying its values.
pub proof fn lemma_count_tally(s: Seq<u32>, n: int, f: spec_fn(int) -> bool, g: spec_fn(int) -> bool)
    requires
        0 <= n <= s.len(),
        forall|j: int| 0 <= j < n ==> #[trigger] g(j) == f(s[j] as int),
    ensures
        count(n, g) == s.take(n).fold_left(0int, tally(f)),
    decreases n,
{
    if n > 0 {
        lemma_count_tally(s, n - 1, f, g);
        assert(s.take(n).drop_last() =~= s.take(n - 1));
        assert(s.take(n).last() == s[n - 1]);
        assert(g(n - 1) == f(s[n - 1] as int));
    }
}

/// Counting over the places of a rearrangement of `0 .. n` is counting
/// over `0 .. n`.
pub proof fn lemma_count_rearranged(
    order: Seq<u32>,
    f: spec_fn(int) -> bool,
    g: spec_fn(int) -> bool,
)
    requires
        order.len() <= u32::MAX,
        order.to_multiset() == starts(order.len()).to_multiset(),
        forall|j: int| 0 <= j < order.len() ==> #[trigger] g(j) == f(order[j] as int),
    ensures
        count(order.len() as int, g) == count(order.len() as int, f),
{
    let n = order.len() as int;
    let all = starts(order.len());
    assert forall|j: int| 0 <= j < n implies #[trigger] f(j) == f(all[j] as int) by {
        assert(all[j] as int == j);
    }
    lemma_count_tally(order, n, f, g);
    lemma_count_tally(all, n, f, f);
    assert(order.take(n) =~= order);
    assert(all.take(n) =~= all);
    assert(commutative_foldl(tally(f)));
    lemma_fold_left_permutation(order, all, tally(f), 0int);
}

/// Counting over the places before is counting over the places, round
/// a ring of `n` places.
pub proof fn lemma_count_turned(n: int, f: spec_fn(int) -> bool, g: spec_fn(int) -> bool)
    requires
        1 <= n,
        forall|j: int| 1 <= j < n ==> #[trigger] g(j) == f(j - 1),
        g(0) == f(n - 1),
    ensures
        count(n, g) == count(n, f),
{
    let shifted = |j: int| g(j + 1);
    lemma_count_peel(n, g, shifted);
    lemma_count_equal(n - 1, shifted, f);
}

/// The sorted place of a byte is the number of bytes that are below it,
/// or equal to it and before it.
pub proof fn lemma_sorted_place_count(column: Seq<u8>, i: int, g: spec_fn(int) -> bool, m: int)
    requires
        0 <= i < column.len(),
        0 <= m <= column.len(),
        forall|j: int|
            0 <= j < column.len() ==> #[trigger] g(j) == (column[j] < column[i] || (column[j]
                == column[i] && j < i)),
    ensures
        count(m, g) == below(column, column[i] as int, m) + equal(
            column,
            column[i] as int,
            if m < i {
                m
            } else {
                i
            },
        ),
        m == column.len() ==> count(m, g) == sorted_place(column, i),
    decreases m,
{
    if m > 0 {
        lemma_sorted_place_count(column, i, g, m - 1);
        assert(g(m - 1) == (column[m - 1] < column[i] || (column[m - 1] == column[i] && m - 1
            < i)));
    }
}

/// `x` is one of the values of `order`.
pub open spec fn found(order: Seq<u32>, x: int) -> bool {
    exists|p: int| 0 <= p < order.len() && #[trigger] order[p] == x
}

/// The sorted rotations are the rotations, each once, in order.
pub proof fn lemma_sorted_rotations(block: Seq<u8>)
    requires
        block.len() <= u32::MAX,
    ensures
        sorted_rotations(block).len() == block.len(),
        sorted_rotations(block).to_multiset() == starts(block.len()).to_multiset(),
        sorted_by(sorted_rotations(block), rotation_order(block)),
        forall|p: int| 0 <= p < block.len() ==> #[trigger] sorted_rotations(block)[p] < block.len(),
        forall|x: int| 0 <= x < block.len() ==> #[trigger] found(sorted_rotations(block), x),
{
    broadcast use vstd::seq_lib::group_to_multiset_ensures;

    let all = starts(block.len());
    let order = sorted_rotations(block);
    lemma_rotation_order_total(block);
    all.lemma_sort_by_ensures(rotation_order(block));
    vstd::seq_lib::to_multiset_len(order);
    vstd::seq_lib::to_multiset_len(all);
    assert(order.len() == all.len());
    assert forall|p: int| 0 <= p < block.len() implies #[trigger] order[p] < block.len() by {
        assert(order.contains(order[p]));
        assert(all.contains(order[p]));
        let k = choose|k: int| 0 <= k < all.len() && all[k] == order[p];
        assert(all[k] == k as u32);
    }
    assert forall|x: int| 0 <= x < block.len() implies #[trigger] found(order, x) by {
        assert(all[x] == x as u32);
        assert(all.contains(x as u32));
        assert(all.to_multiset().count(x as u32) > 0);
        assert(order.to_multiset().count(x as u32) > 0);
        assert(order.contains(x as u32));
        let p = choose|p: int| 0 <= p < order.len() && order[p] == x as u32;
        assert(order[p] == x);
    }
}

/// A whole turn earlier, a rotation compares the same.
pub proof fn lemma_before_turn(block: Seq<u8>, x: int, y: int, k: int, tie: bool)
    requires
        block.len() > 0,
    ensures
        before(block, x + block.len(), y, k, tie) == before(block, x, y, k, tie),
    decreases block.len() - k,
{
    if k < block.len() {
        lemma_rotated_turn(block, x, k);
        lemma_before_turn(block, x, y, k + 1, tie);
    }
}

/// Of two sorted rotations, the earlier one is not after the later one.
pub proof fn lemma_sorted_before(block: Seq<u8>, a: int, b: int)
    requires
        block.len() <= u32::MAX,
        0 <= a <= b < block.len(),
    ensures
        before(
            block,
            sorted_rotations(block)[a] as int,
            sorted_rotations(block)[b] as int,
            0,
            true,
        ),
{
    let order = sorted_rotations(block);
    lemma_sorted_rotations(block);
    let x = order[a] as int;
    let y = order[b] as int;
    if a == b {
        lemma_same_before(block, x, x, 0, true);
    } else {
        assert(rotation_order(block)(order[a], order[b]));
        lemma_rot_le_before(block, x, y, 0);
        if !(x <= y) {
            lemma_before_weakens(block, x, y, 0);
        }
    }
}

/// The rotation at the sorted place of a byte of the transformed block
/// starts one byte before the rotation the byte comes from: with that
/// byte.
pub proof fn lemma_place_is_earlier(block: Seq<u8>, i: int)
    requires
        0 < block.len() <= u32::MAX,
        0 <= i < block.len(),
    ensures
        0 <= sorted_place(last_column(block, sorted_rotations(block)), i) < block.len(),
        same(
            block,
            sorted_rotations(block)[sorted_place(
                last_column(block, sorted_rotations(block)),
                i,
            )] as int,
            sorted_rotations(block)[i] + block.len() - 1,
        ),
{
    let n = block.len() as int;
    let order = sorted_rotations(block);
    let column = last_column(block, order);
    let q = sorted_place(column, i);
    let y = order[i] + n - 1;
    lemma_sorted_rotations(block);
    lemma_sorted_place_bounds(column, i);

    // Which rotations come before the one looked for, strictly or not.
    let f_lt = |x: int| before(block, x, y, 0, false);
    let f_le = |x: int| before(block, x, y, 0, true);
    let p_lt = |p: int| before(block, order[p] as int, y, 0, false);
    let p_le = |p: int| before(block, order[p] as int, y, 0, true);
    assert forall|a: int, b: int| 0 <= a < b < n && #[trigger] p_lt(b) implies #[trigger] p_lt(
        a,
    ) by {
        lemma_sorted_before(block, a, b);
        lemma_before_transitive(block, order[a] as int, order[b] as int, y, 0, true, false);
    }
    assert forall|a: int, b: int| 0 <= a < b < n && #[trigger] p_le(b) implies #[trigger] p_le(
        a,
    ) by {
        lemma_sorted_before(block, a, b);
        lemma_before_transitive(block, order[a] as int, order[b] as int, y, 0, true, true);
    }
    lemma_count_prefix(n, p_lt, q);
    lemma_count_prefix(n, p_le, q);

    // The same counts, over the rotations that start one byte earlier.
    let g_lt = |x: int| before(block, x + n - 1, y, 0, false);
    let g_le = |x: int| before(block, x + n - 1, y, 0, true);
    let e_lt = |j: int| before(block, order[j] + n - 1, y, 0, false);
    let e_le = |j: int| before(block, order[j] + n - 1, y, 0, true);
    lemma_count_rearranged(order, f_lt, p_lt);
    lemma_count_rearranged(order, f_le, p_le);
    assert forall|j: int| 1 <= j < n implies #[trigger] g_lt(j) == f_lt(j - 1) by {
        lemma_before_turn(block, j - 1, y, 0, false);
    }
    assert forall|j: int| 1 <= j < n implies #[trigger] g_le(j) == f_le(j - 1) by {
        lemma_before_turn(block, j - 1, y, 0, true);
    }
    lemma_count_turned(n, f_lt, g_lt);
    lemma_count_turned(n, f_le, g_le);
    lemma_count_rearranged(order, g_lt, e_lt);
    lemma_count_rearranged(order, g_le, e_le);

    // Between them lies the count that is the sorted place.
    let key = |j: int| column[j] < column[i] || (column[j] == column[i] && j < i);
    lemma_sorted_place_count(column, i, key, n);
    assert forall|j: int| 0 <= j < n && #[trigger] e_lt(j) implies key(j) by {
        lemma_earlier_compare(block, order[j] as int, order[i] as int, false);
        if column[j] == column[i] && j >= i {
            lemma_sorted_before(block, i, j);
            lemma_before_total(block, order[i] as int, order[j] as int, 0);
        }
    }
    assert forall|j: int| 0 <= j < n && #[trigger] key(j) implies e_le(j) by {
        lemma_earlier_compare(block, order[j] as int, order[i] as int, true);
        if column[j] == column[i] {
            lemma_sorted_before(block, j, i);
        }
    }
    lemma_count_monotone(n, e_lt, key, 0);
    lemma_count_monotone(n, key, e_le, i);
    assert(e_le(i)) by {
        lemma_same_before(block, y, y, 0, true);
    }
    assert(!p_lt(q));
    assert(p_le(q));
    assert forall|k: int| 0 <= k < n implies #[trigger] rotated(block, order[q] as int, k)
        == rotated(block, y, k) by {
        lemma_before_same(block, order[q] as int, y, 0, k);
    }
}

/// Of two bytes, the one that is lower, or equal and earlier, has the
/// lower sorted place.
pub proof fn lemma_sorted_place_order(column: Seq<u8>, a: int, b: int)
    requires
        0 <= a < column.len(),
        0 <= b < column.len(),
        column[a] < column[b] || (column[a] == column[b] && a < b),
    ensures
        sorted_place(column, a) < sorted_place(column, b),
{
    let n = column.len() as int;
    let ka = |j: int| column[j] < column[a] || (column[j] == column[a] && j < a);
    let kb = |j: int| column[j] < column[b] || (column[j] == column[b] && j < b);
    lemma_sorted_place_count(column, a, ka, n);
    lemma_sorted_place_count(column, b, kb, n);
    assert(kb(a));
    assert(!ka(a));
    lemma_count_monotone(n, ka, kb, a);
}

/// Different bytes have different sorted places.
pub proof fn lemma_sorted_place_distinct(column: Seq<u8>, a: int, b: int)
    requires
        0 <= a < column.len(),
        0 <= b < column.len(),
        a != b,
    ensures
        sorted_place(column, a) != sorted_place(column, b),
{
    if column[a] < column[b] || (column[a] == column[b] && a < b) {
        lemma_sorted_place_order(column, a, b);
    } else {
        lemma_sorted_place_order(column, b, a);
    }
}

/// The link at the sorted place of a byte leads to the byte.
pub proof fn lemma_links(column: Seq<u8>, m: int, i: int)
    requires
        0 <= i < m <= column.len() <= u32::MAX,
    ensures
        links(column, m).len() == column.len(),
        links(column, m)[sorted_place(column, i)] == i,
    decreases m,
{
    lemma_links_len(column, m - 1);
    lemma_sorted_place_bounds(column, m - 1);
    lemma_sorted_place_bounds(column, i);
    if i < m - 1 {
        lemma_links(column, m - 1, i);
        lemma_sorted_place_distinct(column, i, m - 1);
    }
}

/// There is a link for every byte.
pub proof fn lemma_links_len(column: Seq<u8>, m: int)
    requires
        m <= column.len(),
    ensures
        links(column, m).len() == column.len(),
    decreases m,
{
    if m > 0 {
        lemma_links_len(column, m - 1);
        lemma_sorted_place_bounds(column, m - 1);
    }
}

/// As many different values below a bound as there are values below it
/// are all of them.
pub proof fn lemma_all_taken(f: Seq<int>, q: int)
    requires
        forall|i: int| 0 <= i < f.len() ==> 0 <= #[trigger] f[i] < f.len(),
        f.no_duplicates(),
        0 <= q < f.len(),
    ensures
        f.contains(q),
    decreases f.len(),
{
    let n = f.len() as int;
    let top = n - 1;
    if f.contains(top) {
        let j = choose|j: int| 0 <= j < n && f[j] == top;
        if q != top {
            let g = f.remove(j);
            assert forall|i: int| 0 <= i < g.len() implies 0 <= #[trigger] g[i] < g.len() by {
                let k = if i < j { i } else { i + 1 };
                assert(g[i] == f[k]);
                assert(f[k] != f[j]);
            }
            assert forall|a: int, b: int| 0 <= a < g.len() && 0 <= b < g.len() && a != b implies g[a]
                != g[b] by {
                let ka = if a < j { a } else { a + 1 };
                let kb = if b < j { b } else { b + 1 };
                assert(g[a] == f[ka] && g[b] == f[kb]);
            }
            lemma_all_taken(g, q);
            let i = choose|i: int| 0 <= i < g.len() && g[i] == q;
            let k = if i < j { i } else { i + 1 };
            assert(f[k] == q);
        }
    } else {
        // Then the values are below `top`, one more than there is room for.
        assert(0 <= f[top] < n);
        assert(f[top] != top);
        let g = f.drop_last();
        assert forall|i: int| 0 <= i < g.len() implies 0 <= #[trigger] g[i] < g.len() by {
            assert(g[i] == f[i]);
            assert(f[i] != top);
        }
        assert forall|a: int, b: int| 0 <= a < g.len() && 0 <= b < g.len() && a != b implies g[a]
            != g[b] by {
            assert(g[a] == f[a] && g[b] == f[b]);
        }
        lemma_all_taken(g, f[top]);
        let i = choose|i: int| 0 <= i < g.len() && g[i] == f[top];
        assert(f[i] == f[top]);
        assert(false);
    }
}

/// Every place is the sorted place of some byte.
pub proof fn lemma_sorted_place_onto(column: Seq<u8>, q: int) -> (i: int)
    requires
        0 <= q < column.len(),
    ensures
        0 <= i < column.len(),
        sorted_place(column, i) == q,
{
    let f = Seq::new(column.len(), |i: int| sorted_place(column, i));
    assert forall|i: int| 0 <= i < f.len() implies 0 <= #[trigger] f[i] < f.len() by {
        lemma_sorted_place_bounds(column, i);
    }
    assert forall|a: int, b: int| 0 <= a < f.len() && 0 <= b < f.len() && a != b implies f[a]
        != f[b] by {
        lemma_sorted_place_distinct(column, a, b);
    }
    lemma_all_taken(f, q);
    choose|i: int| 0 <= i < f.len() && f[i] == q
}

/// Following the links from the place of a rotation reads the bytes
/// before that rotation and those after it.
pub proof fn lemma_followed(block: Seq<u8>, p: int, s: int, m: int)
    requires
        0 < block.len() <= u32::MAX,
        0 <= p < block.len(),
        same(block, sorted_rotations(block)[p] as int, s),
        0 <= m,
    ensures
        followed(
            last_column(block, sorted_rotations(block)),
            links(last_column(block, sorted_rotations(block)), block.len() as int),
            p,
            m,
        ) =~= Seq::new(m as nat, |k: int| rotated(block, s + k, block.len() - 1)),
    decreases m,
{
    let n = block.len() as int;
    let order = sorted_rotations(block);
    let column = last_column(block, order);
    lemma_sorted_rotations(block);
    if m > 0 {
        let i = lemma_sorted_place_onto(column, p);
        lemma_links(column, n, i);
        lemma_place_is_earlier(block, i);
        // The rotation at place `p` starts one byte before the rotation
        // at place `i`: that one is the next.
        let x = order[i] as int;
        assert(same(block, x + n - 1, s)) by {
            assert forall|k: int| 0 <= k < n implies #[trigger] rotated(block, x + n - 1, k)
                == rotated(block, s, k) by {
                assert(rotated(block, order[p] as int, k) == rotated(block, x + n - 1, k));
                assert(rotated(block, order[p] as int, k) == rotated(block, s, k));
            }
        }
        lemma_same_next(block, x + n - 1, s);
        lemma_same_turn(block, x, s + 1);
        lemma_followed(block, i, s + 1, m - 1);
        assert(column[p] == rotated(block, order[p] as int, n - 1));
        assert(rotated(block, order[p] as int, n - 1) == rotated(block, s, n - 1));
        let tail = Seq::new((m - 1) as nat, |k: int| rotated(block, s + 1 + k, n - 1));
        let all = Seq::new(m as nat, |k: int| rotated(block, s + k, n - 1));
        assert(seq![column[p]] + tail =~= all);
    }
}

/// Where a value of `order` is found.
pub proof fn lemma_place_of(order: Seq<u32>, x: u32, n: int)
    requires
        0 <= n <= order.len(),
        exists|p: int| 0 <= p < n && order[p] == x,
    ensures
        0 <= place_of(order, x, n) < n,
        order[place_of(order, x, n)] == x,
    decreases n,
{
    if n > 0 && order[n - 1] != x {
        let p = choose|p: int| 0 <= p < n && order[p] == x;
        assert(p < n - 1);
        lemma_place_of(order, x, n - 1);
    }
}

/// Restoring a transformed block gives back the block.
pub proof fn lemma_block_round_trip(block: Seq<u8>)
    requires
        0 < block.len() <= u32::MAX,
    ensures
        ({
            let order = sorted_rotations(block);
            let second: u32 = if block.len() > 1 { 1 } else { 0 };
            let primary = place_of(order, second, order.len() as int);
            &&& 0 <= primary < block.len()
            &&& last_column(block, order).len() == block.len()
            &&& restored_block(last_column(block, order), primary) =~= block
        }),
{
    let n = block.len() as int;
    let order = sorted_rotations(block);
    let second: u32 = if block.len() > 1 { 1 } else { 0 };
    let primary = place_of(order, second, order.len() as int);
    lemma_sorted_rotations(block);
    assert(found(order, second as int));
    lemma_place_of(order, second, n);
    assert(same(block, second as int, 1)) by {
        if n == 1 {
            assert forall|k: int| 0 <= k < n implies #[trigger] rotated(block, 0, k) == rotated(
                block,
                1,
                k,
            ) by {}
        }
    }
    lemma_followed(block, primary, 1, n);
    let read = Seq::new(n as nat, |k: int| rotated(block, 1 + k, n - 1));
    assert forall|k: int| 0 <= k < n implies #[trigger] read[k] == block[k] by {
        vstd::arithmetic::div_mod::lemma_mod_multiples_vanish(1, k, n);
        vstd::arithmetic::div_mod::lemma_small_mod(k as nat, n as nat);
        assert(1 + k + (n - 1) == n * 1 + k);
    }
    assert(read =~= block);
}

/// Restoring the transformed blocks of some data gives back the data.
pub proof fn lemma_round_trip_from(data: Seq<u8>, capacity: nat, input: Seq<u8>, pos: int)
    requires
        1 <= capacity <= u32::MAX,
        0 <= pos <= input.len(),
        input.skip(pos) =~= transformed_from(data, capacity),
    ensures
        restored_from(input, pos, capacity) == Ok::<Seq<u8>, DecodeError>(data),
    decreases data.len(),
{
    if data.len() == 0 {
        assert(data =~= Seq::<u8>::empty());
    } else {
        let n = if data.len() < capacity { data.len() } else { capacity };
        let block = data.take(n as int);
        let order = sorted_rotations(block);
        let column = last_column(block, order);
        let second: u32 = if block.len() > 1 { 1 } else { 0 };
        let primary = place_of(order, second, order.len() as int);
        let next = transformed_from(data.skip(n as int), capacity);
        let here = input.skip(pos);
        lemma_block_round_trip(block);
        lemma_u64_bytes_value(primary as u64);
        let head = u64_bytes(primary as u64);
        assert(here =~= head + column + next);
        assert(input.len() - pos == 8 + n + next.len());
        assert(u64_at(input, pos) == u64_at(head, 0)) by {
            assert(input[pos] == here[0] && here[0] == head[0]);
            assert(input[pos + 1] == here[1] && here[1] == head[1]);
            assert(input[pos + 2] == here[2] && here[2] == head[2]);
            assert(input[pos + 3] == here[3] && here[3] == head[3]);
            assert(input[pos + 4] == here[4] && here[4] == head[4]);
            assert(input[pos + 5] == here[5] && here[5] == head[5]);
            assert(input[pos + 6] == here[6] && here[6] == head[6]);
            assert(input[pos + 7] == here[7] && here[7] == head[7]);
        }
        if data.len() < capacity {
            assert(data.skip(n as int) =~= Seq::<u8>::empty());
            assert(next =~= Seq::<u8>::empty());
        }
        assert(input.subrange(pos + 8, pos + 8 + n) =~= column) by {
            assert forall|k: int| 0 <= k < n implies input[pos + 8 + k] == column[k] by {
                assert(input[pos + 8 + k] == here[8 + k]);
            }
        }
        assert(input.skip(pos + 8 + n) =~= next) by {
            assert forall|k: int| 0 <= k < next.len() implies input[pos + 8 + n + k] == next[k] by {
                assert(input[pos + 8 + n + k] == here[8 + n + k]);
            }
        }
        lemma_round_trip_from(data.skip(n as int), capacity, input, pos + 8 + n);
        assert(block + data.skip(n as int) =~= data);
    }
}

/// Restoring what the transform produced gives back the data, for every
/// block size but zero.
pub proof fn lemma_round_trip(data: Seq<u8>, capacity: nat)
    requires
        1 <= capacity <= u32::MAX,
    ensures
        restored(transformed(data, capacity)) == Ok::<Seq<u8>, DecodeError>(data),
{
    let input = transformed(data, capacity);
    let head = u64_bytes(capacity as u64);
    lemma_u64_bytes_value(capacity as u64);
    assert(input =~= head + transformed_from(data, capacity));
    assert(u64_at(input, 0) == u64_at(head, 0)) by {
        assert(input[0] == head[0]);
        assert(input[1] == head[1]);
        assert(input[2] == head[2]);
        assert(input[3] == head[3]);
        assert(input[4] == head[4]);
        assert(input[5] == head[5]);
        assert(input[6] == head[6]);
        assert(input[7] == head[7]);
    }
    assert(input.skip(8) =~= transformed_from(data, capacity));
    lemma_round_trip_from(data, capacity, input, 8);
}

} // verus!
