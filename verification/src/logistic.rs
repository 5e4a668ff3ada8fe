//! Fixed-point logistic map (`squash`) and its inverse (`stretch`).
//!
//! Probabilities are 12-bit values in `[0, 4095]`; stretched probabilities
//! are log-odds in `[-2047, 2047]`.

use vstd::prelude::*;

verus! {

/// The 33 anchors of the logistic curve, one per 128 steps of the input.
pub open spec fn anchors() -> Seq<i32> {
    seq![
        1i32, 2, 3, 6, 10, 16, 27, 45, 73, 120, 194, 310, 488, 747, 1101,
        1546, 2047, 2549, 2994, 3348, 3607, 3785, 3901, 3975, 4022,
        4050, 4068, 4079, 4085, 4089, 4092, 4093, 4094,
    ]
}

/// Linear interpolation between the two anchors around `d`, rounded to
/// nearest; saturates to 0 and 4095 outside `[-2047, 2047]`.
pub open spec fn squash_spec(d: int) -> int {
    if d > 2047 {
        4095
    } else if d < -2047 {
        0
    } else {
        let w = (d + 2048) % 128;
        let i = (d + 2048) / 128;
        (anchors()[i] * (128 - w) + anchors()[i + 1] * w + 64) / 128
    }
}

/// The least `y >= x` whose squash reaches `p`, capped at 2047.
pub open spec fn stretch_from(p: int, x: int) -> int
    decreases 2047 - x,
{
    if x >= 2047 {
        2047
    } else if squash_spec(x) >= p {
        x
    } else {
        stretch_from(p, x + 1)
    }
}

/// The least stretched value in `[-2047, 2047]` whose squash reaches `p`,
/// or 2047 when none does.
pub open spec fn stretch_spec(p: int) -> int {
    stretch_from(p, -2047)
}

/// `r` is the least value in range whose squash reaches `p` (or the cap).
pub open spec fn is_stretch(p: int, r: int) -> bool {
    &&& -2047 <= r <= 2047
    &&& forall|x: int| -2047 <= x < r ==> squash_spec(x) < p
    &&& r < 2047 ==> squash_spec(r) >= p
}

/// The anchors rise, by at most 502 from one to the next.
pub proof fn lemma_anchor_step(i: int)
    requires
        0 <= i < 32,
    ensures
        1 <= anchors()[i] <= anchors()[i + 1] <= 4094,
        anchors()[i + 1] - anchors()[i] <= 502,
{
}

/// One step of the input never lowers the output and raises it by at most 4.
pub proof fn lemma_squash_step(d: int)
    ensures
        squash_spec(d) <= squash_spec(d + 1) <= squash_spec(d) + 4,
        0 <= squash_spec(d) <= 4095,
{
    if -2047 <= d < 2047 {
        let w = (d + 2048) % 128;
        let i = (d + 2048) / 128;
        lemma_anchor_step(i);
        let a = anchors()[i] as int;
        let b = anchors()[i + 1] as int;
        let n0 = a * (128 - w) + b * w + 64;
        let n1 = a * (128 - (w + 1)) + b * (w + 1) + 64;
        assert(n1 == n0 + (b - a)) by (nonlinear_arith)
            requires
                n0 == a * (128 - w) + b * w + 64,
                n1 == a * (128 - (w + 1)) + b * (w + 1) + 64,
        ;
        assert(0 <= n0 && n1 <= 4094 * 128 + 64) by (nonlinear_arith)
            requires
                n0 == a * (128 - w) + b * w + 64,
                n1 == a * (128 - (w + 1)) + b * (w + 1) + 64,
                1 <= a <= b <= 4094,
                0 <= w < 128,
        ;
        assert(squash_spec(d) == n0 / 128);
        if w < 127 {
            assert(squash_spec(d + 1) == n1 / 128);
        } else {
            assert((d + 1 + 2048) / 128 == i + 1);
            assert((d + 1 + 2048) % 128 == 0);
            assert(n1 == b * 128 + 64) by (nonlinear_arith)
                requires
                    n1 == a * (128 - (w + 1)) + b * (w + 1) + 64,
                    w == 127,
            ;
            if i + 1 < 32 {
                lemma_anchor_step(i + 1);
            }
            assert(squash_spec(d + 1) == n1 / 128);
        }
    } else if d == 2047 {
        lemma_squash_ends();
    } else if d == -2048 {
        lemma_squash_ends();
    }
}

/// The values of `squash` at the two ends of its unsaturated range.
pub proof fn lemma_squash_ends()
    ensures
        squash_spec(-2047) == 1,
        squash_spec(2047) == 4094,
{
    assert(anchors()[0] == 1 && anchors()[1] == 2);
    assert(anchors()[31] == 4093 && anchors()[32] == 4094);
}

/// `squash` is non-decreasing.
pub proof fn lemma_squash_monotone(d1: int, d2: int)
    requires
        d1 <= d2,
    ensures
        squash_spec(d1) <= squash_spec(d2),
    decreases d2 - d1,
{
    if d1 < d2 {
        lemma_squash_monotone(d1, d2 - 1);
        lemma_squash_step(d2 - 1);
    }
}

/// Searching upwards from a value below which nothing reaches `p`
/// finds the least value that does.
pub proof fn lemma_stretch_from(p: int, x: int)
    requires
        -2047 <= x <= 2047,
        forall|y: int| -2047 <= y < x ==> squash_spec(y) < p,
    ensures
        is_stretch(p, stretch_from(p, x)),
    decreases 2047 - x,
{
    if x < 2047 && squash_spec(x) < p {
        lemma_stretch_from(p, x + 1);
    }
}

/// `stretch_spec(p)` is the least in-range value whose squash reaches `p`.
pub proof fn lemma_stretch_is_least(p: int)
    ensures
        is_stretch(p, stretch_spec(p)),
{
    lemma_stretch_from(p, -2047);
}

/// There is only one least value.
pub proof fn lemma_is_stretch_unique(p: int, r1: int, r2: int)
    requires
        is_stretch(p, r1),
        is_stretch(p, r2),
    ensures
        r1 == r2,
{
}

/// Squashing a stretched probability lands within a few steps of it: never
/// more than one below, never more than three above.
pub proof fn lemma_squash_stretch_near(p: int)
    requires
        0 <= p <= 4095,
    ensures
        -1 <= squash_spec(stretch_spec(p)) - p <= 3,
{
    let r = stretch_spec(p);
    lemma_stretch_is_least(p);
    lemma_squash_step(r);
    lemma_squash_step(r - 1);
    lemma_squash_ends();
}

/// On the image of `squash`, `stretch` is an exact right inverse.
pub proof fn lemma_squash_stretch_exact(d: int)
    requires
        -2047 <= d <= 2047,
    ensures
        squash_spec(stretch_spec(squash_spec(d))) == squash_spec(d),
{
    let p = squash_spec(d);
    let r = stretch_spec(p);
    lemma_stretch_is_least(p);
    lemma_squash_ends();
    lemma_squash_monotone(d, 2047);
    if r < d {
        lemma_squash_monotone(r, d);
    }
}

/// `stretch` is non-decreasing.
pub proof fn lemma_stretch_monotone(p1: int, p2: int)
    requires
        p1 <= p2,
    ensures
        stretch_spec(p1) <= stretch_spec(p2),
{
    lemma_stretch_is_least(p1);
    lemma_stretch_is_least(p2);
}

/// Stretching a squashed value is non-decreasing in the value.
pub proof fn lemma_stretch_squash_monotone(d1: int, d2: int)
    requires
        d1 <= d2,
    ensures
        stretch_spec(squash_spec(d1)) <= stretch_spec(squash_spec(d2)),
{
    lemma_squash_monotone(d1, d2);
    lemma_stretch_monotone(squash_spec(d1), squash_spec(d2));
}

/// Logistic map from a stretched value to a 12-bit probability.
pub fn squash(d: i32) -> (p: i32)
    ensures
        p == squash_spec(d as int),
        0 <= p <= 4095,
{
    if d > 2047 {
        return 4095;
    }
    if d < -2047 {
        return 0;
    }
    let t: [i32; 33] = [
        1, 2, 3, 6, 10, 16, 27, 45, 73, 120, 194, 310, 488, 747, 1101,
        1546, 2047, 2549, 2994, 3348, 3607, 3785, 3901, 3975, 4022,
        4050, 4068, 4079, 4085, 4089, 4092, 4093, 4094,
    ];
    assert(t@ =~= anchors());
    let w: i32 = (d + 2048) % 128;
    let i: usize = ((d + 2048) / 128) as usize;
    proof {
        lemma_anchor_step(i as int);
        lemma_squash_step(d as int);
    }
    let a: i32 = t[i];
    let b: i32 = t[i + 1];
    assert(0 <= a * (128 - w) <= 4094 * 128) by (nonlinear_arith)
        requires
            1 <= a <= 4094,
            0 <= w < 128,
    ;
    assert(0 <= b * w <= 4094 * 128) by (nonlinear_arith)
        requires
            1 <= b <= 4094,
            0 <= w < 128,
    ;
    (a * (128 - w) + b * w + 64) / 128
}

/// Tabulates `stretch` for every 12-bit probability by inverting `squash`.
pub fn build_stretch_table() -> (table: Vec<i16>)
    ensures
        table@.len() == 4096,
        forall|p: int| 0 <= p < 4096 ==> table@[p] == stretch_spec(p),
{
    let mut table: Vec<i16> = vec![0i16; 4096];
    let mut pi: i32 = 0;
    let mut x: i32 = -2047;
    while x <= 2047
        invariant
            -2047 <= x <= 2048,
            table@.len() == 4096,
            0 <= pi <= 4095,
            forall|y: int| -2047 <= y < x ==> squash_spec(y) < pi,
            forall|p: int| 0 <= p < pi ==> table@[p] == stretch_spec(p),
        decreases 2048 - x,
    {
        let i: i32 = squash(x);
        proof {
            lemma_squash_monotone(x as int, 2047);
            lemma_squash_ends();
        }
        let mut j: i32 = pi;
        while j <= i
            invariant
                -2047 <= x <= 2047,
                table@.len() == 4096,
                0 <= pi <= j <= 4095,
                i == squash_spec(x as int),
                i <= 4094,
                forall|y: int| -2047 <= y < x ==> squash_spec(y) < pi,
                forall|p: int| 0 <= p < j ==> table@[p] == stretch_spec(p),
            decreases i + 1 - j,
        {
            table[j as usize] = x as i16;
            proof {
                lemma_stretch_is_least(j as int);
                assert(is_stretch(j as int, x as int));
                lemma_is_stretch_unique(j as int, x as int, stretch_spec(j as int));
            }
            j += 1;
        }
        proof {
            assert forall|y: int| -2047 <= y < x + 1 implies squash_spec(y) < i + 1 by {
                lemma_squash_monotone(y, x as int);
            }
        }
        if pi < i + 1 {
            pi = i + 1;
        }
        x += 1;
    }
    table[4095] = 2047;
    proof {
        lemma_stretch_is_least(4095);
        lemma_squash_ends();
        assert forall|y: int| -2047 <= y < 2047 implies squash_spec(y) < 4095 by {
            lemma_squash_monotone(y, 2047);
        }
        assert(is_stretch(4095, 2047));
        lemma_is_stretch_unique(4095, 2047, stretch_spec(4095));
    }
    table
}

/// A tabulated `stretch`, for callers that stretch once per coded bit.
pub struct StretchTable {
    table: Vec<i16>,
}

impl StretchTable {
    /// The table holds `stretch` of every 12-bit probability.
    pub closed spec fn wf(&self) -> bool {
        &&& self.table@.len() == 4096
        &&& forall|p: int| 0 <= p < 4096 ==> self.table@[p] == stretch_spec(p)
    }

    /// The table, filled.
    pub fn new() -> (t: Self)
        ensures
            t.wf(),
    {
        StretchTable { table: build_stretch_table() }
    }

    /// Looks up the stretched value of probability `p`.
    pub fn stretch(&self, p: i32) -> (s: i32)
        requires
            self.wf(),
            0 <= p <= 4095,
        ensures
            s == stretch_spec(p as int),
            -2047 <= s <= 2047,
    {
        proof {
            lemma_stretch_is_least(p as int);
        }
        self.table[p as usize] as i32
    }
}

/// Inverse of `squash`: the least stretched value whose squash reaches `p`.
pub fn stretch(p: i32) -> (s: i32)
    requires
        0 <= p <= 4095,
    ensures
        s == stretch_spec(p as int),
        -2047 <= s <= 2047,
{
    let mut lo: i32 = -2047;
    let mut hi: i32 = 2047;
    while lo < hi
        invariant
            -2047 <= lo <= hi <= 2047,
            forall|y: int| -2047 <= y < lo ==> squash_spec(y) < p,
            hi < 2047 ==> squash_spec(hi as int) >= p,
        decreases hi - lo,
    {
        let mid: i32 = lo + (hi - lo) / 2;
        if squash(mid) >= p {
            hi = mid;
        } else {
            proof {
                assert forall|y: int| -2047 <= y < mid + 1 implies squash_spec(y) < p by {
                    lemma_squash_monotone(y, mid as int);
                }
            }
            lo = mid + 1;
        }
    }
    proof {
        lemma_stretch_is_least(p as int);
        lemma_is_stretch_unique(p as int, lo as int, stretch_spec(p as int));
    }
    lo
}

} // verus!
