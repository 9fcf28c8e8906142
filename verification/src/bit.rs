//! A prefix-sum index (binary indexed tree): point updates and prefix sums
//! over a fixed-length array of values, both in logarithmic time.
//!
//! Internally, slot `i` (1-based) holds the sum of the value range
//! `[i - low_bit(i), i)`; updating a value touches every slot whose range
//! covers it, and a prefix sum stitches together disjoint ranges.
use vstd::pervasive::VecAdditionalExecFns;
use vstd::prelude::*;

verus! {

/// The lowest set bit of `i`.
pub open spec fn low_bit(i: u64) -> u64
    recommends
        i >= 1,
{
    i & !((i - 1) as u64)
}

/// The sum of the values `v[lo..hi]`.
pub open spec fn range_sum(v: Seq<int>, lo: int, hi: int) -> int
    decreases hi - lo,
{
    if hi <= lo {
        0
    } else {
        range_sum(v, lo, hi - 1) + v[hi - 1]
    }
}

/// The lowest set bit is between 1 and `i`.
pub proof fn lemma_low_bit_range(i: u64)
    requires
        1 <= i,
    ensures
        1 <= low_bit(i) <= i,
{
    assert(1 <= low_bit(i) <= i) by (bit_vector)
        requires
            1 <= i,
    ;
}

/// Stepping from a slot covering `x` to the next slot still covers `x`.
pub proof fn lemma_low_bit_step(i: u64, x: u64)
    requires
        1 <= i <= 0x1000_0000,
        i - low_bit(i) <= x < i,
    ensures
        i + low_bit(i) <= 0x2000_0000,
        1 <= low_bit((i + low_bit(i)) as u64),
        low_bit((i + low_bit(i)) as u64) <= (i + low_bit(i)) as u64,
        (i + low_bit(i)) - low_bit((i + low_bit(i)) as u64) <= x,
{
    lemma_low_bit_range(i);
    let i2: u64 = (i + low_bit(i)) as u64;
    assert(i2 == i + low_bit(i) && 1 <= low_bit(i2) <= i2 && i2 - low_bit(i2) <= x) by (
    bit_vector)
        requires
            1 <= i <= 0x1000_0000,
            i - low_bit(i) <= x < i,
            i2 == i + low_bit(i),
    ;
}

/// No slot strictly between `i` and `i + low_bit(i)` covers `x`.
pub proof fn lemma_low_bit_gap(i: u64, j: u64, x: u64)
    requires
        1 <= i <= 0x1000_0000,
        i - low_bit(i) <= x < i,
        i < j,
        j < i + low_bit(i),
    ensures
        j - low_bit(j) > x,
{
    lemma_low_bit_range(i);
    assert(j - low_bit(j) > x) by (bit_vector)
        requires
            1 <= i <= 0x1000_0000,
            i - low_bit(i) <= x < i,
            i < j,
            j < i + low_bit(i),
    ;
}

/// A range of zeroes sums to zero.
proof fn lemma_range_sum_zero(v: Seq<int>, lo: int, hi: int)
    requires
        0 <= lo <= hi <= v.len(),
        forall|j: int| lo <= j < hi ==> v[j] == 0,
    ensures
        range_sum(v, lo, hi) == 0,
    decreases hi - lo,
{
    if hi > lo {
        lemma_range_sum_zero(v, lo, hi - 1);
    }
}

/// Changing one value moves every containing range sum by the difference.
proof fn lemma_range_sum_update(v: Seq<int>, lo: int, hi: int, idx: int, x: int)
    requires
        0 <= lo <= hi <= v.len(),
        0 <= idx < v.len(),
    ensures
        range_sum(v.update(idx, x), lo, hi) == range_sum(v, lo, hi) + if lo <= idx < hi {
            x - v[idx]
        } else {
            0
        },
    decreases hi - lo,
{
    if hi > lo {
        lemma_range_sum_update(v, lo, hi - 1, idx, x);
    }
}

/// Adjacent ranges add up.
proof fn lemma_range_sum_split(v: Seq<int>, lo: int, mid: int, hi: int)
    requires
        0 <= lo <= mid <= hi <= v.len(),
    ensures
        range_sum(v, lo, hi) == range_sum(v, lo, mid) + range_sum(v, mid, hi),
    decreases hi - mid,
{
    if hi > mid {
        lemma_range_sum_split(v, lo, mid, hi - 1);
    }
}

/// A range sum over bounded values is itself bounded.
proof fn lemma_range_sum_bounds(v: Seq<int>, lo: int, hi: int, b: int)
    requires
        0 <= lo <= hi <= v.len(),
        b >= 0,
        forall|j: int| lo <= j < hi ==> -b <= #[trigger] v[j] <= b,
    ensures
        -(hi - lo) * b <= range_sum(v, lo, hi) <= (hi - lo) * b,
    decreases hi - lo,
{
    if hi > lo {
        lemma_range_sum_bounds(v, lo, hi - 1, b);
        assert(-b <= v[hi - 1] <= b);
        assert(range_sum(v, lo, hi) == range_sum(v, lo, hi - 1) + v[hi - 1]);
        assert((hi - 1 - lo) * b + b == (hi - lo) * b) by (nonlinear_arith);
        assert((-(hi - 1 - lo)) * b - b == (-(hi - lo)) * b) by (nonlinear_arith);
    } else {
        assert((hi - lo) * b == 0) by (nonlinear_arith)
            requires
                hi == lo,
        ;
    }
}

/// Widening a bounded factor keeps the product bounded.
proof fn lemma_mul_le(a: int, a2: int, b: int)
    requires
        0 <= a <= a2,
        0 <= b,
    ensures
        a * b <= a2 * b,
{
    assert(a * b <= a2 * b) by (nonlinear_arith)
        requires
            0 <= a <= a2 && 0 <= b,
    ;
}

/// A prefix-sum index over `i64` values.
pub struct BinaryIndexedTree {
    n: usize,
    nodes: Vec<i64>,
    vals: Ghost<Seq<int>>,
}

impl BinaryIndexedTree {
    /// The values currently indexed.
    pub closed spec fn view(&self) -> Seq<int> {
        self.vals@
    }

    /// Internal soundness: slot `i` carries the sum of the value range
    /// `[i - low_bit(i), i)`, and every value is small enough that no sum
    /// can overflow.
    pub closed spec fn wf(&self) -> bool {
        &&& self.n <= 0x100_0000
        &&& self.nodes@.len() == self.n + 1
        &&& self.vals@.len() == self.n as int
        &&& forall|j: int|
            0 <= j < self.n ==> -0x1_0000_0000 <= #[trigger] self.vals@[j] <= 0x1_0000_0000
        &&& forall|i: int|
            1 <= i <= self.n ==> #[trigger] self.nodes@[i] == range_sum(
                self.vals@,
                i - low_bit(i as u64),
                i,
            )
    }

    /// An index over `n` values, all zero.
    pub fn new(n: usize) -> (t: BinaryIndexedTree)
        requires
            n <= 0x100_0000,
        ensures
            t.wf(),
            t@.len() == n,
            forall|j: int| 0 <= j < n ==> t@[j] == 0,
    {
        let mut nodes: Vec<i64> = Vec::new();
        let m = n + 1;
        let mut i: usize = 0;
        while i < m
            invariant
                m == n + 1,
                i <= n + 1,
                nodes@.len() == i,
                forall|j: int| 0 <= j < i ==> nodes@[j] == 0,
            decreases n + 1 - i,
        {
            nodes.push(0);
            i = i + 1;
        }
        let t = BinaryIndexedTree { n, nodes, vals: Ghost(Seq::new(n as nat, |j: int| 0)) };
        proof {
            assert forall|i2: int| 1 <= i2 <= n implies #[trigger] t.nodes@[i2] == range_sum(
                t.vals@,
                i2 - low_bit(i2 as u64),
                i2,
            ) by {
                lemma_low_bit_range(i2 as u64);
                lemma_range_sum_zero(t.vals@, i2 - low_bit(i2 as u64), i2);
            }
        }
        t
    }

    /// An index over the given values.
    pub fn from(v: Vec<i64>) -> (t: BinaryIndexedTree)
        requires
            v@.len() <= 0x100_0000,
            forall|j: int| 0 <= j < v@.len() ==> -0x1_0000_0000 <= #[trigger] v@[j] <= 0x1_0000_0000,
        ensures
            t.wf(),
            t@.len() == v@.len(),
            forall|j: int| 0 <= j < v@.len() ==> t@[j] == v@[j],
    {
        let n = v.len();
        let mut ans = BinaryIndexedTree::new(n);
        let mut i: usize = 0;
        while i < n
            invariant
                i <= n == v@.len(),
                ans.wf(),
                ans@.len() == n,
                forall|j: int| 0 <= j < i ==> ans@[j] == v@[j],
                forall|j: int| i <= j < n ==> ans@[j] == 0,
                forall|j: int|
                    0 <= j < v@.len() ==> -0x1_0000_0000 <= #[trigger] v@[j] <= 0x1_0000_0000,
            decreases n - i,
        {
            ans.update(i, v[i]);
            i = i + 1;
        }
        ans
    }

    /// Add `delta` to the value at `idx`; an index past the end changes
    /// nothing.
    pub fn update(&mut self, idx: usize, delta: i64)
        requires
            old(self).wf(),
            idx < old(self)@.len() ==> -0x1_0000_0000 <= old(self)@[idx as int] + delta
                <= 0x1_0000_0000,
        ensures
            final(self).wf(),
            idx < old(self)@.len() ==> final(self)@ == old(self)@.update(
                idx as int,
                old(self)@[idx as int] + delta,
            ),
            idx >= old(self)@.len() ==> *final(self) == *old(self),
    {
        if idx >= self.n {
            return;
        }
        let ghost v0 = self.vals@;
        let ghost v1 = v0.update(idx as int, v0[idx as int] + delta);
        self.vals = Ghost(v1);
        let mut i: u64 = (idx as u64) + 1;
        proof {
            lemma_low_bit_range(i);
        }
        while i <= (self.n as u64)
            invariant
                self.wf_except(v0, v1, idx as int, i),
                v1 == v0.update(idx as int, v0[idx as int] + delta),
                idx < v0.len() == self.n as int,
                -0x1_0000_0000 <= v1[idx as int] <= 0x1_0000_0000,
                self.vals@ == v1,
                idx < i,
                1 <= i <= 0x2000_0000,
                i - low_bit(i) <= idx,
            decreases (if i as int <= self.n as int {
                1 + self.n as int - i as int
            } else {
                0
            }),
        {
            let ghost lo = i as int - low_bit(i) as int;
            proof {
                lemma_low_bit_range(i);
                lemma_range_sum_update(v0, lo, i as int, idx as int, v1[idx as int]);
                assert(v1 =~= v0.update(idx as int, v1[idx as int]));
                lemma_range_sum_bounds(v1, lo, i as int, 0x1_0000_0000);
                lemma_mul_le(i as int - lo, 0x100_0000, 0x1_0000_0000);
                lemma_range_sum_bounds(v0, lo, i as int, 0x1_0000_0000);
            }
            let cur = self.nodes[i as usize];
            self.nodes.set(i as usize, cur + delta);
            let step = low_bit_exec(i);
            proof {
                lemma_low_bit_step(i, idx as u64);
                let ghost inext = i + step;
                assert forall|j: u64| i < j && j < inext implies !(j - low_bit(j) <= idx) by {
                    lemma_low_bit_gap(i, j, idx as u64);
                }
            }
            i = i + step;
        }
        proof {
            assert forall|j: int| 1 <= j <= self.n implies #[trigger] self.nodes@[j] == range_sum(
                v1,
                j - low_bit(j as u64),
                j,
            ) by {
                lemma_low_bit_range(j as u64);
                let lo = j - low_bit(j as u64);
                if !(lo <= idx < j) {
                    lemma_range_sum_update(v0, lo, j, idx as int, v1[idx as int]);
                    assert(v1 =~= v0.update(idx as int, v1[idx as int]));
                }
            }
        }
    }

    /// What the update loop maintains: every slot holds its range sum, over
    /// the new values for covered slots already visited, over the old values
    /// for the rest.
    spec fn wf_except(&self, v0: Seq<int>, v1: Seq<int>, idx: int, i: u64) -> bool {
        &&& self.n <= 0x100_0000
        &&& self.nodes@.len() == self.n + 1
        &&& self.vals@.len() == self.n as int
        &&& v0.len() == self.n as int
        &&& forall|j: int| 0 <= j < self.n ==> -0x1_0000_0000 <= #[trigger] v1[j] <= 0x1_0000_0000
        &&& forall|j: int| 0 <= j < self.n ==> -0x1_0000_0000 <= #[trigger] v0[j] <= 0x1_0000_0000
        &&& forall|j: int|
            1 <= j <= self.n ==> #[trigger] self.nodes@[j] == (if j < i && j - low_bit(j as u64)
                <= idx < j {
                range_sum(v1, j - low_bit(j as u64), j)
            } else {
                range_sum(v0, j - low_bit(j as u64), j)
            })
    }

    /// The sum of the values at positions `0 ..= idx`.
    pub fn sum_to(&mut self, idx: usize) -> (s: i64)
        requires
            old(self).wf(),
            idx < old(self)@.len(),
        ensures
            *final(self) == *old(self),
            s == range_sum(old(self)@, 0, idx as int + 1),
    {
        let ghost v = self.vals@;
        let mut i: u64 = idx as u64 + 1;
        let mut sum: i64 = 0;
        while i > 0
            invariant
                self.wf(),
                *self == *old(self),
                v == self.vals@,
                idx < v.len() == self.n as int,
                i <= idx + 1,
                sum == range_sum(v, i as int, idx as int + 1),
            decreases i,
        {
            proof {
                lemma_low_bit_range(i);
                let lo = i as int - low_bit(i) as int;
                lemma_range_sum_split(v, lo, i as int, idx as int + 1);
                lemma_range_sum_bounds(v, lo, idx as int + 1, 0x1_0000_0000);
                lemma_mul_le(idx as int + 1 - lo, 0x100_0000, 0x1_0000_0000);
            }
            sum = sum + self.nodes[i as usize];
            i = i - low_bit_exec(i);
        }
        sum
    }

    /// The sum of the values at positions `idx ..= end`.
    pub fn sum_of_range(&mut self, idx: usize, end: usize) -> (s: i64)
        requires
            old(self).wf(),
            idx <= end < old(self)@.len(),
        ensures
            *final(self) == *old(self),
            s == range_sum(old(self)@, idx as int, end as int + 1),
    {
        let ghost v = self.vals@;
        let hi = self.sum_to(end);
        if idx == 0 {
            hi
        } else {
            let lo = self.sum_to(idx - 1);
            proof {
                lemma_range_sum_split(v, 0, idx as int, end as int + 1);
                lemma_range_sum_bounds(v, 0, idx as int, 0x1_0000_0000);
                lemma_mul_le(idx as int, 0x100_0000, 0x1_0000_0000);
                lemma_range_sum_bounds(v, idx as int, end as int + 1, 0x1_0000_0000);
                lemma_mul_le(end as int + 1 - idx as int, 0x100_0000, 0x1_0000_0000);
            }
            hi - lo
        }
    }
}

/// The lowest set bit of `i`.
fn low_bit_exec(i: u64) -> (r: u64)
    requires
        i >= 1,
    ensures
        r == low_bit(i),
{
    i & !(i - 1)
}

} // verus!
