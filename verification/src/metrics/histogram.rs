//! The integer state of the log-exponential histogram: the bucket arrays,
//! the scale and the observation counters. Boundaries of a bin at scale `s`
//! lie at powers of `base = 2 ^ (2 ^ -s)`; bin `i` counts the values in
//! `(base^i, base^(i+1)]`.
use vstd::prelude::*;
use vstd::arithmetic::power2::pow2;
use vstd::arithmetic::div_mod::{lemma_fundamental_div_mod, lemma_mod_bound, lemma_fundamental_div_mod_converse};
use crate::arith::{lemma_i32_shr_is_floor_div, lemma_one_shl_u32};

verus! {

/// Sum of `s[lo..hi]`.
pub open spec fn range_sum(s: Seq<u64>, lo: int, hi: int) -> int
    decreases hi - lo,
{
    if hi <= lo {
        0
    } else {
        range_sum(s, lo, hi - 1) + s[hi - 1]
    }
}

/// Sum of all of `s`.
pub open spec fn seq_total(s: Seq<u64>) -> int {
    range_sum(s, 0, s.len() as int)
}

/// A run of `n` zero counts.
pub open spec fn zeros(n: int) -> Seq<u64> {
    Seq::new(n as nat, |i: int| 0u64)
}

/// The count that a bucket array (first bin, counts) holds for `bin`.
pub open spec fn count_at(v: (int, Seq<u64>), bin: int) -> int {
    if v.0 <= bin < v.0 + v.1.len() {
        v.1[bin - v.0] as int
    } else {
        0
    }
}

/// Every bin of a bucket array is an `i32`.
pub open spec fn buckets_fit(v: (int, Seq<u64>)) -> bool {
    &&& i32::MIN <= v.0 <= i32::MAX
    &&& v.1.len() > 0 ==> v.0 + v.1.len() - 1 <= i32::MAX
}

/// The lowest bin covered once `bin` is recorded.
pub open spec fn low_after(v: (int, Seq<u64>), bin: int) -> int {
    if v.1.len() == 0 || bin < v.0 {
        bin
    } else {
        v.0
    }
}

/// The highest bin covered once `bin` is recorded.
pub open spec fn high_after(v: (int, Seq<u64>), bin: int) -> int {
    if v.1.len() == 0 || bin >= v.0 + v.1.len() {
        bin
    } else {
        v.0 + v.1.len() - 1
    }
}

/// The bucket array after one observation in `bin`: the array grows to
/// cover `bin`, with zero counts for the new bins in between.
pub open spec fn recorded(v: (int, Seq<u64>), bin: int) -> (int, Seq<u64>) {
    let start = v.0;
    let counts = v.1;
    if counts.len() == 0 {
        (bin, seq![1u64])
    } else if start <= bin < start + counts.len() {
        (start, counts.update(bin - start, (counts[bin - start] + 1) as u64))
    } else if bin < start {
        (bin, seq![1u64] + zeros(start - bin - 1) + counts)
    } else {
        (start, counts + zeros(bin - (start + counts.len())) + seq![1u64])
    }
}

/// What a bucket array needs for one more observation in `bin`: the count
/// of `bin` does not overflow and the grown array fits in memory.
pub open spec fn can_record(v: (int, Seq<u64>), bin: int) -> bool {
    &&& count_at(v, bin) < u64::MAX
    &&& high_after(v, bin) - low_after(v, bin) + 1 <= usize::MAX
}

/// `x` modulo `2^delta`, in `[0, 2^delta)`.
pub open spec fn shift_offset(x: int, delta: nat) -> int {
    x % (pow2(delta) as int)
}

/// First index of `counts` that falls into group `j` when the indices,
/// moved up by `offset`, are grouped by `steps`.
pub open spec fn group_lo(offset: int, steps: int, j: int) -> int {
    if j * steps - offset < 0 {
        0
    } else {
        j * steps - offset
    }
}

/// One past the last index of a `len`-long `counts` in group `j`.
pub open spec fn group_hi(len: int, offset: int, steps: int, j: int) -> int {
    if (j + 1) * steps - offset > len {
        len
    } else {
        (j + 1) * steps - offset
    }
}

/// Total count of group `j`.
pub open spec fn group_sum(s: Seq<u64>, offset: int, steps: int, j: int) -> int {
    range_sum(s, group_lo(offset, steps, j), group_hi(s.len() as int, offset, steps, j))
}

/// The bucket array at a scale lowered by `delta`: bin `b` becomes bin
/// `floor(b / 2^delta)` and the counts that meet in one bin add up.
pub open spec fn downscaled(v: (int, Seq<u64>), delta: nat) -> (int, Seq<u64>) {
    let steps = pow2(delta) as int;
    if v.1.len() <= 1 || delta == 0 {
        (v.0 / steps, v.1)
    } else {
        let offset = shift_offset(v.0, delta);
        let n = (v.1.len() - 1 + offset) / steps + 1;
        (v.0 / steps, Seq::new(n as nat, |j: int| group_sum(v.1, offset, steps, j) as u64))
    }
}

/// `range_sum` extends by one element at its upper end.
proof fn lemma_range_sum_snoc(s: Seq<u64>, lo: int, hi: int)
    requires
        lo <= hi,
    ensures
        range_sum(s, lo, hi + 1) == range_sum(s, lo, hi) + s[hi],
{
}

/// A sum over a sub-range is at most the sum over the whole range.
proof fn lemma_range_sum_sub(s: Seq<u64>, lo: int, mid_lo: int, mid_hi: int, hi: int)
    requires
        lo <= mid_lo <= mid_hi <= hi,
    ensures
        0 <= range_sum(s, mid_lo, mid_hi) <= range_sum(s, lo, hi),
    decreases hi - lo,
{
    if hi > mid_hi {
        lemma_range_sum_sub(s, lo, mid_lo, mid_hi, hi - 1);
    } else if mid_lo > lo {
        lemma_range_sum_split(s, lo, mid_lo, hi);
        lemma_range_sum_nonneg(s, lo, mid_lo);
        lemma_range_sum_nonneg(s, mid_lo, hi);
    } else {
        lemma_range_sum_nonneg(s, lo, hi);
    }
}

/// A sum of counts is not negative.
proof fn lemma_range_sum_nonneg(s: Seq<u64>, lo: int, hi: int)
    ensures
        range_sum(s, lo, hi) >= 0,
    decreases hi - lo,
{
    if hi > lo {
        lemma_range_sum_nonneg(s, lo, hi - 1);
    }
}

/// `range_sum` splits at any middle point.
proof fn lemma_range_sum_split(s: Seq<u64>, lo: int, mid: int, hi: int)
    requires
        lo <= mid <= hi,
    ensures
        range_sum(s, lo, hi) == range_sum(s, lo, mid) + range_sum(s, mid, hi),
    decreases hi - mid,
{
    if hi > mid {
        lemma_range_sum_split(s, lo, mid, hi - 1);
    }
}

/// How the index `index` of a bucket array falls into the groups of
/// `steps` consecutive indices, after moving all indices up by `offset`.
proof fn lemma_group_step(index: int, offset: int, steps: int)
    requires
        index >= 1,
        0 <= offset < steps,
        steps >= 2,
    ensures
        ({
            let cur = (index - 1 + offset) / steps;
            let g = (index + offset) / steps;
            &&& 0 <= cur <= index - 1
            &&& 0 <= g <= index
            &&& cur * steps <= index - 1 + offset
            &&& (index + offset) % steps == 0 ==> g == cur + 1 && g * steps - offset == index
            &&& (index + offset) % steps != 0 ==> g == cur
            &&& (cur + 1) * steps > index - 1 + offset
        }),
{
    let a = index - 1 + offset;
    let b = index + offset;
    let qa = a / steps;
    let ra = a % steps;
    lemma_fundamental_div_mod(a, steps);
    lemma_mod_bound(a, steps);
    assert(a == qa * steps + ra) by (nonlinear_arith)
        requires
            a == steps * qa + ra,
    ;
    if ra + 1 == steps {
        assert(b == (qa + 1) * steps + 0) by (nonlinear_arith)
            requires
                a == qa * steps + ra,
                ra + 1 == steps,
                b == a + 1,
        ;
        lemma_fundamental_div_mod_converse(b, steps, qa + 1, 0);
    } else {
        assert(b == qa * steps + (ra + 1)) by (nonlinear_arith)
            requires
                a == qa * steps + ra,
                b == a + 1,
        ;
        lemma_fundamental_div_mod_converse(b, steps, qa, ra + 1);
    }
    assert(0 <= qa <= index - 1) by (nonlinear_arith)
        requires
            a == qa * steps + ra,
            0 <= ra < steps,
            a == index - 1 + offset,
            0 <= offset < steps,
            index >= 1,
            steps >= 2,
    ;
    assert((qa + 1) * steps > a) by (nonlinear_arith)
        requires
            a == qa * steps + ra,
            ra < steps,
    ;
}

/// Sum of the counts of the bins `lo..hi`.
pub open spec fn bins_total(v: (int, Seq<u64>), lo: int, hi: int) -> int
    decreases hi - lo,
{
    if hi <= lo {
        0
    } else {
        bins_total(v, lo, hi - 1) + count_at(v, hi - 1)
    }
}

/// `x` moved into `[0, len]`.
pub open spec fn clip(x: int, len: int) -> int {
    if x < 0 {
        0
    } else if x > len {
        len
    } else {
        x
    }
}

/// The total of a range of bins is the sum of the counts that lie in it.
proof fn lemma_bins_total_is_range_sum(v: (int, Seq<u64>), lo: int, hi: int)
    requires
        lo <= hi,
    ensures
        bins_total(v, lo, hi) == range_sum(
            v.1,
            clip(lo - v.0, v.1.len() as int),
            clip(hi - v.0, v.1.len() as int),
        ),
    decreases hi - lo,
{
    if hi > lo {
        lemma_bins_total_is_range_sum(v, lo, hi - 1);
        let len = v.1.len() as int;
        let i = hi - 1 - v.0;
        if 0 <= i < len {
            lemma_range_sum_snoc(v.1, clip(lo - v.0, len), i);
        }
    }
}

/// The total of a range of bins that covers the whole bucket array is the
/// total of the array.
proof fn lemma_bins_total_covering(v: (int, Seq<u64>), lo: int, hi: int)
    requires
        lo <= v.0,
        v.0 + v.1.len() <= hi,
    ensures
        bins_total(v, lo, hi) == seq_total(v.1),
{
    lemma_bins_total_is_range_sum(v, lo, hi);
}

/// Two bucket arrays that differ by one in `bin` and agree elsewhere have
/// totals over any range that differ by whether `bin` is in it.
proof fn lemma_bins_total_one_more(v1: (int, Seq<u64>), v0: (int, Seq<u64>), bin: int, lo: int, hi: int)
    requires
        forall|b: int| #[trigger] count_at(v1, b) == count_at(v0, b) + (if b == bin { 1int } else { 0int }),
    ensures
        bins_total(v1, lo, hi) == bins_total(v0, lo, hi) + (if lo <= bin < hi { 1int } else { 0int }),
    decreases hi - lo,
{
    if hi > lo {
        lemma_bins_total_one_more(v1, v0, bin, lo, hi - 1);
        assert(count_at(v1, hi - 1) == count_at(v0, hi - 1) + (if hi - 1 == bin { 1int } else { 0int }));
    }
}

/// One observation in `bin` adds one to the count of `bin` and leaves the
/// count of every other bin as it was.
pub proof fn lemma_recorded_counts(v: (int, Seq<u64>), bin: int, b: int)
    requires
        count_at(v, bin) < u64::MAX,
    ensures
        count_at(recorded(v, bin), b) == count_at(v, b) + (if b == bin { 1int } else { 0int }),
{
    let start = v.0;
    let counts = v.1;
    let r = recorded(v, bin);
    if counts.len() == 0 {
    } else if start <= bin < start + counts.len() {
    } else if bin < start {
        let mid = zeros(start - bin - 1);
        assert(r.1 == seq![1u64] + mid + counts);
        if bin <= b < start + counts.len() {
            let k = b - bin;
            if k == 0 {
            } else if k < start - bin {
                assert(r.1[k] == mid[k - 1]);
            } else {
                assert(r.1[k] == counts[k - (start - bin)]);
            }
        }
    } else {
        let mid = zeros(bin - (start + counts.len()));
        assert(r.1 == counts + mid + seq![1u64]);
        if start <= b <= bin {
            let k = b - start;
            if k < counts.len() {
                assert(r.1[k] == counts[k]);
            } else if k < counts.len() + mid.len() {
                assert(r.1[k] == mid[k - counts.len()]);
            }
        }
    }
}

/// One observation adds one to the total of a bucket array.
pub proof fn lemma_recorded_total(v: (int, Seq<u64>), bin: int)
    requires
        count_at(v, bin) < u64::MAX,
    ensures
        seq_total(recorded(v, bin).1) == seq_total(v.1) + 1,
{
    let r = recorded(v, bin);
    assert forall|b: int| #[trigger] count_at(r, b) == count_at(v, b) + (if b == bin { 1int } else { 0int }) by {
        lemma_recorded_counts(v, bin, b);
    }
    let lo = if v.0 < bin { v.0 } else { bin };
    let hi = if v.0 + v.1.len() > bin + 1 { v.0 + v.1.len() } else { bin + 1 };
    lemma_bins_total_one_more(r, v, bin, lo, hi);
    lemma_bins_total_covering(v, lo, hi);
    lemma_bins_total_covering(r, lo, hi);
}

/// The sums of the first `k` groups cover the first indices of the array
/// up to the end of group `k - 1`.
proof fn lemma_group_prefix(s: Seq<u64>, offset: int, steps: int, k: int)
    requires
        s.len() >= 2,
        2 <= steps,
        0 <= offset < steps,
        1 <= k <= (s.len() - 1 + offset) / steps + 1,
        seq_total(s) <= u64::MAX,
    ensures
        range_sum(
            Seq::new(k as nat, |j: int| group_sum(s, offset, steps, j) as u64),
            0,
            k,
        ) == range_sum(s, 0, group_hi(s.len() as int, offset, steps, k - 1)),
    decreases k,
{
    let len = s.len() as int;
    let last = (len - 1 + offset) / steps;
    lemma_fundamental_div_mod(len - 1 + offset, steps);
    lemma_mod_bound(len - 1 + offset, steps);
    let gs = Seq::new(k as nat, |j: int| group_sum(s, offset, steps, j) as u64);
    // `x` is where group `k - 1` would start if nothing were cut off.
    let x = (k - 1) * steps - offset;
    assert(k * steps - offset == x + steps) by (nonlinear_arith)
        requires
            x == (k - 1) * steps - offset,
    ;
    assert(x <= len - 1) by (nonlinear_arith)
        requires
            x == (k - 1) * steps - offset,
            k - 1 <= last,
            len - 1 + offset == steps * last + (len - 1 + offset) % steps,
            0 <= (len - 1 + offset) % steps,
            steps >= 2,
    ;
    assert(x + steps > 0) by (nonlinear_arith)
        requires
            x == (k - 1) * steps - offset,
            k >= 1,
            steps >= 2,
            offset < steps,
    ;
    let lo = group_lo(offset, steps, k - 1);
    let hi = group_hi(len, offset, steps, k - 1);
    assert(0 <= lo <= hi <= len);
    lemma_range_sum_sub(s, 0, lo, hi, len);
    assert(gs[k - 1] as int == range_sum(s, lo, hi));
    if k == 1 {
        assert(x == -offset) by (nonlinear_arith)
            requires
                x == (k - 1) * steps - offset,
                k == 1,
        ;
        assert(lo == 0);
        reveal_with_fuel(range_sum, 2);
    } else {
        lemma_group_prefix(s, offset, steps, k - 1);
        let gs1 = Seq::new((k - 1) as nat, |j: int| group_sum(s, offset, steps, j) as u64);
        lemma_range_sum_prefix_agree(gs, gs1, 0, k - 1);
        assert(x >= 1) by (nonlinear_arith)
            requires
                x == (k - 1) * steps - offset,
                k >= 2,
                steps >= 2,
                offset < steps,
        ;
        assert((k - 2 + 1) * steps - offset == x) by (nonlinear_arith)
            requires
                x == (k - 1) * steps - offset,
        ;
        assert(group_hi(len, offset, steps, k - 2) == lo);
        lemma_range_sum_split(s, 0, lo, hi);
    }
}

/// Sums over two sequences that agree on the summed range are equal.
proof fn lemma_range_sum_prefix_agree(a: Seq<u64>, b: Seq<u64>, lo: int, hi: int)
    requires
        0 <= lo,
        hi <= a.len(),
        hi <= b.len(),
        forall|i: int| lo <= i < hi ==> a[i] == b[i],
    ensures
        range_sum(a, lo, hi) == range_sum(b, lo, hi),
    decreases hi - lo,
{
    if hi > lo {
        lemma_range_sum_prefix_agree(a, b, lo, hi - 1);
    }
}

/// Lowering the scale keeps the total of a bucket array.
pub proof fn lemma_downscaled_total(v: (int, Seq<u64>), delta: nat)
    requires
        seq_total(v.1) <= u64::MAX,
    ensures
        seq_total(downscaled(v, delta).1) == seq_total(v.1),
{
    if v.1.len() >= 2 && delta != 0 {
        let steps = pow2(delta) as int;
        vstd::arithmetic::power2::lemma_pow2_pos(delta);
        vstd::arithmetic::power2::lemma_pow2_unfold(delta);
        vstd::arithmetic::power2::lemma_pow2_pos((delta - 1) as nat);
        let offset = shift_offset(v.0, delta);
        lemma_mod_bound(v.0, steps);
        let len = v.1.len() as int;
        let n = (len - 1 + offset) / steps + 1;
        lemma_fundamental_div_mod(len - 1 + offset, steps);
        lemma_mod_bound(len - 1 + offset, steps);
        assert(n >= 1) by (nonlinear_arith)
            requires
                len - 1 + offset == steps * (n - 1) + (len - 1 + offset) % steps,
                (len - 1 + offset) % steps < steps,
                len - 1 + offset >= 1,
        ;
        lemma_group_prefix(v.1, offset, steps, n);
        assert((n - 1 + 1) * steps - offset >= len) by (nonlinear_arith)
            requires
                len - 1 + offset == steps * (n - 1) + (len - 1 + offset) % steps,
                (len - 1 + offset) % steps < steps,
        ;
        assert(group_hi(len, offset, steps, n - 1) == len);
    }
}

/// Lowering the scale by `delta` steps puts into bin `b` exactly the counts
/// of the bins `b * 2^delta .. (b + 1) * 2^delta` before.
pub proof fn lemma_downscaled_counts(v: (int, Seq<u64>), delta: nat, b: int)
    requires
        seq_total(v.1) <= u64::MAX,
    ensures
        count_at(downscaled(v, delta), b) == bins_total(
            v,
            b * (pow2(delta) as int),
            (b + 1) * (pow2(delta) as int),
        ),
{
    let steps = pow2(delta) as int;
    let len = v.1.len() as int;
    vstd::arithmetic::power2::lemma_pow2_pos(delta);
    let w = downscaled(v, delta);
    let lo = b * steps;
    let hi = (b + 1) * steps;
    assert(hi == lo + steps) by (nonlinear_arith)
        requires
            lo == b * steps,
            hi == (b + 1) * steps,
    ;
    lemma_bins_total_is_range_sum(v, lo, hi);
    let q = v.0 / steps;
    let offset = shift_offset(v.0, delta);
    lemma_fundamental_div_mod(v.0, steps);
    lemma_mod_bound(v.0, steps);
    assert(v.0 == q * steps + offset) by (nonlinear_arith)
        requires
            v.0 == steps * q + offset,
    ;
    // Where the bins of `b` start, relative to the first bin.
    let rel = lo - v.0;
    assert(rel == (b - q) * steps - offset) by (nonlinear_arith)
        requires
            rel == b * steps - v.0,
            v.0 == q * steps + offset,
    ;
    if delta == 0 {
        vstd::arithmetic::power2::lemma2_to64();
        assert(v.0 / 1 == v.0);
        assert(w == v);
        reveal_with_fuel(range_sum, 2);
    } else if len <= 1 {
        vstd::arithmetic::power2::lemma_pow2_unfold(delta);
        vstd::arithmetic::power2::lemma_pow2_pos((delta - 1) as nat);
        if len == 1 {
            reveal_with_fuel(range_sum, 2);
            if b < q {
                assert(rel + steps <= 0 - offset) by (nonlinear_arith)
                    requires
                        rel == (b - q) * steps - offset,
                        b < q,
                        steps > 0,
                ;
            } else if b > q {
                assert(rel >= steps - offset) by (nonlinear_arith)
                    requires
                        rel == (b - q) * steps - offset,
                        b > q,
                        steps > 0,
                ;
            } else {
                assert(rel == -offset) by (nonlinear_arith)
                    requires
                        rel == (b - q) * steps - offset,
                        b == q,
                ;
            }
        }
    } else {
        vstd::arithmetic::power2::lemma_pow2_unfold(delta);
        vstd::arithmetic::power2::lemma_pow2_pos((delta - 1) as nat);
        let n = (len - 1 + offset) / steps + 1;
        lemma_fundamental_div_mod(len - 1 + offset, steps);
        lemma_mod_bound(len - 1 + offset, steps);
        assert((n - 1) * steps <= len - 1 + offset < n * steps) by (nonlinear_arith)
            requires
                len - 1 + offset == steps * (n - 1) + (len - 1 + offset) % steps,
                0 <= (len - 1 + offset) % steps < steps,
        ;
        let j = b - q;
        if j < 0 {
            assert(rel + steps <= 0 - offset) by (nonlinear_arith)
                requires
                    rel == j * steps - offset,
                    j < 0,
                    steps > 0,
            ;
        } else if j >= n {
            assert(rel >= len) by (nonlinear_arith)
                requires
                    rel == j * steps - offset,
                    j >= n,
                    steps > 0,
                    len - 1 + offset < n * steps,
            ;
        } else {
            assert(rel <= len - 1) by (nonlinear_arith)
                requires
                    rel == j * steps - offset,
                    j <= n - 1,
                    steps > 0,
                    (n - 1) * steps <= len - 1 + offset,
            ;
            assert(rel == j * steps - offset && rel + steps == (j + 1) * steps - offset) by (nonlinear_arith)
                requires
                    rel == j * steps - offset,
            ;
            assert(count_at(w, b) == w.1[j] as int);
            lemma_range_sum_sub(v.1, 0, group_lo(offset, steps, j), group_hi(len, offset, steps, j), len);
        }
    }
}

/// The counts of one sign of a histogram: `counts[i]` is the count of bin
/// `start_bin + i`.
#[derive(Debug)]
pub struct HistogramBuckets {
    start_bin: i32,
    counts: Vec<u64>,
}

impl View for HistogramBuckets {
    type V = (int, Seq<u64>);

    closed spec fn view(&self) -> (int, Seq<u64>) {
        (self.start_bin as int, self.counts@)
    }
}

impl HistogramBuckets {
    /// No observation yet.
    pub fn new() -> (b: Self)
        ensures
            b@ == (0int, Seq::<u64>::empty()),
    {
        HistogramBuckets { start_bin: 0, counts: Vec::new() }
    }

    /// The bin of the first bucket.
    pub fn start_bin(&self) -> (r: i32)
        ensures
            r as int == self@.0,
    {
        self.start_bin
    }

    /// The count of each bucket from the first on.
    pub fn counts(&self) -> (r: &[u64])
        ensures
            r@ == self@.1,
    {
        self.counts.as_slice()
    }

    /// Records one observation in `bin`, growing the array to cover it.
    pub fn record(&mut self, bin: i32)
        requires
            buckets_fit(old(self)@),
            can_record(old(self)@, bin as int),
        ensures
            final(self)@ == recorded(old(self)@, bin as int),
            buckets_fit(final(self)@),
    {
        if self.counts.len() == 0 {
            // The first observation fixes the first bin.
            self.counts.push(1);
            self.start_bin = bin;
            assert(self.counts@ =~= seq![1u64]);
            return;
        }
        let end_bin: i64 = self.start_bin as i64 + self.counts.len() as i64 - 1;
        if bin as i64 >= self.start_bin as i64 && bin as i64 <= end_bin {
            // A bin seen before: count it in place.
            let i = (bin as i64 - self.start_bin as i64) as usize;
            self.counts.set(i, self.counts[i] + 1);
            return;
        }
        if (bin as i64) < self.start_bin as i64 {
            // A bin below the first one: move the counts up and start at `bin`.
            let ghost old_counts = self.counts@;
            let orig_len = self.counts.len();
            let new_len = (end_bin - bin as i64 + 1) as usize;
            let shift = (self.start_bin as i64 - bin as i64) as usize;
            self.counts.resize(new_len, 0);
            assert(self.counts@.subrange(0, orig_len as int) == old_counts);
            let mut k = orig_len;
            while k > 0
                invariant
                    0 <= k <= orig_len,
                    orig_len == old_counts.len(),
                    new_len == orig_len + shift,
                    self.counts@.len() == new_len,
                    forall|j: int| 0 <= j < k ==> self.counts@[j] == old_counts[j],
                    forall|j: int| k <= j < orig_len ==> self.counts@[j + shift] == old_counts[j],
                decreases k,
            {
                k -= 1;
                let c = self.counts[k];
                self.counts.set(k + shift, c);
            }
            let mut index: usize = 1;
            while index < shift
                invariant
                    1 <= index <= shift,
                    new_len == orig_len + shift,
                    self.counts@.len() == new_len,
                    forall|j: int| 1 <= j < index ==> self.counts@[j] == 0,
                    forall|j: int| 0 <= j < orig_len ==> self.counts@[j + shift] == old_counts[j],
                decreases shift - index,
            {
                self.counts.set(index, 0);
                index += 1;
            }
            self.start_bin = bin;
            self.counts.set(0, 1);
            assert(self.counts@ =~= seq![1u64] + zeros(shift - 1) + old_counts);
            return;
        }
        // A bin above the last one: extend the end.
        let ghost old_counts = self.counts@;
        let orig_len = self.counts.len();
        let new_len = (bin as i64 - self.start_bin as i64 + 1) as usize;
        self.counts.resize(new_len, 0);
        assert(self.counts@.subrange(0, orig_len as int) == old_counts);
        self.counts.set(new_len - 1, 1);
        assert(self.counts@ =~= old_counts + zeros(new_len - 1 - orig_len) + seq![1u64]);
    }
    /// Lowers the resolution by `delta` steps: bin `b` becomes bin
    /// `floor(b / 2^delta)`, and counts that meet in one bin add up.
    pub fn downscale(&mut self, delta: i32)
        requires
            0 <= delta <= 31,
            delta == 31 ==> old(self)@.1.len() <= 1,
            buckets_fit(old(self)@),
            seq_total(old(self)@.1) <= u64::MAX,
        ensures
            final(self)@ == downscaled(old(self)@, delta as nat),
            buckets_fit(final(self)@),
    {
        let d = delta as u32;
        let ghost v0 = self@;
        proof {
            lemma_i32_shr_is_floor_div(self.start_bin, d);
            vstd::arithmetic::power2::lemma_pow2_pos(d as nat);
        }
        if self.counts.len() <= 1 || delta < 1 {
            self.start_bin = self.start_bin >> d;
            proof {
                if delta == 0 {
                    assert(pow2(0) == 1) by {
                        vstd::arithmetic::power2::lemma2_to64();
                    }
                }
                let v1 = self@;
                let p = pow2(d as nat) as int;
                assert(i32::MIN <= v1.0 <= i32::MAX && (v1.1.len() > 0 ==> v1.0 + v1.1.len() - 1 <= i32::MAX)) by (nonlinear_arith)
                    requires
                        v1.0 == v0.0 / p,
                        p >= 1,
                        v1.1.len() == v0.1.len(),
                        v1.1.len() <= 1 || p == 1,
                        i32::MIN <= v0.0 <= i32::MAX,
                        v0.1.len() > 0 ==> v0.0 + v0.1.len() - 1 <= i32::MAX,
                ;
            }
            return;
        }
        proof {
            lemma_one_shl_u32(d);
        }
        let steps: usize = (1u32 << d) as usize;
        let shifted: i32 = self.start_bin >> d;
        let ghost start = self.start_bin as int;
        proof {
            lemma_fundamental_div_mod(start, steps as int);
            lemma_mod_bound(start, steps as int);
            vstd::arithmetic::mul::lemma_mul_is_commutative(steps as int, start / (steps as int));
            assert(steps >= 2) by {
                vstd::arithmetic::power2::lemma2_to64();
                if d > 1 {
                    vstd::arithmetic::power2::lemma_pow2_strictly_increases(1, d as nat);
                }
            }
        }
        // `start_bin` modulo `steps`, in `[0, steps)`.
        let offset: usize = (self.start_bin as i64 - (shifted as i64) * (steps as i64)) as usize;
        assert(offset as int == shift_offset(start, delta as nat));
        let len = self.counts.len();
        let ghost old_counts = self.counts@;
        proof {
            reveal_with_fuel(range_sum, 2);
            lemma_fundamental_div_mod_converse(offset as int, steps as int, 0, offset as int);
            assert(len <= 0x1_0000_0000);
        }
        let mut index: usize = 1;
        while index < len
            invariant
                1 <= index <= len,
                2 <= len <= 0x1_0000_0000,
                len == old_counts.len(),
                self.counts@.len() == len,
                2 <= steps <= 0x4000_0000,
                0 <= offset < steps,
                seq_total(old_counts) <= u64::MAX,
                forall|j: int|
                    0 <= j < (index - 1 + offset) / (steps as int) ==> self.counts@[j] as int
                        == group_sum(old_counts, offset as int, steps as int, j),
                self.counts@[(index - 1 + offset) / (steps as int)] as int == range_sum(
                    old_counts,
                    group_lo(offset as int, steps as int, (index - 1 + offset) / (steps as int)),
                    index as int,
                ),
                forall|j: int| index <= j < len ==> self.counts@[j] == old_counts[j],
            decreases len - index,
        {
            let ghost cur = (index - 1 + offset) / (steps as int);
            proof {
                lemma_group_step(index as int, offset as int, steps as int);
            }
            let idx: u64 = index as u64 + offset as u64;
            let g: usize = (idx / (steps as u64)) as usize;
            if idx % (steps as u64) == 0 {
                // `index` opens a new group, whose total starts with its count.
                let c = self.counts[index];
                self.counts.set(g, c);
                proof {
                    reveal_with_fuel(range_sum, 2);
                    assert(group_lo(offset as int, steps as int, g as int) == index);
                    assert(group_hi(len as int, offset as int, steps as int, cur) == index);
                }
            } else {
                proof {
                    lemma_range_sum_snoc(old_counts, group_lo(offset as int, steps as int, cur), index as int);
                    lemma_range_sum_sub(old_counts, 0, group_lo(offset as int, steps as int, cur), index + 1, len as int);
                }
                let c = self.counts[g] + self.counts[index];
                self.counts.set(g, c);
            }
            index += 1;
        }
        proof {
            lemma_group_step(len as int, offset as int, steps as int);
        }
        let last_idx: usize = ((len as u64 - 1 + offset as u64) / (steps as u64)) as usize;
        self.counts.truncate(last_idx + 1);
        self.start_bin = shifted;
        proof {
            let n = (old_counts.len() - 1 + offset) / (steps as int) + 1;
            assert(group_hi(len as int, offset as int, steps as int, last_idx as int) == len);
            assert(self.counts@ =~= Seq::new(
                n as nat,
                |j: int| group_sum(old_counts, offset as int, steps as int, j) as u64,
            ));
            let s0 = shifted as int;
            assert(s0 + last_idx <= i32::MAX) by (nonlinear_arith)
                requires
                    s0 * (steps as int) == start - offset,
                    (last_idx as int) * (steps as int) <= len - 1 + offset,
                    start + len - 1 <= i32::MAX,
                    steps >= 2,
                    last_idx >= 0,
            ;
        }
    }
}

/// The finest scale a histogram starts at.
pub const EXPO_MAX_SCALE: i32 = 20;

/// The coarsest scale a histogram can reach.
pub const EXPO_MIN_SCALE: i32 = -10;

/// The largest number of buckets, per sign, of a default histogram.
pub const DEFAULT_MAX_SIZE: i64 = 160;

/// The number of halvings of the bin range `[low, high]`, at most 31, after
/// which it spans fewer than `max_size` bins, counted from `c` on.
pub open spec fn halvings_from(low: int, high: int, max_size: int, c: nat) -> nat
    decreases 31 - c,
{
    if c >= 31 {
        c
    } else if high / (pow2(c) as int) - low / (pow2(c) as int) < max_size {
        c
    } else {
        halvings_from(low, high, max_size, c + 1)
    }
}

/// The number of halvings of the bin range `[low, high]`, at most 31, after
/// which it spans fewer than `max_size` bins.
pub open spec fn halvings(low: int, high: int, max_size: int) -> nat {
    halvings_from(low, high, max_size, 0)
}

/// The bin range `[low, high]`, halved `c` times, spans `high / 2^c -
/// low / 2^c` bins more than one.
pub open spec fn halved_span(low: int, high: int, c: nat) -> int {
    high / (pow2(c) as int) - low / (pow2(c) as int)
}

/// `halvings` is the least number of halvings, up to 31, after which the
/// range spans fewer than `max_size` bins: every smaller number leaves it
/// spanning `max_size` or more.
pub proof fn lemma_halvings_least(low: int, high: int, max_size: int, c: nat)
    requires
        c <= 31,
    ensures
        c <= halvings_from(low, high, max_size, c) <= 31,
        halvings_from(low, high, max_size, c) < 31 ==> halved_span(
            low,
            high,
            halvings_from(low, high, max_size, c),
        ) < max_size,
        forall|k: nat| c <= k < halvings_from(low, high, max_size, c) ==> halved_span(low, high, k) >= max_size,
    decreases 31 - c,
{
    if c < 31 && halved_span(low, high, c) >= max_size {
        lemma_halvings_least(low, high, max_size, c + 1);
        assert forall|k: nat| c <= k < halvings_from(low, high, max_size, c) implies halved_span(low, high, k) >= max_size by {
            if k > c {
                assert(c + 1 <= k);
            }
        }
    }
}

/// The scale change that a bucket array starting at `start_bin` with
/// `length` buckets needs so that `bin` fits in it.
pub open spec fn spec_scale_delta(bin: int, start_bin: int, length: int, max_size: int) -> int {
    if length == 0 {
        0
    } else if start_bin >= bin {
        halvings(bin, start_bin + length - 1, max_size) as int
    } else {
        halvings(start_bin, bin, max_size) as int
    }
}

/// The bin of a positive value `frac * 2^exp`, with `frac` in `[0.5, 1)`,
/// at `scale`. At scales up to zero only the exponent matters; above zero
/// the bin also takes `log_frac`, the truncation of
/// `ln(frac) * 2^scale / ln(2)`.
pub open spec fn spec_bin_index(scale: int, exp: int, frac_is_half: bool, log_frac: int) -> int {
    if scale <= 0 {
        (exp - (if frac_is_half { 2int } else { 1int })) / (pow2((-scale) as nat) as int)
    } else {
        exp * (pow2(scale as nat) as int) + log_frac - 1
    }
}

/// Where a value lands relative to the bin boundaries, in exponents of two.
/// Bin `b` at scale `s` holds the values in `(2^(b / 2^s), 2^((b + 1) / 2^s)]`.
/// - An exact power of two `2^k` (fraction one half, exponent `k + 1`) goes
///   to the bin whose upper boundary it is: at a positive scale, where its
///   `log_frac` is `-2^s`, the bin is `k * 2^s - 1`; at other scales,
///   `b * 2^-s < k <= (b + 1) * 2^-s`.
/// - At scales up to zero, any other value, which lies strictly between
///   `2^(exp - 1)` and `2^exp`, goes to the bin with
///   `b * 2^-s <= exp - 1` and `exp <= (b + 1) * 2^-s`.
/// - At positive scales the bin does not depend on whether the fraction is
///   one half once `log_frac` is given.
pub proof fn lemma_bin_index_boundaries(scale: int, exp: int, log_frac: int)
    ensures
        scale > 0 ==> spec_bin_index(scale, exp, true, -(pow2(scale as nat) as int)) + 1 == (exp - 1)
            * (pow2(scale as nat) as int),
        scale > 0 ==> spec_bin_index(scale, exp, true, log_frac) == spec_bin_index(
            scale,
            exp,
            false,
            log_frac,
        ),
        scale <= 0 ==> ({
            let m = pow2((-scale) as nat) as int;
            let b = spec_bin_index(scale, exp, true, log_frac);
            b * m < exp - 1 <= (b + 1) * m
        }),
        scale <= 0 ==> ({
            let m = pow2((-scale) as nat) as int;
            let b = spec_bin_index(scale, exp, false, log_frac);
            b * m <= exp - 1 && exp <= (b + 1) * m
        }),
{
    if scale > 0 {
        let p = pow2(scale as nat) as int;
        assert(exp * p - p == (exp - 1) * p) by (nonlinear_arith);
    } else {
        let m = pow2((-scale) as nat) as int;
        vstd::arithmetic::power2::lemma_pow2_pos((-scale) as nat);
        let b1 = (exp - 2) / m;
        lemma_fundamental_div_mod(exp - 2, m);
        lemma_mod_bound(exp - 2, m);
        assert(b1 * m < exp - 1 <= (b1 + 1) * m) by (nonlinear_arith)
            requires
                exp - 2 == m * b1 + (exp - 2) % m,
                0 <= (exp - 2) % m < m,
        ;
        let b0 = (exp - 1) / m;
        lemma_fundamental_div_mod(exp - 1, m);
        lemma_mod_bound(exp - 1, m);
        assert(b0 * m <= exp - 1 && exp <= (b0 + 1) * m) by (nonlinear_arith)
            requires
                exp - 1 == m * b0 + (exp - 1) % m,
                0 <= (exp - 1) % m < m,
        ;
    }
}

/// Computes the bin of a positive value from its binary decomposition
/// `frac * 2^exp`: `frac_is_half` tells whether `frac` is exactly `0.5`
/// (the value is a power of two), and `log_frac` is the truncation of
/// `ln(frac) * 2^scale / ln(2)`, which only counts at positive scales.
pub fn bin_index(scale: i32, exp: i32, frac_is_half: bool, log_frac: i32) -> (bin: i32)
    requires
        -31 <= scale <= 30,
        scale <= 0 ==> exp >= i32::MIN + 2,
        scale > 0 ==> i32::MIN <= exp * (pow2(scale as nat) as int) <= i32::MAX,
        scale > 0 ==> i32::MIN + 1 <= exp * (pow2(scale as nat) as int) + log_frac <= i32::MAX,
    ensures
        bin as int == spec_bin_index(scale as int, exp as int, frac_is_half, log_frac as int),
        scale > 0 && frac_is_half && log_frac == -(pow2(scale as nat) as int) ==> bin + 1 == (exp - 1)
            * (pow2(scale as nat) as int),
        scale <= 0 && frac_is_half ==> bin * (pow2((-scale) as nat) as int) < exp - 1 <= (bin + 1) * (
        pow2((-scale) as nat) as int),
        scale <= 0 && !frac_is_half ==> bin * (pow2((-scale) as nat) as int) <= exp - 1 && exp <= (bin
            + 1) * (pow2((-scale) as nat) as int),
{
    proof {
        lemma_bin_index_boundaries(scale as int, exp as int, log_frac as int);
    }
    if scale <= 0 {
        // A power of two has the fraction 0.5 and an exponent one higher
        // than its bin at scale zero.
        let correction: i32 = if frac_is_half {
            2
        } else {
            1
        };
        let shift = (-scale) as u32;
        let e = exp - correction;
        proof {
            lemma_i32_shr_is_floor_div(e, shift);
        }
        e >> shift
    } else {
        let shift = scale as u32;
        proof {
            lemma_one_shl_u32(shift);
        }
        let factor = (1u32 << shift) as i32;
        assert(factor as int == pow2(scale as nat) as int);
        exp * factor + log_frac - 1
    }
}

/// A histogram with one more observation counted.
pub open spec fn counted(v: HistogramView) -> HistogramView {
    HistogramView { count: v.count + 1, ..v }
}

/// A histogram with one more observation in `bin` of the buckets of the
/// given sign.
pub open spec fn put_in_bucket(v: HistogramView, negative: bool, bin: int) -> HistogramView {
    if negative {
        HistogramView { negative: recorded(v.negative, bin), ..v }
    } else {
        HistogramView { positive: recorded(v.positive, bin), ..v }
    }
}

/// A histogram lowered by `delta` scale steps.
pub open spec fn rescaled(v: HistogramView, delta: nat) -> HistogramView {
    HistogramView {
        scale: v.scale - delta,
        positive: downscaled(v.positive, delta),
        negative: downscaled(v.negative, delta),
        ..v
    }
}

/// The scale change that recording `bin` with the given sign asks for.
pub open spec fn wanted_delta(v: HistogramView, negative: bool, bin: int) -> int {
    let b = buckets_of(v, negative);
    spec_scale_delta(bin, b.0, b.1.len() as int, v.max_size)
}

/// What a bucket array of the given sign needs in memory for `bin`.
pub open spec fn fits_in_memory(v: HistogramView, negative: bool, bin: int) -> bool {
    let b = buckets_of(v, negative);
    high_after(b, bin) - low_after(b, bin) + 1 <= usize::MAX
}

/// A histogram with one more observation of zero.
pub open spec fn zero_counted(v: HistogramView) -> HistogramView {
    HistogramView { count: v.count + 1, zero_count: v.zero_count + 1, ..v }
}

/// What `record_bin` does: it counts the observation, then either puts it
/// in its bucket, or merges the buckets down to the scale that `bin` asks
/// for, or, where that scale would be below `EXPO_MIN_SCALE`, stops.
pub open spec fn record_bin_outcome(
    v: HistogramView,
    negative: bool,
    bin: int,
    w: HistogramView,
    step: RecordStep,
) -> bool {
    let delta = wanted_delta(v, negative, bin);
    if delta == 0 {
        step is Recorded && w == put_in_bucket(counted(v), negative, bin)
    } else if v.scale - delta < EXPO_MIN_SCALE {
        step is ScaleUnderflow && w == counted(v)
    } else {
        step == (RecordStep::Rescaled { scale: (v.scale - delta) as i32 }) && w == rescaled(
            counted(v),
            delta as nat,
        )
    }
}

/// What recording a bin does to the buckets of each sign. When it lowers
/// the scale by `delta`, the buckets of both signs, whatever the sign of the
/// value, are merged: the count of every bin `b` afterwards is the total of
/// the bins `b * 2^delta .. (b + 1) * 2^delta` before. When it records, the
/// bin of the value's sign gains one and nothing else changes.
pub proof fn lemma_record_bin_buckets(
    v: HistogramView,
    negative: bool,
    bin: int,
    w: HistogramView,
    step: RecordStep,
)
    requires
        histogram_wf(v),
        v.count < u64::MAX,
        record_bin_outcome(v, negative, bin, w, step),
    ensures
        w.count == v.count + 1,
        w.zero_count == v.zero_count,
        step matches RecordStep::Rescaled { scale } ==> ({
            let delta = (v.scale - scale) as nat;
            &&& v.scale - scale >= 1
            &&& w.scale == scale
            &&& forall|b: int| #[trigger] count_at(w.positive, b) == bins_total(
                v.positive,
                b * (pow2(delta) as int),
                (b + 1) * (pow2(delta) as int),
            )
            &&& forall|b: int| #[trigger] count_at(w.negative, b) == bins_total(
                v.negative,
                b * (pow2(delta) as int),
                (b + 1) * (pow2(delta) as int),
            )
        }),
        step is Recorded ==> {
            &&& w.scale == v.scale
            &&& buckets_of(w, !negative) == buckets_of(v, !negative)
            &&& forall|b: int| #[trigger] count_at(buckets_of(w, negative), b) == count_at(
                buckets_of(v, negative),
                b,
            ) + (if b == bin { 1int } else { 0int })
        },
        step is ScaleUnderflow ==> w.scale == v.scale && w.positive == v.positive && w.negative
            == v.negative,
{
    lemma_totals_nonneg(v);
    let delta = wanted_delta(v, negative, bin);
    if delta != 0 && v.scale - delta >= EXPO_MIN_SCALE {
        let d = delta as nat;
        assert(v.scale - ((v.scale - delta) as i32) == delta);
        assert forall|b: int| #[trigger] count_at(w.positive, b) == bins_total(
            v.positive,
            b * (pow2(d) as int),
            (b + 1) * (pow2(d) as int),
        ) by {
            lemma_downscaled_counts(v.positive, d, b);
        }
        assert forall|b: int| #[trigger] count_at(w.negative, b) == bins_total(
            v.negative,
            b * (pow2(d) as int),
            (b + 1) * (pow2(d) as int),
        ) by {
            lemma_downscaled_counts(v.negative, d, b);
        }
    } else if delta == 0 {
        assert forall|b: int| #[trigger] count_at(buckets_of(w, negative), b) == count_at(
            buckets_of(v, negative),
            b,
        ) + (if b == bin { 1int } else { 0int }) by {
            if step is Recorded {
                lemma_count_at_le_total(buckets_of(v, negative), bin);
                lemma_recorded_counts(buckets_of(v, negative), bin, b);
            }
        }
    }
}

/// Exactly one observation counted is in no bucket yet.
pub open spec fn one_pending(v: HistogramView) -> bool {
    seq_total(v.positive.1) + seq_total(v.negative.1) + v.zero_count + 1 == v.count
}

/// The totals of the buckets of a histogram are not negative.
proof fn lemma_totals_nonneg(v: HistogramView)
    ensures
        seq_total(v.positive.1) >= 0,
        seq_total(v.negative.1) >= 0,
{
    lemma_range_sum_nonneg(v.positive.1, 0, v.positive.1.len() as int);
    lemma_range_sum_nonneg(v.negative.1, 0, v.negative.1.len() as int);
}

/// The count of a bin is at most the total of its bucket array.
proof fn lemma_count_at_le_total(v: (int, Seq<u64>), bin: int)
    ensures
        0 <= count_at(v, bin) <= seq_total(v.1),
{
    lemma_range_sum_nonneg(v.1, 0, v.1.len() as int);
    if v.0 <= bin < v.0 + v.1.len() {
        let i = bin - v.0;
        reveal_with_fuel(range_sum, 2);
        lemma_range_sum_sub(v.1, 0, i, i + 1, v.1.len() as int);
        assert(range_sum(v.1, i, i + 1) == v.1[i] as int);
    }
}

/// The abstract state of a histogram's buckets and counters.
pub struct HistogramView {
    pub count: nat,
    pub zero_count: nat,
    pub max_size: int,
    pub scale: int,
    pub max_scale: int,
    pub positive: (int, Seq<u64>),
    pub negative: (int, Seq<u64>),
}

/// What `get_and_reset` hands out: the scale, the counters and the bucket
/// arrays of both signs as (first bin, counts).
#[derive(Debug)]
pub struct HistogramSnapshot {
    pub scale: i32,
    pub count: u64,
    pub zero_count: u64,
    pub positive: (i32, Vec<u64>),
    pub negative: (i32, Vec<u64>),
}

/// What recording a nonzero value did.
#[derive(Clone, Copy, Debug, PartialEq, Eq, Structural)]
pub enum RecordStep {
    /// The value went into its bucket.
    Recorded,
    /// The buckets were merged down to `scale` to make room; the value is
    /// counted but not yet in a bucket: its bin at the new scale goes to
    /// `record_rescaled`.
    Rescaled { scale: i32 },
    /// Making room would need a scale below `EXPO_MIN_SCALE`: the value is
    /// counted but in no bucket.
    ScaleUnderflow,
}

/// The bucket state of a log-exponential histogram: the number of
/// observations, the zero bucket, the scale and the buckets of each sign.
#[derive(Debug)]
pub struct HistogramInner {
    count: u64,
    max_size: i64,
    zero_count: u64,
    scale: i32,
    max_scale: i32,
    positive_buckets: HistogramBuckets,
    negative_buckets: HistogramBuckets,
}

impl View for HistogramInner {
    type V = HistogramView;

    closed spec fn view(&self) -> HistogramView {
        HistogramView {
            count: self.count as nat,
            zero_count: self.zero_count as nat,
            max_size: self.max_size as int,
            scale: self.scale as int,
            max_scale: self.max_scale as int,
            positive: self.positive_buckets@,
            negative: self.negative_buckets@,
        }
    }
}

/// The buckets of the sign of a value.
pub open spec fn buckets_of(v: HistogramView, negative: bool) -> (int, Seq<u64>) {
    if negative {
        v.negative
    } else {
        v.positive
    }
}

/// Consistency of a histogram: the scale is at most the starting one, which
/// is at most the finest, and it only moves down to the coarsest scale;
/// every bin is an `i32`, and the buckets hold no more observations than
/// were counted.
pub open spec fn histogram_wf(v: HistogramView) -> bool {
    &&& v.scale <= v.max_scale <= EXPO_MAX_SCALE
    &&& i32::MIN + 31 <= v.scale
    &&& EXPO_MIN_SCALE <= v.scale || v.scale == v.max_scale
    &&& buckets_fit(v.positive)
    &&& buckets_fit(v.negative)
    &&& seq_total(v.positive.1) + seq_total(v.negative.1) + v.zero_count <= v.count
    &&& v.count <= u64::MAX
}

/// Every observation counted is in the zero bucket or in a bucket.
pub open spec fn all_in_buckets(v: HistogramView) -> bool {
    seq_total(v.positive.1) + seq_total(v.negative.1) + v.zero_count == v.count
}

/// A histogram with no observation at `scale`.
pub open spec fn empty_histogram(max_size: int, max_scale: int) -> HistogramView {
    HistogramView {
        count: 0,
        zero_count: 0,
        max_size,
        scale: max_scale,
        max_scale,
        positive: (0, Seq::empty()),
        negative: (0, Seq::empty()),
    }
}

impl HistogramInner {
    /// A histogram with no observation that starts at `max_scale` and keeps
    /// fewer than `max_size` buckets per sign where it can.
    pub fn new(max_size: i64, max_scale: i32) -> (h: Self)
        requires
            i32::MIN + 31 <= max_scale <= EXPO_MAX_SCALE,
        ensures
            h@ == empty_histogram(max_size as int, max_scale as int),
            histogram_wf(h@),
    {
        let h = HistogramInner {
            count: 0,
            max_size,
            zero_count: 0,
            scale: max_scale,
            max_scale,
            positive_buckets: HistogramBuckets::new(),
            negative_buckets: HistogramBuckets::new(),
        };
        assert(h@.positive.1 =~= Seq::<u64>::empty());
        h
    }

    /// The number of halvings of the bin range that the buckets starting at
    /// `start_bin` with `length` buckets would cover once `bin` is in it,
    /// after which fewer than `max_size` bins are spanned, capped at 31.
    /// Zero when there is no bucket yet.
    pub fn scale_delta(&self, bin: i32, start_bin: i32, length: usize) -> (delta: i32)
        requires
            length == 0 || start_bin + length - 1 <= i32::MAX,
        ensures
            delta as int == spec_scale_delta(bin as int, start_bin as int, length as int, self@.max_size),
            0 <= delta <= 31,
    {
        if length == 0 {
            // No need to rescale if there are no buckets.
            return 0;
        }
        let (mut low, mut high): (i64, i64) = if start_bin >= bin {
            (bin as i64, start_bin as i64 + length as i64 - 1)
        } else {
            (start_bin as i64, bin as i64)
        };
        let ghost low0 = low as int;
        let ghost high0 = high as int;
        proof {
            vstd::arithmetic::power2::lemma2_to64();
            assert(low0 / 1 == low0);
            assert(high0 / 1 == high0);
        }
        let mut count: i32 = 0;
        while high - low >= self.max_size
            invariant_except_break
                count <= 30,
            invariant
                0 <= count <= 31,
                low as int == low0 / (pow2(count as nat) as int),
                high as int == high0 / (pow2(count as nat) as int),
                i32::MIN <= low0 <= high0 <= i32::MAX,
                i32::MIN <= low <= high <= i32::MAX,
                halvings(low0, high0, self@.max_size) == halvings_from(low0, high0, self@.max_size, count as nat),
            ensures
                0 <= count <= 31,
                count as int == halvings(low0, high0, self@.max_size),
            decreases 31 - count,
        {
            proof {
                crate::arith::lemma_i64_shr1(low);
                crate::arith::lemma_i64_shr1(high);
                crate::arith::lemma_div_pow2_step(low0, count as nat);
                crate::arith::lemma_div_pow2_step(high0, count as nat);
                vstd::arithmetic::div_mod::lemma_div_is_ordered(low as int, high as int, 2);
            }
            assert(halvings_from(low0, high0, self@.max_size, count as nat) == halvings_from(
                low0,
                high0,
                self@.max_size,
                (count + 1) as nat,
            ));
            low >>= 1u32;
            high >>= 1u32;
            count += 1;
            if count > EXPO_MAX_SCALE - EXPO_MIN_SCALE {
                break;
            }
        }
        count
    }

    /// Counts an observation of zero.
    pub fn record_zero(&mut self)
        requires
            histogram_wf(old(self)@),
            old(self)@.count < u64::MAX,
        ensures
            final(self)@ == zero_counted(old(self)@),
            histogram_wf(final(self)@),
            all_in_buckets(old(self)@) ==> all_in_buckets(final(self)@),
    {
        proof {
            lemma_totals_nonneg(self@);
        }
        self.count = self.count + 1;
        self.zero_count = self.zero_count + 1;
    }

    /// Counts a nonzero observation whose bin at the current scale is
    /// `bin`, in the buckets of its sign. When the buckets of that sign
    /// would span `max_size` bins or more with `bin` in them, both signs are
    /// merged down to a coarser scale first, and the observation's bin at
    /// that scale goes to `record_rescaled`.
    pub fn record_bin(&mut self, negative: bool, bin: i32) -> (step: RecordStep)
        requires
            histogram_wf(old(self)@),
            old(self)@.count < u64::MAX,
            fits_in_memory(old(self)@, negative, bin as int),
        ensures
            histogram_wf(final(self)@),
            record_bin_outcome(old(self)@, negative, bin as int, final(self)@, step),
            all_in_buckets(old(self)@) && (step is Recorded) ==> all_in_buckets(final(self)@),
            all_in_buckets(old(self)@) && (step is Rescaled) ==> one_pending(final(self)@),
            step matches RecordStep::Rescaled { scale } ==> (final(self)@.scale == scale && forall|b: int|
                #[trigger] count_at(final(self)@.negative, b) == bins_total(
                    old(self)@.negative,
                    b * (pow2((old(self)@.scale - scale) as nat) as int),
                    (b + 1) * (pow2((old(self)@.scale - scale) as nat) as int),
                ) && forall|b: int|
                #[trigger] count_at(final(self)@.positive, b) == bins_total(
                    old(self)@.positive,
                    b * (pow2((old(self)@.scale - scale) as nat) as int),
                    (b + 1) * (pow2((old(self)@.scale - scale) as nat) as int),
                )),
    {
        proof {
            lemma_totals_nonneg(self@);
        }
        self.count = self.count + 1;
        let (start_bin, length) = if negative {
            (self.negative_buckets.start_bin, self.negative_buckets.counts.len())
        } else {
            (self.positive_buckets.start_bin, self.positive_buckets.counts.len())
        };
        let scale_delta = self.scale_delta(bin, start_bin, length);
        if scale_delta != 0 {
            if self.scale - scale_delta < EXPO_MIN_SCALE {
                // Only a histogram of at most one bucket per sign gets here:
                // at the coarsest scale two buckets cover every value.
                return RecordStep::ScaleUnderflow;
            }
            proof {
                lemma_downscaled_total(self.positive_buckets@, scale_delta as nat);
                lemma_downscaled_total(self.negative_buckets@, scale_delta as nat);
            }
            self.scale = self.scale - scale_delta;
            self.positive_buckets.downscale(scale_delta);
            self.negative_buckets.downscale(scale_delta);
            let step = RecordStep::Rescaled { scale: self.scale };
            proof {
                assert(record_bin_outcome(old(self)@, negative, bin as int, self@, step));
                lemma_record_bin_buckets(old(self)@, negative, bin as int, self@, step);
            }
            return step;
        }
        if negative {
            proof {
                lemma_count_at_le_total(self.negative_buckets@, bin as int);
                lemma_recorded_total(self.negative_buckets@, bin as int);
            }
            self.negative_buckets.record(bin);
        } else {
            proof {
                lemma_count_at_le_total(self.positive_buckets@, bin as int);
                lemma_recorded_total(self.positive_buckets@, bin as int);
            }
            self.positive_buckets.record(bin);
        }
        RecordStep::Recorded
    }

    /// Puts an observation that `record_bin` counted and answered with
    /// `Rescaled` into `bin`, its bin at the new scale.
    pub fn record_rescaled(&mut self, negative: bool, bin: i32)
        requires
            histogram_wf(old(self)@),
            seq_total(old(self)@.positive.1) + seq_total(old(self)@.negative.1) + old(self)@.zero_count
                < old(self)@.count,
            fits_in_memory(old(self)@, negative, bin as int),
        ensures
            final(self)@ == put_in_bucket(old(self)@, negative, bin as int),
            histogram_wf(final(self)@),
            one_pending(old(self)@) ==> all_in_buckets(final(self)@),
    {
        proof {
            lemma_totals_nonneg(self@);
        }
        if negative {
            proof {
                lemma_count_at_le_total(self.negative_buckets@, bin as int);
                lemma_recorded_total(self.negative_buckets@, bin as int);
            }
            self.negative_buckets.record(bin);
        } else {
            proof {
                lemma_count_at_le_total(self.positive_buckets@, bin as int);
                lemma_recorded_total(self.positive_buckets@, bin as int);
            }
            self.positive_buckets.record(bin);
        }
    }

    /// Hands out the scale, the counters and the buckets, and starts over
    /// with an empty histogram at the starting scale.
    pub fn get_and_reset(&mut self) -> (snapshot: HistogramSnapshot)
        requires
            histogram_wf(old(self)@),
        ensures
            snapshot.scale as int == old(self)@.scale,
            snapshot.count as int == old(self)@.count,
            snapshot.zero_count as int == old(self)@.zero_count,
            snapshot.positive.0 as int == old(self)@.positive.0,
            snapshot.positive.1@ == old(self)@.positive.1,
            snapshot.negative.0 as int == old(self)@.negative.0,
            snapshot.negative.1@ == old(self)@.negative.1,
            final(self)@ == empty_histogram(old(self)@.max_size, old(self)@.max_scale),
            histogram_wf(final(self)@),
    {
        let mut positive_counts: Vec<u64> = Vec::new();
        let mut negative_counts: Vec<u64> = Vec::new();
        std::mem::swap(&mut positive_counts, &mut self.positive_buckets.counts);
        std::mem::swap(&mut negative_counts, &mut self.negative_buckets.counts);
        let snapshot = HistogramSnapshot {
            scale: self.scale,
            count: self.count,
            zero_count: self.zero_count,
            positive: (self.positive_buckets.start_bin, positive_counts),
            negative: (self.negative_buckets.start_bin, negative_counts),
        };
        self.scale = self.max_scale;
        self.count = 0;
        self.zero_count = 0;
        self.positive_buckets.start_bin = 0;
        self.negative_buckets.start_bin = 0;
        assert(self@.positive.1 =~= Seq::<u64>::empty());
        assert(self@.negative.1 =~= Seq::<u64>::empty());
        snapshot
    }
    /// The number of observations since the last reset.
    pub fn count(&self) -> (r: u64)
        ensures
            r as int == self@.count,
    {
        self.count
    }

    /// The number of observations of zero since the last reset.
    pub fn zero_count(&self) -> (r: u64)
        ensures
            r as int == self@.zero_count,
    {
        self.zero_count
    }

    /// The current scale.
    pub fn scale(&self) -> (r: i32)
        ensures
            r as int == self@.scale,
    {
        self.scale
    }

    /// The scale the histogram starts at.
    pub fn max_scale(&self) -> (r: i32)
        ensures
            r as int == self@.max_scale,
    {
        self.max_scale
    }

    /// The number of buckets per sign below which the histogram keeps its scale.
    pub fn max_size(&self) -> (r: i64)
        ensures
            r as int == self@.max_size,
    {
        self.max_size
    }

    /// The buckets of positive values.
    pub fn positive_buckets(&self) -> (r: &HistogramBuckets)
        ensures
            r@ == self@.positive,
    {
        &self.positive_buckets
    }

    /// The buckets of negative values.
    pub fn negative_buckets(&self) -> (r: &HistogramBuckets)
        ensures
            r@ == self@.negative,
    {
        &self.negative_buckets
    }
}

impl Default for HistogramInner {
    /// An empty histogram of at most `DEFAULT_MAX_SIZE` buckets per sign,
    /// starting at the finest scale.
    fn default() -> (h: Self)
        ensures
            h@ == empty_histogram(DEFAULT_MAX_SIZE as int, EXPO_MAX_SCALE as int),
            histogram_wf(h@),
    {
        Self::new(DEFAULT_MAX_SIZE, EXPO_MAX_SCALE)
    }
}

} // verus!
