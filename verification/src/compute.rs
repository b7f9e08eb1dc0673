//! Chunk-wise parallel reduction protocol: sum-of-squares reductions and
//! per-range statistics over a flat numeric buffer. Range-based operations are
//! pure over disjoint index ranges, so independent callers may partition the
//! buffer, reduce each sub-range on its own, and sum the partial results to
//! recover the sequential total exactly.

use vstd::prelude::*;

verus! {

/// Sum of squares of `s[start..end)`; `0` when the range is empty or not
/// within bounds.
pub open spec fn sum_sq(s: Seq<i64>, start: int, end: int) -> int
    decreases end - start,
{
    if 0 <= start && start < end && end <= s.len() {
        sum_sq(s, start, end - 1) + s[end - 1] * s[end - 1]
    } else {
        0
    }
}

/// Sum of the values of `s[start..end)`; `0` for an empty or out-of-bounds
/// range.
pub open spec fn sum_range(s: Seq<i64>, start: int, end: int) -> int
    decreases end - start,
{
    if 0 <= start && start < end && end <= s.len() {
        sum_range(s, start, end - 1) + s[end - 1]
    } else {
        0
    }
}

/// Least value of `s[start..end)`; meaningful only for a non-empty in-bounds
/// range.
pub open spec fn min_range(s: Seq<i64>, start: int, end: int) -> int
    decreases end - start,
{
    if 0 <= start && start < end - 1 && end <= s.len() {
        let m = min_range(s, start, end - 1);
        if s[end - 1] < m {
            s[end - 1] as int
        } else {
            m
        }
    } else if 0 <= start && start == end - 1 && end <= s.len() {
        s[start] as int
    } else {
        0
    }
}

/// Greatest value of `s[start..end)`; meaningful only for a non-empty
/// in-bounds range.
pub open spec fn max_range(s: Seq<i64>, start: int, end: int) -> int
    decreases end - start,
{
    if 0 <= start && start < end - 1 && end <= s.len() {
        let m = max_range(s, start, end - 1);
        if s[end - 1] > m {
            s[end - 1] as int
        } else {
            m
        }
    } else if 0 <= start && start == end - 1 && end <= s.len() {
        s[start] as int
    } else {
        0
    }
}

proof fn lemma_sum_sq_nonneg(s: Seq<i64>, start: int, end: int)
    ensures
        sum_sq(s, start, end) >= 0,
    decreases end - start,
{
    if 0 <= start && start < end && end <= s.len() {
        lemma_sum_sq_nonneg(s, start, end - 1);
        assert(s[end - 1] * s[end - 1] >= 0) by (nonlinear_arith);
    }
}

/// Adjacent ranges reduce independently: the sum of squares over `[a, b)` and
/// over `[b, c)` together equal the sum of squares over `[a, c)`.
pub proof fn lemma_sum_sq_concat(s: Seq<i64>, a: int, b: int, c: int)
    requires
        0 <= a <= b <= c <= s.len(),
    ensures
        sum_sq(s, a, b) + sum_sq(s, b, c) == sum_sq(s, a, c),
    decreases c - b,
{
    if b < c {
        lemma_sum_sq_concat(s, a, b, c - 1);
    }
}

proof fn lemma_sum_sq_prefix_le(s: Seq<i64>, a: int, b: int, c: int)
    requires
        0 <= a <= b <= c <= s.len(),
    ensures
        sum_sq(s, a, b) <= sum_sq(s, a, c),
{
    lemma_sum_sq_concat(s, a, b, c);
    lemma_sum_sq_nonneg(s, b, c);
}

proof fn lemma_sum_sq_bound(s: Seq<i64>, a: int, b: int, m: int)
    requires
        0 <= a <= b <= s.len(),
        forall|i: int| a <= i < b ==> 0 <= #[trigger] s[i] <= m,
    ensures
        sum_sq(s, a, b) <= (b - a) * (m * m),
    decreases b - a,
{
    if a < b {
        lemma_sum_sq_bound(s, a, b - 1, m);
        assert(0 <= s[b - 1] <= m);
        assert(s[b - 1] * s[b - 1] <= m * m) by (nonlinear_arith)
            requires 0 <= s[b - 1] <= m;
        assert(sum_sq(s, a, b) == sum_sq(s, a, b - 1) + s[b - 1] * s[b - 1]);
        assert((b - 1 - a) * (m * m) + (m * m) == (b - a) * (m * m)) by (nonlinear_arith);
        assert(sum_sq(s, a, b) <= (b - a) * (m * m));
    } else {
        assert(sum_sq(s, a, b) == 0);
        assert((b - a) * (m * m) == 0) by (nonlinear_arith)
            requires b == a;
    }
}

/// Sum of `sum_sq` over the consecutive ranges delimited by `cuts`:
/// the first `k` ranges `[cuts[0], cuts[1]), ..., [cuts[k-1], cuts[k])`.
pub open spec fn partition_sum(s: Seq<i64>, cuts: Seq<int>, k: int) -> int
    decreases k,
{
    if 1 <= k < cuts.len() {
        partition_sum(s, cuts, k - 1) + sum_sq(s, cuts[k - 1], cuts[k])
    } else {
        0
    }
}

/// Partition law: for any division of `[0, n)` into consecutive ranges by cut
/// points `0 == cuts[0] <= cuts[1] <= ... <= cuts[last] == n`, the per-range
/// sums of squares add up to the sequential sum of squares over the whole
/// buffer. Since every exhaustive, non-overlapping cover of `[0, n)` by index
/// ranges is, once ordered, such a sequence of cut points, partial reductions
/// computed independently can always be summed to the sequential total.
pub proof fn lemma_partition_reduce(s: Seq<i64>, cuts: Seq<int>)
    requires
        cuts.len() >= 1,
        cuts[0] == 0,
        cuts[cuts.len() - 1] == s.len(),
        forall|i: int| 0 <= i < cuts.len() - 1 ==> #[trigger] cuts[i] <= cuts[i + 1],
    ensures
        partition_sum(s, cuts, cuts.len() - 1) == sum_sq(s, 0, s.len() as int),
{
    lemma_partition_reduce_prefix(s, cuts, cuts.len() - 1);
}

proof fn lemma_cuts_in_bounds(s: Seq<i64>, cuts: Seq<int>, k: int)
    requires
        cuts.len() >= 1,
        cuts[0] == 0,
        cuts[cuts.len() - 1] == s.len(),
        forall|i: int| 0 <= i < cuts.len() - 1 ==> #[trigger] cuts[i] <= cuts[i + 1],
        0 <= k < cuts.len(),
    ensures
        0 <= cuts[k] <= s.len(),
{
    lemma_cuts_monotone(cuts, 0, k);
    lemma_cuts_monotone(cuts, k, cuts.len() - 1);
}

proof fn lemma_cuts_monotone(cuts: Seq<int>, i: int, j: int)
    requires
        forall|k: int| 0 <= k < cuts.len() - 1 ==> #[trigger] cuts[k] <= cuts[k + 1],
        0 <= i <= j < cuts.len(),
    ensures
        cuts[i] <= cuts[j],
    decreases j - i,
{
    if i < j {
        lemma_cuts_monotone(cuts, i, j - 1);
        assert(cuts[j - 1] <= cuts[j]);
    }
}

proof fn lemma_partition_reduce_prefix(s: Seq<i64>, cuts: Seq<int>, k: int)
    requires
        cuts.len() >= 1,
        cuts[0] == 0,
        cuts[cuts.len() - 1] == s.len(),
        forall|i: int| 0 <= i < cuts.len() - 1 ==> #[trigger] cuts[i] <= cuts[i + 1],
        0 <= k < cuts.len(),
    ensures
        partition_sum(s, cuts, k) == sum_sq(s, 0, cuts[k]),
    decreases k,
{
    if k >= 1 {
        lemma_partition_reduce_prefix(s, cuts, k - 1);
        lemma_cuts_in_bounds(s, cuts, k - 1);
        lemma_cuts_in_bounds(s, cuts, k);
        lemma_cuts_monotone(cuts, k - 1, k);
        lemma_sum_sq_concat(s, 0, cuts[k - 1], cuts[k]);
    }
}

/// Statistics over one sub-range of a buffer, computed in a single pass.
pub struct SliceStats {
    /// Sum of the values in the range.
    pub sum: i128,
    /// `sum` divided by `count`, rounded toward negative infinity.
    pub mean: i128,
    /// Least value in the range.
    pub min: i64,
    /// Greatest value in the range.
    pub max: i64,
    /// Number of values in the range.
    pub count: usize,
}

/// Reduction engine owning a numeric buffer. Generated data is the ramp
/// `0, 1, 2, ...`, so every stored value is non-negative and fits in 32 bits;
/// `wf` records that bound, which keeps every reduction within `i128`.
pub struct ParallelProcessor {
    data: Vec<i64>,
}

impl View for ParallelProcessor {
    type V = Seq<i64>;

    closed spec fn view(&self) -> Seq<i64> {
        self.data@
    }
}

impl ParallelProcessor {
    /// Every stored value is non-negative and at most `u32::MAX`, and the
    /// buffer holds at most `u32::MAX` values.
    pub closed spec fn wf(&self) -> bool {
        &&& self.data@.len() <= u32::MAX
        &&& forall|i: int| 0 <= i < self.data@.len() ==> 0 <= #[trigger] self.data@[i] <= u32::MAX
    }

    /// Creates a processor over the generated ramp `0, 1, ..., size - 1`.
    pub fn new(size: usize) -> (r: ParallelProcessor)
        requires
            size <= u32::MAX,
        ensures
            r.wf(),
            r@.len() == size,
            forall|i: int| 0 <= i < size ==> r@[i] == i,
    {
        let mut data: Vec<i64> = Vec::new();
        let mut i: usize = 0;
        while i < size
            invariant
                i <= size,
                size <= u32::MAX,
                data@.len() == i,
                forall|j: int| 0 <= j < i ==> data@[j] == j,
            decreases size - i,
        {
            data.push(i as i64);
            i = i + 1;
        }
        ParallelProcessor { data }
    }

    /// Number of values in the buffer.
    pub fn size(&self) -> (r: usize)
        ensures
            r == self@.len(),
    {
        self.data.len()
    }

    /// Sum of squares over `self[start..min(end, len))`; `0` for an empty
    /// effective range.
    pub fn process_chunk(&self, start: usize, end: usize) -> (r: i128)
        requires
            self.wf(),
        ensures
            r == sum_sq(self@, start as int, if end <= self@.len() { end as int } else { self@.len() as int }),
    {
        let len = self.data.len();
        let eff_end = if end <= len { end } else { len };
        proof {
            if start < eff_end {
                lemma_sum_sq_bound(self@, start as int, eff_end as int, u32::MAX as int);
            }
        }
        if start >= eff_end {
            return 0;
        }
        let mut acc: i128 = 0;
        let mut i: usize = start;
        while i < eff_end
            invariant
                start <= i <= eff_end <= self@.len(),
                self.wf(),
                acc == sum_sq(self@, start as int, i as int),
                sum_sq(self@, start as int, eff_end as int) <= (eff_end - start) * ((u32::MAX as int) * (u32::MAX as int)),
            decreases eff_end - i,
        {
            proof {
                lemma_sum_sq_prefix_le(self@, start as int, i + 1, eff_end as int);
                lemma_sum_sq_nonneg(self@, start as int, i as int);
                assert(self@[i as int] * self@[i as int] <= (u32::MAX as int) * (u32::MAX as int))
                    by (nonlinear_arith)
                    requires 0 <= self@[i as int] <= u32::MAX as int;
                assert((eff_end - start) * ((u32::MAX as int) * (u32::MAX as int)) < i128::MAX)
                    by (nonlinear_arith)
                    requires 0 <= eff_end - start <= u32::MAX as int;
            }
            let v = self.data[i];
            acc = acc + (v as i128) * (v as i128);
            i = i + 1;
        }
        acc
    }

    /// Sum of squares over the whole buffer.
    pub fn process_sequential(&self) -> (r: i128)
        requires
            self.wf(),
        ensures
            r == sum_sq(self@, 0, self@.len() as int),
    {
        let len = self.data.len();
        self.process_chunk(0, len)
    }

    /// Copy of `self[start..min(end, len))`, empty when the effective range is
    /// empty.
    pub fn get_chunk_array(&self, start: usize, end: usize) -> (r: Vec<i64>)
        ensures
            r@ == if (start as int) < (if end <= self@.len() { end as int } else { self@.len() as int }) {
                self@.subrange(start as int, if end <= self@.len() { end as int } else { self@.len() as int })
            } else {
                Seq::<i64>::empty()
            },
    {
        let len = self.data.len();
        let eff_end = if end <= len { end } else { len };
        let mut out: Vec<i64> = Vec::new();
        if start >= eff_end {
            proof {
                assert(out@ =~= Seq::<i64>::empty());
            }
            return out;
        }
        let mut i: usize = start;
        while i < eff_end
            invariant
                start <= i <= eff_end <= self@.len(),
                out@ == self@.subrange(start as int, i as int),
            decreases eff_end - i,
        {
            out.push(self.data[i]);
            proof {
                assert(out@ =~= self@.subrange(start as int, i + 1));
            }
            i = i + 1;
        }
        out
    }

    /// Sum of squares over `buffer[start..min(end, len))` for a buffer the
    /// engine does not own; read-only, `0` for an empty effective range. The
    /// bound on the mathematical sum is what lets the result be carried in an
    /// `i128`.
    pub fn process_shared_buffer(buffer: &Vec<i64>, start: usize, end: usize) -> (r: i128)
        requires
            sum_sq(buffer@, start as int, if end <= buffer@.len() { end as int } else { buffer@.len() as int }) <= i128::MAX,
        ensures
            r == sum_sq(buffer@, start as int, if end <= buffer@.len() { end as int } else { buffer@.len() as int }),
    {
        let len = buffer.len();
        let eff_end = if end <= len { end } else { len };
        if start >= eff_end {
            return 0;
        }
        let mut acc: i128 = 0;
        let mut i: usize = start;
        while i < eff_end
            invariant
                start <= i <= eff_end <= buffer@.len(),
                acc == sum_sq(buffer@, start as int, i as int),
                sum_sq(buffer@, start as int, eff_end as int) <= i128::MAX,
            decreases eff_end - i,
        {
            proof {
                lemma_sum_sq_prefix_le(buffer@, start as int, i + 1, eff_end as int);
                lemma_sum_sq_nonneg(buffer@, start as int, i as int);
                assert(buffer@[i as int] * buffer@[i as int] >= 0) by (nonlinear_arith);
            }
            let v = buffer[i];
            acc = acc + (v as i128) * (v as i128);
            i = i + 1;
        }
        acc
    }

    /// Single-pass statistics over `self[start..min(end, len))`; `None` when
    /// the effective range is empty.
    pub fn calculate_stats(&self, start: usize, end: usize) -> (r: Option<SliceStats>)
        requires
            self.wf(),
        ensures
            ({
                let eff_end = if end <= self@.len() { end as int } else { self@.len() as int };
                &&& r is Some <==> (start as int) < eff_end
                &&& r matches Some(st) ==> {
                    &&& st.count == eff_end - start
                    &&& st.sum == sum_range(self@, start as int, eff_end)
                    &&& st.mean == st.sum / (st.count as i128)
                    &&& st.min == min_range(self@, start as int, eff_end)
                    &&& st.max == max_range(self@, start as int, eff_end)
                }
            }),
    {
        let len = self.data.len();
        let eff_end = if end <= len { end } else { len };
        if start >= eff_end {
            return None;
        }
        let first = self.data[start];
        proof {
            assert(sum_range(self@, start as int, start as int) == 0);
            assert(sum_range(self@, start as int, start + 1) == self@[start as int]);
        }
        let mut sum: i128 = first as i128;
        let mut mn: i64 = first;
        let mut mx: i64 = first;
        let mut i: usize = start + 1;
        while i < eff_end
            invariant
                start < i <= eff_end <= self@.len(),
                self.wf(),
                sum == sum_range(self@, start as int, i as int),
                mn == min_range(self@, start as int, i as int),
                mx == max_range(self@, start as int, i as int),
                0 <= sum <= (i - start) * (u32::MAX as int),
            decreases eff_end - i,
        {
            let v = self.data[i];
            proof {
                assert((i - start) * (u32::MAX as int) + u32::MAX as int
                    == (i + 1 - start) * (u32::MAX as int)) by (nonlinear_arith);
                assert((i + 1 - start) * (u32::MAX as int) < i128::MAX) by (nonlinear_arith)
                    requires 0 <= i + 1 - start <= u32::MAX as int;
            }
            sum = sum + (v as i128);
            if v < mn {
                mn = v;
            }
            if v > mx {
                mx = v;
            }
            i = i + 1;
        }
        let count = eff_end - start;
        let mean = sum / (count as i128);
        Some(SliceStats { sum, mean, min: mn, max: mx, count })
    }
}

/// Sum of squares over an entire caller-supplied buffer, the per-worker unit
/// of the fan-out protocol.
pub fn process_worker_chunk(data: &Vec<i64>) -> (r: i128)
    requires
        sum_sq(data@, 0, data@.len() as int) <= i128::MAX,
    ensures
        r == sum_sq(data@, 0, data@.len() as int),
{
    let len = data.len();
    ParallelProcessor::process_shared_buffer(data, 0, len)
}

} // verus!
