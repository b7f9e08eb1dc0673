//! Visualization-oriented series engine: fixed-size chunking of an `(x, y)`
//! series and reduction of a series to a target point count. Exported point
//! sequences use the interleaved wire layout: element `2k` is the `x` of point
//! `k`, element `2k + 1` its `y`.

use vstd::prelude::*;
use vstd::arithmetic::div_mod::{
    lemma_div_by_multiple, lemma_div_is_ordered, lemma_div_pos_is_pos, lemma_fundamental_div_mod,
    lemma_mod_division_less_than_divisor,
};
use vstd::arithmetic::mul::{lemma_mul_inequality, lemma_mul_is_commutative};

verus! {

/// One point of a series.
#[derive(Clone, Copy, Debug, PartialEq, Eq, Structural)]
pub struct DataPoint {
    pub x: i64,
    pub y: i64,
}

/// Ceiling of `a / b` for `a >= 0`, `b >= 1`.
pub open spec fn ceil_div(a: int, b: int) -> int {
    (a + b - 1) / b
}

/// Sum of the `x` coordinates of `s[start..end)`; `0` when the range is empty
/// or not within bounds.
pub open spec fn sum_x_range(s: Seq<DataPoint>, start: int, end: int) -> int
    decreases end - start,
{
    if 0 <= start && start < end && end <= s.len() {
        sum_x_range(s, start, end - 1) + s[end - 1].x
    } else {
        0
    }
}

/// Sum of the `y` coordinates of `s[start..end)`; `0` when the range is empty
/// or not within bounds.
pub open spec fn sum_y_range(s: Seq<DataPoint>, start: int, end: int) -> int
    decreases end - start,
{
    if 0 <= start && start < end && end <= s.len() {
        sum_y_range(s, start, end - 1) + s[end - 1].y
    } else {
        0
    }
}

/// Least `y` of `s[start..end)`; meaningful only for a non-empty in-bounds
/// range.
pub open spec fn min_y_range(s: Seq<DataPoint>, start: int, end: int) -> int
    decreases end - start,
{
    if 0 <= start && start < end - 1 && end <= s.len() {
        let m = min_y_range(s, start, end - 1);
        if s[end - 1].y < m {
            s[end - 1].y as int
        } else {
            m
        }
    } else if 0 <= start && start == end - 1 && end <= s.len() {
        s[start].y as int
    } else {
        0
    }
}

/// Greatest `y` of `s[start..end)`; meaningful only for a non-empty in-bounds
/// range.
pub open spec fn max_y_range(s: Seq<DataPoint>, start: int, end: int) -> int
    decreases end - start,
{
    if 0 <= start && start < end - 1 && end <= s.len() {
        let m = max_y_range(s, start, end - 1);
        if s[end - 1].y > m {
            s[end - 1].y as int
        } else {
            m
        }
    } else if 0 <= start && start == end - 1 && end <= s.len() {
        s[start].y as int
    } else {
        0
    }
}

/// `out` is the interleaved `x, y` encoding of the points `pts[a..b)`.
pub open spec fn interleaved_matches(out: Seq<i64>, pts: Seq<DataPoint>, a: int, b: int) -> bool {
    &&& out.len() == 2 * (b - a)
    &&& forall|k: int|
        0 <= k < b - a ==> #[trigger] out[2 * k] == pts[a + k].x && out[2 * k + 1] == pts[a + k].y
}

proof fn lemma_sum_y_bounds(s: Seq<DataPoint>, a: int, b: int, m: int)
    requires
        0 <= a <= b <= s.len(),
        forall|i: int| a <= i < b ==> 0 <= (#[trigger] s[i]).y <= m,
    ensures
        0 <= sum_y_range(s, a, b) <= (b - a) * m,
    decreases b - a,
{
    if a < b {
        lemma_sum_y_bounds(s, a, b - 1, m);
        assert((b - 1 - a) * m + m == (b - a) * m) by (nonlinear_arith);
    } else {
        assert((b - a) * m == 0) by (nonlinear_arith)
            requires b == a;
    }
}

proof fn lemma_sum_x_bounds(s: Seq<DataPoint>, a: int, b: int, m: int)
    requires
        0 <= a <= b <= s.len(),
        forall|i: int| a <= i < b ==> 0 <= (#[trigger] s[i]).x <= m,
    ensures
        0 <= sum_x_range(s, a, b) <= (b - a) * m,
    decreases b - a,
{
    if a < b {
        lemma_sum_x_bounds(s, a, b - 1, m);
        assert((b - 1 - a) * m + m == (b - a) * m) by (nonlinear_arith);
    } else {
        assert((b - a) * m == 0) by (nonlinear_arith)
            requires b == a;
    }
}

/// A mean of values out of `[0, m]` lies in `[0, m]`: if `0 <= sum <= cnt * m`
/// then `0 <= sum / cnt <= m`.
proof fn lemma_mean_in_range(sum: int, cnt: int, m: int)
    requires
        cnt >= 1,
        m >= 0,
        0 <= sum <= cnt * m,
    ensures
        0 <= sum / cnt <= m,
{
    lemma_div_pos_is_pos(sum, cnt);
    lemma_div_is_ordered(sum, cnt * m, cnt);
    lemma_mul_is_commutative(cnt, m);
    lemma_div_by_multiple(m, cnt);
}

/// The `idx`-th bucket boundary `idx * len / t` for a series of `len` points
/// reduced to `t` points; computed in 128 bits so the product cannot wrap.
fn bucket_boundary(idx: usize, len: usize, t: usize) -> (r: usize)
    requires
        1 <= t,
        idx <= t,
    ensures
        r == (idx as int) * (len as int) / (t as int),
{
    proof {
        assert((idx as int) * (len as int) <= (u64::MAX as int) * (u64::MAX as int))
            by (nonlinear_arith)
            requires 0 <= idx as int <= u64::MAX as int, 0 <= len as int <= u64::MAX as int;
        assert((u64::MAX as int) * (u64::MAX as int) < u128::MAX as int) by (nonlinear_arith);
        lemma_div_pos_is_pos((idx as int) * (len as int), t as int);
        lemma_mul_inequality(idx as int, t as int, len as int);
        lemma_div_is_ordered((idx as int) * (len as int), (t as int) * (len as int), t as int);
        lemma_mul_is_commutative(t as int, len as int);
        lemma_div_by_multiple(len as int, t as int);
    }
    ((idx as u128) * (len as u128) / (t as u128)) as usize
}

/// Per-chunk summary of the `y` values.
pub struct ChunkStats {
    /// Least `y` in the chunk.
    pub min: i64,
    /// Greatest `y` in the chunk.
    pub max: i64,
    /// Mean of the chunk's `y` values, rounded toward negative infinity.
    pub avg: i64,
}

/// Series store and chunking/downsampling engine. The series is generated at
/// construction: point `i` is `(i, i % 100)`, so coordinates are non-negative,
/// bounded by `u32::MAX`, and ordered by `x` ascending.
pub struct ChartProcessor {
    data: Vec<DataPoint>,
    chunk_size: usize,
}

impl View for ChartProcessor {
    type V = Seq<DataPoint>;

    closed spec fn view(&self) -> Seq<DataPoint> {
        self.data@
    }
}

impl ChartProcessor {
    /// The configured chunk width.
    pub closed spec fn chunk_len(&self) -> int {
        self.chunk_size as int
    }

    /// The chunk width is positive, the series holds at most `u32::MAX`
    /// points, and every coordinate lies in `[0, u32::MAX]`.
    pub open spec fn wf(&self) -> bool {
        &&& self.chunk_len() >= 1
        &&& self@.len() <= u32::MAX
        &&& forall|i: int|
            0 <= i < self@.len() ==> 0 <= (#[trigger] self@[i]).x <= u32::MAX && 0 <= self@[i].y
                <= u32::MAX
    }

    /// Builds the generated series of `data_size` points with chunk width
    /// `chunk_size`; point `i` is `(i, i % 100)`.
    pub fn new(data_size: usize, chunk_size: usize) -> (r: ChartProcessor)
        requires
            data_size <= u32::MAX,
            chunk_size >= 1,
        ensures
            r.wf(),
            r.chunk_len() == chunk_size,
            r@.len() == data_size,
            forall|i: int| 0 <= i < data_size ==> (#[trigger] r@[i]).x == i && r@[i].y == i % 100,
    {
        let mut data: Vec<DataPoint> = Vec::new();
        let mut i: usize = 0;
        while i < data_size
            invariant
                i <= data_size,
                data_size <= u32::MAX,
                data@.len() == i,
                forall|j: int| 0 <= j < i ==> (#[trigger] data@[j]).x == j && data@[j].y == j % 100,
            decreases data_size - i,
        {
            data.push(DataPoint { x: i as i64, y: (i % 100) as i64 });
            i = i + 1;
        }
        ChartProcessor { data, chunk_size }
    }

    /// Number of points in the series.
    pub fn data_size(&self) -> (r: usize)
        ensures
            r == self@.len(),
    {
        self.data.len()
    }

    /// Number of chunks: the ceiling of `len / chunk_size`.
    pub fn chunk_count(&self) -> (r: usize)
        requires
            self.wf(),
        ensures
            r == ceil_div(self@.len() as int, self.chunk_len()),
    {
        let len = self.data.len();
        if len == 0 {
            proof {
                lemma_div_mod_unique(self.chunk_len() - 1, self.chunk_len(), 0, self.chunk_len() - 1);
            }
            0
        } else {
            proof {
                lemma_div_plus_one_holds(len - 1, self.chunk_len());
            }
            (len - 1) / self.chunk_size + 1
        }
    }

    /// Interleaved copy of the points `self[a..b)`.
    fn interleave_range(&self, a: usize, b: usize) -> (r: Vec<i64>)
        requires
            a <= b <= self@.len(),
        ensures
            interleaved_matches(r@, self@, a as int, b as int),
    {
        let mut out: Vec<i64> = Vec::new();
        let mut i: usize = a;
        while i < b
            invariant
                a <= i <= b <= self@.len(),
                interleaved_matches(out@, self@, a as int, i as int),
            decreases b - i,
        {
            let p = self.data[i];
            let ghost prev = out@;
            out.push(p.x);
            out.push(p.y);
            proof {
                assert forall|k: int| 0 <= k < i + 1 - a implies #[trigger] out@[2 * k]
                    == self@[a + k].x && out@[2 * k + 1] == self@[a + k].y by {
                    if k < i - a {
                        assert(out@[2 * k] == prev[2 * k]);
                        assert(out@[2 * k + 1] == prev[2 * k + 1]);
                    } else {
                        assert(2 * k == prev.len());
                    }
                }
            }
            i = i + 1;
        }
        out
    }

    /// Interleaved copy of chunk `chunk_index`, that is of
    /// `self[chunk_index * chunk_size .. min((chunk_index + 1) * chunk_size, len))`;
    /// empty when the chunk start lies at or beyond the end of the series.
    pub fn get_chunk(&self, chunk_index: usize) -> (r: Vec<i64>)
        requires
            self.wf(),
        ensures
            ({
                let start = chunk_index as int * self.chunk_len();
                let eff_end = if start + self.chunk_len() <= self@.len() {
                    start + self.chunk_len()
                } else {
                    self@.len() as int
                };
                if start < self@.len() {
                    interleaved_matches(r@, self@, start, eff_end)
                } else {
                    r@.len() == 0
                }
            }),
    {
        let len = self.data.len();
        let count = self.chunk_count();
        if chunk_index >= count {
            proof {
                lemma_chunk_start_beyond_count(len as int, self.chunk_len(), chunk_index as int);
            }
            Vec::new()
        } else {
            proof {
                lemma_chunk_start_within_count(len as int, self.chunk_len(), chunk_index as int);
            }
            let start = chunk_index * self.chunk_size;
            let eff_end = if self.chunk_size <= len - start {
                start + self.chunk_size
            } else {
                len
            };
            self.interleave_range(start, eff_end)
        }
    }

    /// Reduces the series to `target_points` points for rendering. When
    /// `target_points >= len` the full series is returned unchanged. Otherwise
    /// the first and last points are kept verbatim, and each intermediate
    /// output point `i` is the coordinate-wise mean (rounded toward negative
    /// infinity) of the bucket
    /// `[i * len / target_points, (i + 1) * len / target_points)`, which is
    /// never empty since `target_points < len`. A target below 2 cannot hold
    /// both endpoint points and is excluded.
    pub fn downsample(&self, target_points: usize) -> (r: Vec<i64>)
        requires
            self.wf(),
            target_points >= 2 || target_points >= self@.len(),
        ensures
            target_points >= self@.len() ==> interleaved_matches(r@, self@, 0, self@.len() as int),
            target_points < self@.len() ==> {
                let n = self@.len() as int;
                let t = target_points as int;
                &&& r@.len() == 2 * t
                &&& r@[0] == self@[0].x && r@[1] == self@[0].y
                &&& r@[2 * (t - 1)] == self@[n - 1].x && r@[2 * (t - 1) + 1] == self@[n - 1].y
                &&& forall|i: int|
                    1 <= i < t - 1 ==> {
                        let bs = i * n / t;
                        let be = (i + 1) * n / t;
                        #[trigger] r@[2 * i] == sum_x_range(self@, bs, be) / (be - bs) && r@[2 * i
                            + 1] == sum_y_range(self@, bs, be) / (be - bs)
                    }
            },
    {
        let len = self.data.len();
        if target_points >= len {
            return self.interleave_range(0, len);
        }
        let mut out: Vec<i64> = Vec::new();
        let first = self.data[0];
        out.push(first.x);
        out.push(first.y);
        let mut i: usize = 1;
        while i < target_points - 1
            invariant
                1 <= i <= target_points - 1,
                2 <= target_points,
                (target_points as int) < self@.len(),
                self@.len() <= u32::MAX,
                len == self@.len(),
                self.wf(),
                out@.len() == 2 * i,
                out@[0] == self@[0].x && out@[1] == self@[0].y,
                forall|j: int|
                    1 <= j < i ==> {
                        let bs = j * (self@.len() as int) / (target_points as int);
                        let be = (j + 1) * (self@.len() as int) / (target_points as int);
                        #[trigger] out@[2 * j] == sum_x_range(self@, bs, be) / (be - bs)
                            && out@[2 * j + 1] == sum_y_range(self@, bs, be) / (be - bs)
                    },
            decreases target_points - i,
        {
            proof {
                lemma_bucket_bounds(self@.len() as int, target_points as int, i as int);
            }
            let bs = bucket_boundary(i, len, target_points);
            let be = bucket_boundary(i + 1, len, target_points);
            let (ax, ay) = self.bucket_mean(bs, be);
            let ghost prev = out@;
            out.push(ax);
            out.push(ay);
            proof {
                assert forall|j: int| 1 <= j < i + 1 implies {
                    let bs2 = j * (self@.len() as int) / (target_points as int);
                    let be2 = (j + 1) * (self@.len() as int) / (target_points as int);
                    #[trigger] out@[2 * j] == sum_x_range(self@, bs2, be2) / (be2 - bs2)
                        && out@[2 * j + 1] == sum_y_range(self@, bs2, be2) / (be2 - bs2)
                } by {
                    if j < i {
                        assert(out@[2 * j] == prev[2 * j]);
                        assert(out@[2 * j + 1] == prev[2 * j + 1]);
                    } else {
                        assert(2 * j == prev.len());
                    }
                }
            }
            i = i + 1;
        }
        let last = self.data[len - 1];
        let ghost prev = out@;
        out.push(last.x);
        out.push(last.y);
        proof {
            let n = self@.len() as int;
            let t = target_points as int;
            assert(out@[2 * (t - 1)] == self@[n - 1].x && out@[2 * (t - 1) + 1] == self@[n - 1].y);
            assert forall|j: int| 1 <= j < t - 1 implies {
                let bs2 = j * n / t;
                let be2 = (j + 1) * n / t;
                #[trigger] out@[2 * j] == sum_x_range(self@, bs2, be2) / (be2 - bs2)
                    && out@[2 * j + 1] == sum_y_range(self@, bs2, be2) / (be2 - bs2)
            } by {
                assert(out@[2 * j] == prev[2 * j]);
                assert(out@[2 * j + 1] == prev[2 * j + 1]);
            }
        }
        out
    }

    /// Coordinate-wise mean over `self[bs..be)`, rounded toward negative
    /// infinity.
    fn bucket_mean(&self, bs: usize, be: usize) -> (r: (i64, i64))
        requires
            self.wf(),
            bs < be <= self@.len(),
        ensures
            r.0 == sum_x_range(self@, bs as int, be as int) / (be - bs),
            r.1 == sum_y_range(self@, bs as int, be as int) / (be - bs),
    {
        let mut sx: u128 = 0;
        let mut sy: u128 = 0;
        let mut i: usize = bs;
        proof {
            lemma_sum_x_bounds(self@, bs as int, be as int, u32::MAX as int);
            lemma_sum_y_bounds(self@, bs as int, be as int, u32::MAX as int);
        }
        while i < be
            invariant
                bs <= i <= be <= self@.len(),
                self.wf(),
                sx == sum_x_range(self@, bs as int, i as int),
                sy == sum_y_range(self@, bs as int, i as int),
                0 <= sum_x_range(self@, bs as int, i as int) <= (i - bs) * (u32::MAX as int),
                0 <= sum_y_range(self@, bs as int, i as int) <= (i - bs) * (u32::MAX as int),
            decreases be - i,
        {
            let p = self.data[i];
            proof {
                lemma_sum_x_bounds(self@, bs as int, i + 1, u32::MAX as int);
                lemma_sum_y_bounds(self@, bs as int, i + 1, u32::MAX as int);
                assert((i + 1 - bs) * (u32::MAX as int) < u128::MAX) by (nonlinear_arith)
                    requires 0 <= i + 1 - bs <= u32::MAX as int;
            }
            sx = sx + (p.x as u128);
            sy = sy + (p.y as u128);
            i = i + 1;
        }
        let cnt = (be - bs) as u128;
        proof {
            lemma_mean_in_range(sum_x_range(self@, bs as int, be as int), cnt as int, u32::MAX as int);
            lemma_mean_in_range(sum_y_range(self@, bs as int, be as int), cnt as int, u32::MAX as int);
            lemma_mul_is_commutative(be - bs, u32::MAX as int);
        }
        ((sx / cnt) as i64, (sy / cnt) as i64)
    }

    /// Summary (least, greatest and mean `y`) of chunk `chunk_index`; `None`
    /// when the chunk start lies at or beyond the end of the series.
    pub fn aggregate_chunk(&self, chunk_index: usize) -> (r: Option<ChunkStats>)
        requires
            self.wf(),
        ensures
            ({
                let start = chunk_index as int * self.chunk_len();
                let eff_end = if start + self.chunk_len() <= self@.len() {
                    start + self.chunk_len()
                } else {
                    self@.len() as int
                };
                &&& r is Some <==> start < self@.len()
                &&& r matches Some(st) ==> {
                    &&& st.min == min_y_range(self@, start, eff_end)
                    &&& st.max == max_y_range(self@, start, eff_end)
                    &&& st.avg == sum_y_range(self@, start, eff_end) / (eff_end - start)
                }
            }),
    {
        let len = self.data.len();
        let count = self.chunk_count();
        if chunk_index >= count {
            proof {
                lemma_chunk_start_beyond_count(len as int, self.chunk_len(), chunk_index as int);
            }
            return None;
        }
        proof {
            lemma_chunk_start_within_count(len as int, self.chunk_len(), chunk_index as int);
        }
        let start = chunk_index * self.chunk_size;
        let eff_end = if self.chunk_size <= len - start {
            start + self.chunk_size
        } else {
            len
        };
        let first = self.data[start];
        proof {
            assert(sum_y_range(self@, start as int, start as int) == 0);
            assert(sum_y_range(self@, start as int, start + 1) == self@[start as int].y);
            lemma_sum_y_bounds(self@, start as int, eff_end as int, u32::MAX as int);
        }
        let mut mn: i64 = first.y;
        let mut mx: i64 = first.y;
        let mut sy: u128 = first.y as u128;
        let mut i: usize = start + 1;
        while i < eff_end
            invariant
                start < i <= eff_end <= self@.len(),
                self.wf(),
                mn == min_y_range(self@, start as int, i as int),
                mx == max_y_range(self@, start as int, i as int),
                sy == sum_y_range(self@, start as int, i as int),
                0 <= sum_y_range(self@, start as int, i as int) <= (i - start) * (u32::MAX as int),
            decreases eff_end - i,
        {
            let p = self.data[i];
            proof {
                lemma_sum_y_bounds(self@, start as int, i + 1, u32::MAX as int);
                assert((i + 1 - start) * (u32::MAX as int) < u128::MAX) by (nonlinear_arith)
                    requires 0 <= i + 1 - start <= u32::MAX as int;
            }
            if p.y < mn {
                mn = p.y;
            }
            if p.y > mx {
                mx = p.y;
            }
            sy = sy + (p.y as u128);
            i = i + 1;
        }
        let cnt = (eff_end - start) as u128;
        proof {
            lemma_mean_in_range(
                sum_y_range(self@, start as int, eff_end as int),
                cnt as int,
                u32::MAX as int,
            );
            lemma_mul_is_commutative(eff_end - start, u32::MAX as int);
        }
        Some(ChunkStats { min: mn, max: mx, avg: (sy / cnt) as i64 })
    }
}

/// `(x + d) / d == x / d + 1` for positive `d`, the step that turns the
/// `(len - 1) / c + 1` form of the chunk count into the ceiling form.
proof fn lemma_div_plus_one_holds(x: int, d: int)
    requires
        d >= 1,
        x >= 0,
    ensures
        (x + d) / d == x / d + 1,
{
    lemma_fundamental_div_mod(x, d);
    lemma_mod_division_less_than_divisor(x, d);
    lemma_fundamental_div_mod(x + d, d);
    lemma_mod_division_less_than_divisor(x + d, d);
    let q = x / d;
    let r = x % d;
    assert(x + d == d * (q + 1) + r) by (nonlinear_arith)
        requires x == d * q + r;
    lemma_div_mod_unique(x + d, d, q + 1, r);
}

/// Uniqueness of Euclidean quotient and remainder.
proof fn lemma_div_mod_unique(x: int, d: int, q: int, r: int)
    requires
        d >= 1,
        0 <= r < d,
        x == d * q + r,
    ensures
        x / d == q,
        x % d == r,
{
    lemma_fundamental_div_mod(x, d);
    lemma_mod_division_less_than_divisor(x, d);
    let q2 = x / d;
    let r2 = x % d;
    assert(q == q2 && r == r2) by (nonlinear_arith)
        requires d >= 1, 0 <= r < d, 0 <= r2 < d, d * q + r == d * q2 + r2;
}

/// A chunk index at or past the chunk count starts at or past the end of the
/// series: `i >= ceil(len / c)` implies `i * c >= len`. Together with the
/// contract of `get_chunk` this is what makes every out-of-range chunk empty.
pub proof fn lemma_chunk_start_beyond_count(len: int, c: int, i: int)
    requires
        c >= 1,
        0 <= len,
        i >= ceil_div(len, c),
        i >= 0,
    ensures
        i * c >= len,
{
    if len == 0 {
        assert(i * c >= 0) by (nonlinear_arith)
            requires i >= 0 && c >= 0;
    } else {
        lemma_div_plus_one_holds(len - 1, c);
        let q = (len - 1) / c;
        lemma_fundamental_div_mod(len - 1, c);
        lemma_mod_division_less_than_divisor(len - 1, c);
        assert((q + 1) * c >= len) by (nonlinear_arith)
            requires c >= 1, len - 1 == c * q + (len - 1) % c, 0 <= (len - 1) % c < c;
        lemma_mul_inequality(q + 1, i, c);
    }
}

/// A chunk index below the chunk count starts strictly inside the series.
proof fn lemma_chunk_start_within_count(len: int, c: int, i: int)
    requires
        c >= 1,
        0 <= len,
        0 <= i < ceil_div(len, c),
    ensures
        i * c < len,
{
    lemma_div_pos_is_pos(len + c - 1, c);
    if len == 0 {
        lemma_fundamental_div_mod(c - 1, c);
        lemma_mod_division_less_than_divisor(c - 1, c);
        lemma_div_mod_unique(c - 1, c, 0, c - 1);
    } else {
        lemma_div_plus_one_holds(len - 1, c);
        let q = (len - 1) / c;
        lemma_fundamental_div_mod(len - 1, c);
        lemma_mod_division_less_than_divisor(len - 1, c);
        assert(i * c <= q * c) by (nonlinear_arith)
            requires i <= q, c >= 1;
        assert(q * c <= len - 1) by (nonlinear_arith)
            requires c >= 1, len - 1 == c * q + (len - 1) % c, 0 <= (len - 1) % c;
    }
}

/// Middle downsampling buckets are well-formed: for `1 <= i <= t - 2` and
/// `2 <= t < n`, the bucket `[i * n / t, (i + 1) * n / t)` is non-empty and
/// lies within `[0, n)`.
proof fn lemma_bucket_bounds(n: int, t: int, i: int)
    requires
        2 <= t < n,
        1 <= i <= t - 2,
    ensures
        0 < i * n / t,
        i * n / t < (i + 1) * n / t,
        (i + 1) * n / t <= n,
{
    let a = i * n;
    let b = (i + 1) * n;
    assert(n <= a && a + n == b && b <= (t - 1) * n) by (nonlinear_arith)
        requires a == i * n, b == (i + 1) * n, 1 <= i <= t - 2, 0 < n;
    lemma_fundamental_div_mod(a, t);
    lemma_mod_division_less_than_divisor(a, t);
    let q = a / t;
    let r = a % t;
    // The next bucket boundary clears at least one more multiple of t.
    assert(b >= t * (q + 1)) by (nonlinear_arith)
        requires a == t * q + r, b == a + n, 0 <= r < t, t < n;
    lemma_div_is_ordered(t * (q + 1), b, t);
    lemma_mul_is_commutative(t, q + 1);
    lemma_div_by_multiple(q + 1, t);
    // The first bucket starts past zero.
    assert(a >= t * 1) by (nonlinear_arith)
        requires a >= n, n > t;
    lemma_div_is_ordered(t * 1, a, t);
    lemma_div_by_multiple(1, t);
    // The last middle bucket ends within the series.
    lemma_mul_inequality(i + 1, t, n);
    lemma_mul_is_commutative(t, n);
    lemma_div_is_ordered(b, t * n, t);
    lemma_div_by_multiple(n, t);
}

} // verus!
