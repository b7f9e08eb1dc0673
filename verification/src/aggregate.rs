//! Grouped summaries over rows: a single linear pass accumulates `(count,
//! total)` per key, and a final pass computes each group's average. Groups are
//! emitted in first-occurrence order.

use vstd::prelude::*;
use vstd::arithmetic::mul::lemma_mul_inequality;
use crate::row::DataRow;

verus! {

/// The grouping dimension: a row's category or its region.
pub enum GroupDim {
    Category,
    Region,
}

/// The grouping key of a row under a dimension.
pub open spec fn key_of(r: DataRow, dim: GroupDim) -> Seq<char> {
    match dim {
        GroupDim::Category => r.category@,
        GroupDim::Region => r.region@,
    }
}

/// Index of the first group in `gs` with key `k`, or `-1` when absent.
pub open spec fn find_group(gs: Seq<(Seq<char>, int, int)>, k: Seq<char>) -> int
    decreases gs.len(),
{
    if gs.len() == 0 {
        -1
    } else if gs[0].0 == k {
        0
    } else {
        let t = find_group(gs.drop_first(), k);
        if t >= 0 {
            t + 1
        } else {
            -1
        }
    }
}

/// The `(key, count, total)` groups accumulated over `rows`, keyed by the
/// chosen dimension, in first-occurrence order.
pub open spec fn groups_of(rows: Seq<DataRow>, dim: GroupDim) -> Seq<(Seq<char>, int, int)>
    decreases rows.len(),
{
    if rows.len() == 0 {
        Seq::empty()
    } else {
        let prev = groups_of(rows.drop_last(), dim);
        let r = rows.last();
        let k = key_of(r, dim);
        let idx = find_group(prev, k);
        if idx >= 0 {
            prev.update(idx, (k, prev[idx].1 + 1, prev[idx].2 + r.sales))
        } else {
            prev.push((k, 1, r.sales as int))
        }
    }
}

/// Integer division rounded toward zero, the rounding used for every reported
/// average.
pub open spec fn div_trunc(a: int, b: int) -> int {
    if a >= 0 {
        a / b
    } else {
        -((-a) / b)
    }
}

/// One group's summary.
pub struct AggregateResult {
    /// The shared category or region value of the group's rows.
    pub group_key: String,
    /// Number of rows in the group; always positive.
    pub count: usize,
    /// Sum of the group's sales.
    pub total: i128,
    /// `total / count`, rounded toward zero.
    pub average: i128,
}

/// `res` reports exactly the groups `gs`, each with its truncated average.
pub open spec fn agg_matches(res: Seq<AggregateResult>, gs: Seq<(Seq<char>, int, int)>) -> bool {
    &&& res.len() == gs.len()
    &&& forall|i: int|
        0 <= i < gs.len() ==> {
            &&& (#[trigger] res[i]).group_key@ == gs[i].0
            &&& res[i].count == gs[i].1
            &&& res[i].total == gs[i].2
            &&& res[i].average == div_trunc(gs[i].2, gs[i].1)
        }
}

/// `find_group` returns the first index bearing the key, `-1` when no group
/// bears it.
pub proof fn lemma_find_group_spec(gs: Seq<(Seq<char>, int, int)>, k: Seq<char>)
    ensures
        find_group(gs, k) == -1 ==> forall|i: int| 0 <= i < gs.len() ==> (#[trigger] gs[i]).0 != k,
        find_group(gs, k) != -1 ==> {
            &&& 0 <= find_group(gs, k) < gs.len()
            &&& gs[find_group(gs, k)].0 == k
            &&& forall|i: int| 0 <= i < find_group(gs, k) ==> (#[trigger] gs[i]).0 != k
        },
    decreases gs.len(),
{
    if gs.len() > 0 && gs[0].0 != k {
        let rest = gs.drop_first();
        lemma_find_group_spec(rest, k);
        let t = find_group(rest, k);
        if t == -1 {
            assert forall|i: int| 0 <= i < gs.len() implies (#[trigger] gs[i]).0 != k by {
                if i >= 1 {
                    assert(rest[i - 1] == gs[i]);
                }
            }
        } else {
            assert(rest[t] == gs[t + 1]);
            assert forall|i: int| 0 <= i < t + 1 implies (#[trigger] gs[i]).0 != k by {
                if i >= 1 {
                    assert(rest[i - 1] == gs[i]);
                }
            }
        }
    }
}

/// Every accumulated group has a positive count and a total bounded by
/// `count` sales values.
pub proof fn lemma_groups_bounds(rows: Seq<DataRow>, dim: GroupDim)
    ensures
        forall|i: int|
            0 <= i < groups_of(rows, dim).len() ==> {
                let g = #[trigger] groups_of(rows, dim)[i];
                &&& 1 <= g.1 <= rows.len()
                &&& -g.1 * (i64::MAX as int + 1) <= g.2 <= g.1 * (i64::MAX as int + 1)
            },
    decreases rows.len(),
{
    if rows.len() > 0 {
        lemma_groups_bounds(rows.drop_last(), dim);
        let prev = groups_of(rows.drop_last(), dim);
        let r = rows.last();
        let k = key_of(r, dim);
        let idx = find_group(prev, k);
        lemma_find_group_spec(prev, k);
        let s = i64::MAX as int + 1;
        if idx >= 0 {
            let c = prev[idx].1;
            assert(c * s + s == (c + 1) * s) by (nonlinear_arith);
        }
    }
}

/// Number of rows in `rows` whose key under `dim` is `k`.
pub open spec fn count_with_key(rows: Seq<DataRow>, dim: GroupDim, k: Seq<char>) -> int
    decreases rows.len(),
{
    if rows.len() == 0 {
        0
    } else {
        count_with_key(rows.drop_last(), dim, k) + if key_of(rows.last(), dim) == k {
            1int
        } else {
            0int
        }
    }
}

/// Summed sales of the rows in `rows` whose key under `dim` is `k`.
pub open spec fn total_with_key(rows: Seq<DataRow>, dim: GroupDim, k: Seq<char>) -> int
    decreases rows.len(),
{
    if rows.len() == 0 {
        0
    } else {
        total_with_key(rows.drop_last(), dim, k) + if key_of(rows.last(), dim) == k {
            rows.last().sales as int
        } else {
            0int
        }
    }
}

proof fn lemma_count_total_zero(rows: Seq<DataRow>, dim: GroupDim, k: Seq<char>)
    requires
        forall|r: int| 0 <= r < rows.len() ==> key_of(#[trigger] rows[r], dim) != k,
    ensures
        count_with_key(rows, dim, k) == 0,
        total_with_key(rows, dim, k) == 0,
    decreases rows.len(),
{
    if rows.len() > 0 {
        assert forall|r: int|
            0 <= r < rows.drop_last().len() implies key_of(#[trigger] rows.drop_last()[r], dim)
            != k by {
            assert(rows.drop_last()[r] == rows[r]);
        }
        lemma_count_total_zero(rows.drop_last(), dim, k);
        assert(rows.last() == rows[rows.len() - 1]);
    }
}

/// No two groups share a key.
pub proof fn lemma_groups_distinct(rows: Seq<DataRow>, dim: GroupDim)
    ensures
        forall|i: int, j: int|
            0 <= i < j < groups_of(rows, dim).len() ==> (#[trigger] groups_of(rows, dim)[i]).0 != (
            #[trigger] groups_of(rows, dim)[j]).0,
    decreases rows.len(),
{
    if rows.len() > 0 {
        lemma_groups_distinct(rows.drop_last(), dim);
        let prev = groups_of(rows.drop_last(), dim);
        let k = key_of(rows.last(), dim);
        lemma_find_group_spec(prev, k);
    }
}

/// What each group states: a group's count is the number of rows bearing its
/// key, its total the sum of their sales; and every row's key owns a group.
/// Together with `lemma_groups_distinct` this pins the aggregation down to
/// membership and summation over the input rows.
pub proof fn lemma_groups_characterise(rows: Seq<DataRow>, dim: GroupDim)
    ensures
        forall|i: int|
            0 <= i < groups_of(rows, dim).len() ==> {
                let g = #[trigger] groups_of(rows, dim)[i];
                g.1 == count_with_key(rows, dim, g.0) && g.2 == total_with_key(rows, dim, g.0)
            },
        forall|r: int|
            0 <= r < rows.len() ==> exists|i: int|
                0 <= i < groups_of(rows, dim).len() && groups_of(rows, dim)[i].0 == key_of(
                    #[trigger] rows[r],
                    dim,
                ),
    decreases rows.len(),
{
    if rows.len() > 0 {
        lemma_groups_characterise(rows.drop_last(), dim);
        lemma_groups_distinct(rows.drop_last(), dim);
        let prev = groups_of(rows.drop_last(), dim);
        let curr = groups_of(rows, dim);
        let k = key_of(rows.last(), dim);
        lemma_find_group_spec(prev, k);
        let idx = find_group(prev, k);
        // counts and totals carry over; only the group of the last row's key moves
        assert forall|i: int| 0 <= i < curr.len() implies {
            let g = #[trigger] curr[i];
            g.1 == count_with_key(rows, dim, g.0) && g.2 == total_with_key(rows, dim, g.0)
        } by {
            if idx >= 0 {
                if i == idx {
                    assert(prev[idx].1 == count_with_key(rows.drop_last(), dim, prev[idx].0));
                    assert(prev[idx].2 == total_with_key(rows.drop_last(), dim, prev[idx].0));
                    assert(prev[idx].0 == k);
                } else {
                    assert(curr[i] == prev[i]);
                    assert(prev[i].1 == count_with_key(rows.drop_last(), dim, prev[i].0));
                    assert(prev[i].2 == total_with_key(rows.drop_last(), dim, prev[i].0));
                    if i < idx {
                        assert(prev[i].0 != prev[idx].0);
                    } else {
                        assert(prev[idx].0 != prev[i].0);
                    }
                }
            } else {
                if i < prev.len() {
                    assert(curr[i] == prev[i]);
                    assert(prev[i].1 == count_with_key(rows.drop_last(), dim, prev[i].0));
                    assert(prev[i].2 == total_with_key(rows.drop_last(), dim, prev[i].0));
                    assert(prev[i].0 != k);
                } else {
                    // the pushed group: no earlier row bears the new key
                    assert forall|r: int|
                        0 <= r < rows.drop_last().len() implies key_of(
                        #[trigger] rows.drop_last()[r],
                        dim,
                    ) != k by {
                        if key_of(rows.drop_last()[r], dim) == k {
                            let w = choose|j: int|
                                0 <= j < prev.len() && prev[j].0 == key_of(
                                    rows.drop_last()[r],
                                    dim,
                                );
                            assert(prev[w].0 != k);
                            assert(false);
                        }
                    }
                    lemma_count_total_zero(rows.drop_last(), dim, k);
                }
            }
        }
        // every row's key owns a group: old rows through the untouched keys,
        // the last row through the group just bumped or pushed
        assert forall|r: int| 0 <= r < rows.len() implies exists|i: int|
            0 <= i < curr.len() && curr[i].0 == key_of(#[trigger] rows[r], dim) by {
            if r < rows.len() - 1 {
                assert(rows.drop_last()[r] == rows[r]);
                let w = choose|i: int|
                    0 <= i < prev.len() && (#[trigger] prev[i]).0 == key_of(
                        rows.drop_last()[r],
                        dim,
                    );
                assert(0 <= w < curr.len() && curr[w].0 == key_of(rows[r], dim));
            } else {
                if idx >= 0 {
                    assert(curr[idx].0 == k);
                } else {
                    assert(curr[prev.len() as int].0 == k);
                }
            }
        }
    }
}

/// The rows whose sales reach `threshold`, in their original order.
pub open spec fn filtered_min_sales(rows: Seq<DataRow>, threshold: int) -> Seq<DataRow>
    decreases rows.len(),
{
    if rows.len() == 0 {
        Seq::empty()
    } else {
        let prev = filtered_min_sales(rows.drop_last(), threshold);
        if rows.last().sales >= threshold {
            prev.push(rows.last())
        } else {
            prev
        }
    }
}

/// Retains the rows with `sales >= threshold`, preserving order; the input is
/// untouched.
pub fn filter_rows(rows: &Vec<DataRow>, threshold: i64) -> (r: Vec<DataRow>)
    ensures
        r@ == filtered_min_sales(rows@, threshold as int),
{
    let mut out: Vec<DataRow> = Vec::new();
    let mut i: usize = 0;
    while i < rows.len()
        invariant
            i <= rows@.len(),
            out@ == filtered_min_sales(rows@.take(i as int), threshold as int),
        decreases rows@.len() - i,
    {
        proof {
            assert(rows@.take(i + 1).drop_last() =~= rows@.take(i as int));
            assert(rows@.take(i + 1).last() == rows@[i as int]);
        }
        if rows[i].sales >= threshold {
            out.push(rows[i].duplicate());
        }
        i = i + 1;
    }
    proof {
        assert(rows@.take(rows@.len() as int) =~= rows@);
    }
    out
}

/// Internal accumulator for one group while scanning the rows.
struct GroupAcc {
    key: String,
    count: usize,
    total: i128,
}

spec fn acc_matches(acc: Seq<GroupAcc>, gs: Seq<(Seq<char>, int, int)>) -> bool {
    &&& acc.len() == gs.len()
    &&& forall|i: int|
        0 <= i < gs.len() ==> {
            &&& (#[trigger] acc[i]).key@ == gs[i].0
            &&& acc[i].count == gs[i].1
            &&& acc[i].total == gs[i].2
        }
}

/// Truncated division of a sum of sales by a positive count.
fn div_trunc_i128(a: i128, b: i128) -> (r: i128)
    requires
        b >= 1,
        a > i128::MIN,
    ensures
        r == div_trunc(a as int, b as int),
{
    if a >= 0 {
        ((a as u128) / (b as u128)) as i128
    } else {
        let neg = -a;
        -(((neg as u128) / (b as u128)) as i128)
    }
}

/// Groups `rows` by the chosen dimension in one linear pass and reports each
/// group's count, total and truncated average, in first-occurrence order.
pub fn aggregate_rows(rows: &Vec<DataRow>, dim: GroupDim) -> (r: Vec<AggregateResult>)
    ensures
        agg_matches(r@, groups_of(rows@, dim)),
{
    let ghost gdim = dim;
    let mut acc: Vec<GroupAcc> = Vec::new();
    let mut i: usize = 0;
    while i < rows.len()
        invariant
            i <= rows@.len(),
            acc_matches(acc@, groups_of(rows@.take(i as int), gdim)),
            gdim == dim,
        decreases rows@.len() - i,
    {
        let row = &rows[i];
        let key: &String = match dim {
            GroupDim::Category => &row.category,
            GroupDim::Region => &row.region,
        };
        proof {
            assert(rows@.take(i + 1).drop_last() =~= rows@.take(i as int));
            assert(rows@.take(i + 1).last() == rows@[i as int]);
            lemma_find_group_spec(groups_of(rows@.take(i as int), gdim), key@);
            lemma_groups_bounds(rows@.take(i as int), gdim);
        }
        let mut j: usize = 0;
        let mut found: bool = false;
        while j < acc.len() && !found
            invariant
                j <= acc@.len(),
                acc_matches(acc@, groups_of(rows@.take(i as int), gdim)),
                !found ==> forall|jj: int|
                    0 <= jj < j ==> (#[trigger] acc@[jj]).key@ != key@,
                found ==> j < acc@.len() && acc@[j as int].key@ == key@ && (forall|jj: int|
                    0 <= jj < j ==> (#[trigger] acc@[jj]).key@ != key@),
            decreases acc@.len() - j + (if found { 0int } else { 1int }),
        {
            if acc[j].key == *key {
                found = true;
            } else {
                j = j + 1;
            }
        }
        let ghost prev = groups_of(rows@.take(i as int), gdim);
        if found {
            proof {
                let fg = find_group(prev, key@);
                assert(acc@[j as int].key@ == prev[j as int].0);
                if fg == -1 {
                    assert(prev[j as int].0 != key@);
                    assert(false);
                } else if fg < j {
                    assert(acc@[fg].key@ == prev[fg].0);
                    assert(false);
                } else if fg > j {
                    assert(prev[j as int].0 != key@);
                    assert(false);
                }
                assert(fg == j);
            }
            let c = acc[j].count;
            let tot = acc[j].total;
            let k2 = acc[j].key.clone();
            proof {
                assert(c <= rows@.take(i as int).len());
                assert((c as int + 1) * (i64::MAX as int + 1) <= 0x7fffffffffffffffffffffffffffffff)
                    by (nonlinear_arith)
                    requires 0 <= c as int + 1 <= 0xffffffffffffffff;
                lemma_mul_inequality(c as int, c as int + 1, i64::MAX as int + 1);
            }
            acc[j] = GroupAcc { key: k2, count: c + 1, total: tot + (row.sales as i128) };
        } else {
            proof {
                let fg = find_group(prev, key@);
                if fg != -1 {
                    assert(acc@[fg].key@ == prev[fg].0);
                    assert(false);
                }
            }
            acc.push(GroupAcc { key: key.clone(), count: 1, total: row.sales as i128 });
        }
        i = i + 1;
    }
    proof {
        assert(rows@.take(rows@.len() as int) =~= rows@);
        lemma_groups_bounds(rows@, gdim);
    }
    let ghost gs = groups_of(rows@, gdim);
    let mut out: Vec<AggregateResult> = Vec::new();
    let mut j: usize = 0;
    while j < acc.len()
        invariant
            j <= acc@.len(),
            acc_matches(acc@, gs),
            forall|i2: int|
                0 <= i2 < gs.len() ==> {
                    let g = #[trigger] gs[i2];
                    &&& 1 <= g.1
                    &&& -(g.1 * (i64::MAX as int + 1)) <= g.2 <= g.1 * (i64::MAX as int + 1)
                },
            out@.len() == j,
            forall|i2: int|
                0 <= i2 < j ==> {
                    &&& (#[trigger] out@[i2]).group_key@ == gs[i2].0
                    &&& out@[i2].count == gs[i2].1
                    &&& out@[i2].total == gs[i2].2
                    &&& out@[i2].average == div_trunc(gs[i2].2, gs[i2].1)
                },
        decreases acc@.len() - j,
    {
        let g = &acc[j];
        proof {
            assert((gs[j as int].1) * (i64::MAX as int + 1)
                < 0x80000000000000000000000000000000) by (nonlinear_arith)
                requires 1 <= gs[j as int].1 <= 0xffffffffffffffff;
        }
        let avg = div_trunc_i128(g.total, g.count as i128);
        out.push(
            AggregateResult { group_key: g.key.clone(), count: g.count, total: g.total, average: avg },
        );
        j = j + 1;
    }
    out
}

} // verus!
