//! The row store and its analytics: loading, counting, grouped aggregation,
//! sales filtering, and the region-by-category pivot.

use vstd::prelude::*;
use vstd::arithmetic::mul::lemma_mul_inequality;
use crate::aggregate::{
    agg_matches, aggregate_rows, filter_rows, filtered_min_sales, groups_of, AggregateResult,
    GroupDim,
};
use crate::parse::{parse_rows, parse_rows_text, rows_match, LoadError};
use crate::row::DataRow;

verus! {

/// Index of the first pair in `gs` whose key is `k`, or `-1` when absent.
pub open spec fn find_by_key<V>(gs: Seq<(Seq<char>, V)>, k: Seq<char>) -> int
    decreases gs.len(),
{
    if gs.len() == 0 {
        -1
    } else if gs[0].0 == k {
        0
    } else {
        let t = find_by_key(gs.drop_first(), k);
        if t >= 0 {
            t + 1
        } else {
            -1
        }
    }
}

/// `find_by_key` returns the first index bearing the key, `-1` when no pair
/// bears it.
pub proof fn lemma_find_by_key_spec<V>(gs: Seq<(Seq<char>, V)>, k: Seq<char>)
    ensures
        find_by_key(gs, k) == -1 ==> forall|i: int| 0 <= i < gs.len() ==> (#[trigger] gs[i]).0 != k,
        find_by_key(gs, k) != -1 ==> {
            &&& 0 <= find_by_key(gs, k) < gs.len()
            &&& gs[find_by_key(gs, k)].0 == k
            &&& forall|i: int| 0 <= i < find_by_key(gs, k) ==> (#[trigger] gs[i]).0 != k
        },
    decreases gs.len(),
{
    if gs.len() > 0 && gs[0].0 != k {
        let rest = gs.drop_first();
        lemma_find_by_key_spec(rest, k);
        let t = find_by_key(rest, k);
        if t == -1 {
            assert forall|i: int| 0 <= i < gs.len() implies (#[trigger] gs[i]).0 != k by {
                if i >= 1 {
                    assert(rest[i - 1] == gs[i]);
                }
            }
        } else {
            assert(rest[t] == gs[t + 1]);
            assert forall|i: int| 0 <= i < t + 1 implies (#[trigger] gs[i]).0 != k by {
                if i >= 1 {
                    assert(rest[i - 1] == gs[i]);
                }
            }
        }
    }
}

/// The region-by-category pivot accumulated over `rows`: per region, per
/// category, the summed sales; regions and categories appear in
/// first-occurrence order, and no combination is zero-filled.
pub open spec fn pivot_of(rows: Seq<DataRow>) -> Seq<(Seq<char>, Seq<(Seq<char>, int)>)>
    decreases rows.len(),
{
    if rows.len() == 0 {
        Seq::empty()
    } else {
        let prev = pivot_of(rows.drop_last());
        let r = rows.last();
        let ri = find_by_key(prev, r.region@);
        if ri >= 0 {
            let es = prev[ri].1;
            let ci = find_by_key(es, r.category@);
            if ci >= 0 {
                prev.update(ri, (prev[ri].0, es.update(ci, (es[ci].0, es[ci].1 + r.sales))))
            } else {
                prev.update(ri, (prev[ri].0, es.push((r.category@, r.sales as int))))
            }
        } else {
            prev.push((r.region@, seq![(r.category@, r.sales as int)]))
        }
    }
}

/// Summed sales of the rows of `rows` bearing both `reg` and `cat`.
pub open spec fn pivot_total(rows: Seq<DataRow>, reg: Seq<char>, cat: Seq<char>) -> int
    decreases rows.len(),
{
    if rows.len() == 0 {
        0
    } else {
        pivot_total(rows.drop_last(), reg, cat) + if rows.last().region@ == reg
            && rows.last().category@ == cat {
            rows.last().sales as int
        } else {
            0int
        }
    }
}

proof fn lemma_pivot_total_zero(rows: Seq<DataRow>, reg: Seq<char>, cat: Seq<char>)
    requires
        forall|r: int|
            0 <= r < rows.len() ==> !((#[trigger] rows[r]).region@ == reg && rows[r].category@
                == cat),
    ensures
        pivot_total(rows, reg, cat) == 0,
    decreases rows.len(),
{
    if rows.len() > 0 {
        assert forall|r: int|
            0 <= r < rows.drop_last().len() implies !((#[trigger] rows.drop_last()[r]).region@
            == reg && rows.drop_last()[r].category@ == cat) by {
            assert(rows.drop_last()[r] == rows[r]);
        }
        lemma_pivot_total_zero(rows.drop_last(), reg, cat);
        assert(rows.last() == rows[rows.len() - 1]);
    }
}

/// No two regions of the pivot share a name, and within a region no two
/// entries share a category.
pub proof fn lemma_pivot_distinct(rows: Seq<DataRow>)
    ensures
        forall|i: int, j: int|
            0 <= i < j < pivot_of(rows).len() ==> (#[trigger] pivot_of(rows)[i]).0 != (
            #[trigger] pivot_of(rows)[j]).0,
        forall|i: int, a: int, b: int|
            0 <= i < pivot_of(rows).len() && 0 <= a < b < pivot_of(rows)[i].1.len() ==> (
            #[trigger] pivot_of(rows)[i].1[a]).0 != (#[trigger] pivot_of(rows)[i].1[b]).0,
    decreases rows.len(),
{
    if rows.len() > 0 {
        lemma_pivot_distinct(rows.drop_last());
        let prev = pivot_of(rows.drop_last());
        let curr = pivot_of(rows);
        let r = rows.last();
        lemma_find_by_key_spec(prev, r.region@);
        let ri = find_by_key(prev, r.region@);
        if ri >= 0 {
            lemma_find_by_key_spec(prev[ri].1, r.category@);
        }
        assert forall|i: int, j: int|
            0 <= i < j < curr.len() implies (#[trigger] curr[i]).0 != (#[trigger] curr[j]).0 by {
            if ri >= 0 {
                assert(curr[i].0 == prev[i].0);
                assert(curr[j].0 == prev[j].0);
                assert(prev[i].0 != prev[j].0);
            } else {
                if j < prev.len() {
                    assert(prev[i].0 != prev[j].0);
                } else {
                    assert(curr[j].0 == r.region@);
                    assert(prev[i].0 != r.region@);
                }
            }
        }
        assert forall|i: int, a: int, b: int|
            0 <= i < curr.len() && 0 <= a < b < curr[i].1.len() implies (
        #[trigger] curr[i].1[a]).0 != (#[trigger] curr[i].1[b]).0 by {
            if ri >= 0 {
                let es = prev[ri].1;
                let ci = find_by_key(es, r.category@);
                if i != ri {
                    assert(curr[i] == prev[i]);
                    assert(prev[i].1[a].0 != prev[i].1[b].0);
                } else if ci >= 0 {
                    assert(curr[ri].1[a].0 == es[a].0);
                    assert(curr[ri].1[b].0 == es[b].0);
                    assert(prev[ri].1[a].0 != prev[ri].1[b].0);
                } else {
                    if b < es.len() {
                        assert(prev[ri].1[a].0 != prev[ri].1[b].0);
                    } else {
                        assert(curr[ri].1[b].0 == r.category@);
                        assert(es[a].0 != r.category@);
                    }
                }
            } else {
                if i < prev.len() {
                    assert(curr[i] == prev[i]);
                    assert(prev[i].1[a].0 != prev[i].1[b].0);
                } else {
                    assert(curr[i].1.len() == 1);
                }
            }
        }
    }
}

/// What the pivot states: each entry's total is the summed sales of the rows
/// bearing its region and category, and every row's combination owns an
/// entry. Together with `lemma_pivot_distinct` this pins the pivot down to
/// membership and summation over the input rows.
pub proof fn lemma_pivot_characterise(rows: Seq<DataRow>)
    ensures
        forall|i: int, j: int|
            0 <= i < pivot_of(rows).len() && 0 <= j < (#[trigger] pivot_of(rows)[i]).1.len() ==> (
            #[trigger] pivot_of(rows)[i].1[j]).1 == pivot_total(
                rows,
                pivot_of(rows)[i].0,
                pivot_of(rows)[i].1[j].0,
            ),
        forall|r: int|
            0 <= r < rows.len() ==> exists|i: int, j: int|
                0 <= i < pivot_of(rows).len() && 0 <= j < pivot_of(rows)[i].1.len() && pivot_of(
                    rows,
                )[i].0 == (#[trigger] rows[r]).region@ && pivot_of(rows)[i].1[j].0
                    == rows[r].category@,
    decreases rows.len(),
{
    if rows.len() > 0 {
        lemma_pivot_characterise(rows.drop_last());
        lemma_pivot_distinct(rows.drop_last());
        let prev = pivot_of(rows.drop_last());
        let curr = pivot_of(rows);
        let r = rows.last();
        lemma_find_by_key_spec(prev, r.region@);
        let ri = find_by_key(prev, r.region@);
        if ri >= 0 {
            lemma_find_by_key_spec(prev[ri].1, r.category@);
        }
        assert forall|i: int, j: int|
            0 <= i < curr.len() && 0 <= j < (#[trigger] curr[i]).1.len() implies (
        #[trigger] curr[i].1[j]).1 == pivot_total(rows, curr[i].0, curr[i].1[j].0) by {
            if ri >= 0 {
                let es = prev[ri].1;
                let ci = find_by_key(es, r.category@);
                if i != ri {
                    assert(curr[i] == prev[i]);
                    assert(prev[i].1[j].1 == pivot_total(rows.drop_last(), prev[i].0, prev[i].1[j].0));
                    if i < ri {
                        assert(prev[i].0 != prev[ri].0);
                    } else {
                        assert(prev[ri].0 != prev[i].0);
                    }
                } else if ci >= 0 {
                    if j != ci {
                        assert(curr[i].1[j] == es[j]);
                        assert(prev[ri].1[j].1 == pivot_total(rows.drop_last(), prev[ri].0, prev[ri].1[j].0));
                        if j < ci {
                            assert(es[j].0 != es[ci].0);
                        } else {
                            assert(es[ci].0 != es[j].0);
                        }
                    } else {
                        assert(prev[ri].1[ci].1 == pivot_total(rows.drop_last(), prev[ri].0, prev[ri].1[ci].0));
                    }
                } else {
                    if j < es.len() {
                        assert(curr[i].1[j] == es[j]);
                        assert(prev[ri].1[j].1 == pivot_total(rows.drop_last(), prev[ri].0, prev[ri].1[j].0));
                        assert(es[j].0 != r.category@);
                    } else {
                        // the pushed entry: no earlier row bears this combination
                        assert forall|w: int|
                            0 <= w < rows.drop_last().len() implies !((#[trigger] rows.drop_last()[w]).region@
                            == r.region@ && rows.drop_last()[w].category@ == r.category@) by {
                            if rows.drop_last()[w].region@ == r.region@
                                && rows.drop_last()[w].category@ == r.category@ {
                                let (wi, wj) = choose|wi: int, wj: int|
                                    0 <= wi < prev.len() && 0 <= wj < prev[wi].1.len()
                                        && prev[wi].0 == rows.drop_last()[w].region@
                                        && prev[wi].1[wj].0 == rows.drop_last()[w].category@;
                                if wi < ri {
                                    assert(prev[wi].0 != prev[ri].0);
                                } else if wi > ri {
                                    assert(prev[ri].0 != prev[wi].0);
                                }
                                assert(wi == ri);
                                assert(es[wj].0 != r.category@);
                                assert(false);
                            }
                        }
                        lemma_pivot_total_zero(rows.drop_last(), r.region@, r.category@);
                    }
                }
            } else {
                if i < prev.len() {
                    assert(curr[i] == prev[i]);
                    assert(prev[i].1[j].1 == pivot_total(rows.drop_last(), prev[i].0, prev[i].1[j].0));
                    assert(prev[i].0 != r.region@);
                } else {
                    // the pushed region: no earlier row bears this region
                    assert forall|w: int|
                        0 <= w < rows.drop_last().len() implies !((#[trigger] rows.drop_last()[w]).region@
                        == r.region@ && rows.drop_last()[w].category@ == r.category@) by {
                        if rows.drop_last()[w].region@ == r.region@ {
                            let (wi, wj) = choose|wi: int, wj: int|
                                0 <= wi < prev.len() && 0 <= wj < prev[wi].1.len() && prev[wi].0
                                    == rows.drop_last()[w].region@ && prev[wi].1[wj].0
                                    == rows.drop_last()[w].category@;
                            assert(prev[wi].0 != r.region@);
                            assert(false);
                        }
                    }
                    lemma_pivot_total_zero(rows.drop_last(), r.region@, r.category@);
                    assert(curr[i].1 =~= seq![(r.category@, r.sales as int)]);
                }
            }
        }
        assert forall|w: int| 0 <= w < rows.len() implies exists|i: int, j: int|
            0 <= i < curr.len() && 0 <= j < curr[i].1.len() && curr[i].0 == (
        #[trigger] rows[w]).region@ && curr[i].1[j].0 == rows[w].category@ by {
            if w < rows.len() - 1 {
                assert(rows.drop_last()[w] == rows[w]);
                let (wi, wj) = choose|wi: int, wj: int|
                    0 <= wi < prev.len() && 0 <= wj < prev[wi].1.len() && prev[wi].0
                        == rows.drop_last()[w].region@ && prev[wi].1[wj].0
                        == rows.drop_last()[w].category@;
                if ri >= 0 {
                    let es = prev[ri].1;
                    let ci = find_by_key(es, r.category@);
                    if wi != ri {
                        assert(curr[wi] == prev[wi]);
                        assert(0 <= wi < curr.len() && 0 <= wj < curr[wi].1.len() && curr[wi].0
                            == rows[w].region@ && curr[wi].1[wj].0 == rows[w].category@);
                    } else if ci >= 0 {
                        assert(curr[ri].1[wj].0 == es[wj].0);
                        assert(0 <= wj < curr[ri].1.len() && curr[ri].0 == rows[w].region@
                            && curr[ri].1[wj].0 == rows[w].category@);
                    } else {
                        assert(curr[ri].1[wj].0 == es[wj].0);
                        assert(0 <= wj < curr[ri].1.len() && curr[ri].0 == rows[w].region@
                            && curr[ri].1[wj].0 == rows[w].category@);
                    }
                } else {
                    assert(curr[wi] == prev[wi]);
                    assert(0 <= wi < curr.len() && 0 <= wj < curr[wi].1.len() && curr[wi].0
                        == rows[w].region@ && curr[wi].1[wj].0 == rows[w].category@);
                }
            } else {
                if ri >= 0 {
                    let es = prev[ri].1;
                    let ci = find_by_key(es, r.category@);
                    if ci >= 0 {
                        assert(curr[ri].0 == r.region@ && curr[ri].1[ci].0 == r.category@);
                    } else {
                        assert(curr[ri].0 == r.region@ && curr[ri].1[es.len() as int].0
                            == r.category@);
                    }
                } else {
                    assert(curr[prev.len() as int].0 == r.region@ && curr[prev.len() as int].1[0].0
                        == r.category@);
                }
            }
        }
    }
}

/// One category's summed sales within a region.
pub struct PivotEntry {
    pub category: String,
    pub total: i128,
}

/// One region's category totals.
pub struct PivotRegion {
    pub region: String,
    pub entries: Vec<PivotEntry>,
}

/// The region-by-category matrix.
pub struct PivotTable {
    pub regions: Vec<PivotRegion>,
}

/// `es` carries exactly the category totals `ms`.
pub open spec fn entries_match(es: Seq<PivotEntry>, ms: Seq<(Seq<char>, int)>) -> bool {
    &&& es.len() == ms.len()
    &&& forall|j: int|
        0 <= j < ms.len() ==> (#[trigger] es[j]).category@ == ms[j].0 && es[j].total == ms[j].1
}

/// `rs` carries exactly the pivot `ms`.
pub open spec fn pivot_matches(rs: Seq<PivotRegion>, ms: Seq<(Seq<char>, Seq<(Seq<char>, int)>)>) -> bool {
    &&& rs.len() == ms.len()
    &&& forall|i: int|
        0 <= i < ms.len() ==> (#[trigger] rs[i]).region@ == ms[i].0 && entries_match(
            rs[i].entries@,
            ms[i].1,
        )
}

/// Every pivot total is a sum of at most `rows.len()` sales values.
proof fn lemma_pivot_bounds(rows: Seq<DataRow>)
    ensures
        forall|i: int, j: int|
            0 <= i < pivot_of(rows).len() && 0 <= j < (#[trigger] pivot_of(rows)[i]).1.len() ==> {
                let e = (#[trigger] pivot_of(rows)[i].1[j]);
                -(rows.len() * (i64::MAX as int + 1)) <= e.1 <= rows.len() * (i64::MAX as int + 1)
            },
    decreases rows.len(),
{
    if rows.len() > 0 {
        lemma_pivot_bounds(rows.drop_last());
        let prev = pivot_of(rows.drop_last());
        let r = rows.last();
        let curr = pivot_of(rows);
        let s = i64::MAX as int + 1;
        let n = rows.len() as int;
        let n1 = n - 1;
        assert(n1 * s + s == n * s) by (nonlinear_arith)
            requires n1 == n - 1;
        assert(n1 * s >= 0) by (nonlinear_arith)
            requires n1 >= 0, s > 0;
        lemma_find_by_key_spec(prev, r.region@);
        let ri = find_by_key(prev, r.region@);
        if ri >= 0 {
            lemma_find_by_key_spec(prev[ri].1, r.category@);
        }
        assert forall|i: int, j: int|
            0 <= i < curr.len() && 0 <= j < (#[trigger] curr[i]).1.len() implies -(n * s) <= (
        #[trigger] curr[i].1[j]).1 <= n * s by {
            if ri >= 0 {
                let es = prev[ri].1;
                let ci = find_by_key(es, r.category@);
                if i != ri {
                    assert(curr[i] == prev[i]);
                    assert(-(n1 * s) <= prev[i].1[j].1 <= n1 * s);
                } else if ci >= 0 {
                    if j != ci {
                        assert(curr[i].1[j] == es[j]);
                        assert(-(n1 * s) <= prev[ri].1[j].1 <= n1 * s);
                    } else {
                        assert(-(n1 * s) <= prev[ri].1[ci].1 <= n1 * s);
                    }
                } else {
                    if j < es.len() {
                        assert(-(n1 * s) <= prev[ri].1[j].1 <= n1 * s);
                    }
                }
            } else {
                if i < prev.len() {
                    assert(-(n1 * s) <= prev[i].1[j].1 <= n1 * s);
                }
            }
        }
    }
}

/// The row store: an ordered sequence of rows, replaced wholesale on load.
pub struct DataEngine {
    rows: Vec<DataRow>,
}

impl View for DataEngine {
    type V = Seq<DataRow>;

    closed spec fn view(&self) -> Seq<DataRow> {
        self.rows@
    }
}

impl DataEngine {
    /// A fresh engine with an empty store.
    pub fn new() -> (r: DataEngine)
        ensures
            r@ == Seq::<DataRow>::empty(),
    {
        DataEngine { rows: Vec::new() }
    }

    /// Replaces the store with the rows of `json_data`. Succeeds exactly when
    /// the text follows the ingestion format; on failure the store is left
    /// unchanged.
    pub fn load_data(&mut self, json_data: &str) -> (r: Result<(), LoadError>)
        ensures
            r is Ok <==> parse_rows_text(json_data@) is Some,
            r is Ok ==> rows_match(final(self)@, parse_rows_text(json_data@).unwrap()),
            r is Err ==> final(self)@ == old(self)@,
    {
        match parse_rows(json_data) {
            Ok(rows) => {
                self.rows = rows;
                Ok(())
            },
            Err(e) => Err(e),
        }
    }

    /// Number of rows in the store.
    pub fn row_count(&self) -> (r: usize)
        ensures
            r == self@.len(),
    {
        self.rows.len()
    }

    /// Per-category count, total and truncated average, in first-occurrence
    /// order.
    pub fn aggregate_by_category(&self) -> (r: Vec<AggregateResult>)
        ensures
            agg_matches(r@, groups_of(self@, GroupDim::Category)),
    {
        aggregate_rows(&self.rows, GroupDim::Category)
    }

    /// The rows with `sales >= min_sales`, in their original order; the store
    /// is untouched.
    pub fn filter_by_sales(&self, min_sales: i64) -> (r: Vec<DataRow>)
        ensures
            r@ == filtered_min_sales(self@, min_sales as int),
    {
        filter_rows(&self.rows, min_sales)
    }

    /// The region-by-category pivot of the store: one pass, summing each
    /// row's sales into its region's category total, creating entries on
    /// first use.
    pub fn pivot_region_category(&self) -> (r: PivotTable)
        ensures
            pivot_matches(r.regions@, pivot_of(self@)),
    {
        let rows = &self.rows;
        let mut pv: Vec<PivotRegion> = Vec::new();
        let mut i: usize = 0;
        while i < rows.len()
            invariant
                i <= rows@.len(),
                pivot_matches(pv@, pivot_of(rows@.take(i as int))),
                forall|a: int, b: int|
                    0 <= a < pv@.len() && 0 <= b < (#[trigger] pv@[a]).entries@.len() ==> {
                        let e = (#[trigger] pv@[a].entries@[b]);
                        -((i as int) * (i64::MAX as int + 1)) <= e.total <= (i as int) * (
                        i64::MAX as int + 1)
                    },
            decreases rows@.len() - i,
        {
            let row = &rows[i];
            let ghost prev = pivot_of(rows@.take(i as int));
            proof {
                assert(rows@.take(i + 1).drop_last() =~= rows@.take(i as int));
                assert(rows@.take(i + 1).last() == rows@[i as int]);
                lemma_find_by_key_spec(prev, row.region@);
            }
            let mut ri: usize = 0;
            let mut rfound: bool = false;
            while ri < pv.len() && !rfound
                invariant
                    ri <= pv@.len(),
                    pivot_matches(pv@, prev),
                    !rfound ==> forall|q: int| 0 <= q < ri ==> (#[trigger] pv@[q]).region@ != row.region@,
                    rfound ==> ri < pv@.len() && pv@[ri as int].region@ == row.region@ && (
                    forall|q: int| 0 <= q < ri ==> (#[trigger] pv@[q]).region@ != row.region@),
                decreases pv@.len() - ri + (if rfound { 0int } else { 1int }),
            {
                if pv[ri].region == row.region {
                    rfound = true;
                } else {
                    ri = ri + 1;
                }
            }
            if rfound {
                proof {
                    let fr = find_by_key(prev, row.region@);
                    assert(pv@[ri as int].region@ == prev[ri as int].0);
                    if fr == -1 {
                        assert(prev[ri as int].0 != row.region@);
                        assert(false);
                    } else if fr < ri {
                        assert(pv@[fr].region@ == prev[fr].0);
                        assert(false);
                    } else if fr > ri {
                        assert(prev[ri as int].0 != row.region@);
                        assert(false);
                    }
                    assert(fr == ri);
                    lemma_find_by_key_spec(prev[ri as int].1, row.category@);
                }
                let ghost es = prev[ri as int].1;
                let mut ci: usize = 0;
                let mut cfound: bool = false;
                while ci < pv[ri].entries.len() && !cfound
                    invariant
                        ri < pv@.len(),
                        ci <= pv@[ri as int].entries@.len(),
                        pivot_matches(pv@, prev),
                        es == prev[ri as int].1,
                        !cfound ==> forall|q: int|
                            0 <= q < ci ==> (#[trigger] pv@[ri as int].entries@[q]).category@
                                != row.category@,
                        cfound ==> ci < pv@[ri as int].entries@.len()
                            && pv@[ri as int].entries@[ci as int].category@ == row.category@ && (
                        forall|q: int|
                            0 <= q < ci ==> (#[trigger] pv@[ri as int].entries@[q]).category@
                                != row.category@),
                    decreases pv@[ri as int].entries@.len() - ci + (if cfound { 0int } else { 1int }),
                {
                    if pv[ri].entries[ci].category == row.category {
                        cfound = true;
                    } else {
                        ci = ci + 1;
                    }
                }
                proof {
                    let fc = find_by_key(es, row.category@);
                    assert(entries_match(pv@[ri as int].entries@, es));
                    if cfound {
                        assert(pv@[ri as int].entries@[ci as int].category@ == es[ci as int].0);
                        if fc == -1 {
                            assert(es[ci as int].0 != row.category@);
                            assert(false);
                        } else if fc < ci {
                            assert(pv@[ri as int].entries@[fc].category@ == es[fc].0);
                            assert(false);
                        } else if fc > ci {
                            assert(es[ci as int].0 != row.category@);
                            assert(false);
                        }
                        assert(fc == ci);
                    } else {
                        if fc != -1 {
                            assert(pv@[ri as int].entries@[fc].category@ == es[fc].0);
                            assert(false);
                        }
                    }
                }
                if cfound {
                    let tot = pv[ri].entries[ci].total;
                    let cat2 = pv[ri].entries[ci].category.clone();
                    proof {
                        assert((i as int) * (i64::MAX as int + 1) + (i64::MAX as int + 1) == (i
                            as int + 1) * (i64::MAX as int + 1)) by (nonlinear_arith);
                        assert((i as int + 1) * (i64::MAX as int + 1)
                            < 0x80000000000000000000000000000000) by (nonlinear_arith)
                            requires 0 <= i as int + 1 <= 0xffffffffffffffff;
                    }
                    pv[ri].entries[ci] = PivotEntry { category: cat2, total: tot + (row.sales as i128) };
                } else {
                    pv[ri].entries.push(
                        PivotEntry { category: row.category.clone(), total: row.sales as i128 },
                    );
                }
            } else {
                proof {
                    let fr = find_by_key(prev, row.region@);
                    if fr != -1 {
                        assert(pv@[fr].region@ == prev[fr].0);
                        assert(false);
                    }
                }
                let mut entries: Vec<PivotEntry> = Vec::new();
                entries.push(PivotEntry { category: row.category.clone(), total: row.sales as i128 });
                pv.push(PivotRegion { region: row.region.clone(), entries });
            }
            i = i + 1;
        }
        proof {
            assert(rows@.take(rows@.len() as int) =~= rows@);
        }
        PivotTable { regions: pv }
    }
}

} // verus!
