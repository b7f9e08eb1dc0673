//! The query interpreter and plan estimator: a fixed-priority substring
//! classifier over the lowercased query text, a dispatcher that executes the
//! classified intent and reports wall-clock timing, and an advisory plan
//! builder with synthetic costs.

use vstd::prelude::*;
use crate::aggregate::{
    agg_matches, aggregate_rows, div_trunc, filter_rows, filtered_min_sales, groups_of,
    AggregateResult, GroupDim,
};
use crate::parse::{parse_rows, parse_rows_text, parse_uint_at, rows_match, ws_end, LoadError};
use crate::row::DataRow;
use crate::text::{
    chars_of, contains_pat, contains_seq, find_first, lower_chars, lower_seq, match_at,
};

verus! {

/// The classified meaning of a query string.
pub enum QueryIntent {
    /// Retain rows whose sales reach the threshold.
    Filter(i64),
    /// Aggregate per category.
    GroupByCategory,
    /// Aggregate per region.
    GroupByRegion,
    /// Return every row unchanged.
    ScanAll,
}

/// First index at or after `i` where `pat` occurs in `s`, or `-1`.
pub open spec fn first_match_from(s: Seq<char>, pat: Seq<char>, i: int) -> int
    decreases s.len() - i,
{
    if !(0 <= i && i + pat.len() <= s.len()) {
        -1
    } else if match_at(s, i, pat) {
        i
    } else {
        first_match_from(s, pat, i + 1)
    }
}

/// First index at or after `i` holding whitespace, or the length of `s`: the
/// end of the token starting at `i`.
pub open spec fn token_end(s: Seq<char>, i: int) -> int
    decreases s.len() - i,
{
    if 0 <= i < s.len() && !crate::parse::is_ws(s[i]) {
        token_end(s, i + 1)
    } else {
        i
    }
}

/// Numeric value of the token `s[a..b)`: its decimal value when the token is
/// entirely an optionally negated run of one to eighteen digits, `0`
/// otherwise (an absent or unparseable token degrades to zero).
pub open spec fn token_value(s: Seq<char>, a: int, b: int) -> int {
    if a >= b {
        0
    } else if s[a] == '-' {
        match parse_uint_at(s, a + 1) {
            Some((v, e)) => if e == b {
                -v
            } else {
                0
            },
            None => 0,
        }
    } else {
        match parse_uint_at(s, a) {
            Some((v, e)) => if e == b {
                v
            } else {
                0
            },
            None => 0,
        }
    }
}

/// Value of the first whitespace-delimited token after the first occurrence
/// of `pat` in `s`; meaningful only when `pat` occurs.
pub open spec fn token_number_after(s: Seq<char>, pat: Seq<char>) -> int {
    let m = first_match_from(s, pat, 0);
    let a = ws_end(s, m + pat.len());
    token_value(s, a, token_end(s, a))
}

/// The fixed-priority classification of a query: a `where sales >` filter
/// wins, then `group by category`, then `group by region`, else a full scan.
/// All matching is over the ASCII-lowercased text.
pub open spec fn intent_of(q: Seq<char>) -> QueryIntent {
    let low = lower_seq(q);
    if contains_seq(low, "where sales >"@) {
        QueryIntent::Filter(token_number_after(low, "where sales >"@) as i64)
    } else if contains_seq(low, "group by category"@) {
        QueryIntent::GroupByCategory
    } else if contains_seq(low, "group by region"@) {
        QueryIntent::GroupByRegion
    } else {
        QueryIntent::ScanAll
    }
}

proof fn lemma_first_match_from(s: Seq<char>, pat: Seq<char>, i: int, idx: int)
    requires
        0 <= i <= idx,
        match_at(s, idx, pat),
        forall|j: int| i <= j < idx ==> !match_at(s, j, pat),
    ensures
        first_match_from(s, pat, i) == idx,
    decreases idx - i,
{
    if i < idx {
        lemma_first_match_from(s, pat, i + 1, idx);
    }
}

/// One row-like value of a query result: a row, or one group's summary.
pub enum QueryValue {
    Row(DataRow),
    Group(AggregateResult),
}

/// Rows wrapped as query values.
pub open spec fn wrap_rows(rs: Seq<DataRow>) -> Seq<QueryValue> {
    rs.map_values(|r: DataRow| QueryValue::Row(r))
}

/// `vs` reports exactly the groups `gs`, wrapped as query values.
pub open spec fn wrapped_groups_match(vs: Seq<QueryValue>, gs: Seq<(Seq<char>, int, int)>) -> bool {
    &&& vs.len() == gs.len()
    &&& forall|i: int|
        0 <= i < gs.len() ==> {
            &&& (#[trigger] vs[i]) matches QueryValue::Group(g)
            &&& vs[i] matches QueryValue::Group(g) ==> {
                &&& g.group_key@ == gs[i].0
                &&& g.count == gs[i].1
                &&& g.total == gs[i].2
                &&& g.average == div_trunc(gs[i].2, gs[i].1)
            }
        }
}

/// The outcome of one query: the produced values, the wall-clock time the
/// dispatch took (about which nothing further is assumed), and the number of
/// rows the engine looked at — always the full store size, whatever the
/// intent.
pub struct QueryResult {
    pub rows: Vec<QueryValue>,
    pub execution_time_ms: u64,
    pub rows_scanned: usize,
}

/// One advisory, never-executed plan step. Costs are synthetic and carried in
/// thousandths, so a cost of `100` stands for a tenth of a unit.
pub struct QueryPlanStep {
    pub operation: String,
    pub cost_milli: u128,
    pub rows_estimated: usize,
}

/// Milliseconds since the Unix epoch, or `None` when the clock reads earlier
/// than the epoch.
/// Relies on std::time::SystemTime::now, duration_since and as_millis; the
/// value depends on the wall clock, so nothing is assumed about it.
#[verifier::external_body]
fn now_millis() -> Option<u64> {
    match std::time::SystemTime::now().duration_since(std::time::UNIX_EPOCH) {
        Ok(d) => Some(d.as_millis() as u64),
        Err(_) => None,
    }
}

/// The query engine: a row store with an interpreter and a plan estimator
/// over it.
pub struct QueryEngine {
    rows: Vec<DataRow>,
}

impl View for QueryEngine {
    type V = Seq<DataRow>;

    closed spec fn view(&self) -> Seq<DataRow> {
        self.rows@
    }
}

impl QueryEngine {
    /// A fresh engine with an empty store.
    pub fn new() -> (r: QueryEngine)
        ensures
            r@ == Seq::<DataRow>::empty(),
    {
        QueryEngine { rows: Vec::new() }
    }

    /// Replaces the store with the rows of `json_data`. Succeeds exactly when
    /// the text follows the ingestion format; on failure the store is left
    /// unchanged.
    pub fn load_data(&mut self, json_data: &str) -> (r: Result<(), LoadError>)
        ensures
            r is Ok <==> parse_rows_text(json_data@) is Some,
            r is Ok ==> rows_match(final(self)@, parse_rows_text(json_data@).unwrap()),
            r is Err ==> final(self)@ == old(self)@,
    {
        match parse_rows(json_data) {
            Ok(rows) => {
                self.rows = rows;
                Ok(())
            },
            Err(e) => Err(e),
        }
    }

    /// Value of the first whitespace-delimited token after the first
    /// occurrence of `pat` in the lowercased query `q_low`; `0` when the
    /// token is absent or not a plain decimal number.
    fn extract_number_from_query(&self, q_low: &Vec<char>, pat: &Vec<char>) -> (r: i64)
        requires
            contains_seq(q_low@, pat@),
        ensures
            r == token_number_after(q_low@, pat@),
    {
        let idx = match find_first(q_low, pat) {
            Some(idx) => idx,
            None => {
                proof {
                    let w = choose|w: int| match_at(q_low@, w, pat@);
                    assert(!match_at(q_low@, w, pat@));
                    assert(false);
                }
                0
            },
        };
        let n = q_low.len();
        proof {
            lemma_first_match_from(q_low@, pat@, 0, idx as int);
            assert(idx + pat@.len() <= n);
        }
        let after = idx + pat.len();
        let tstart = crate::parse::scan_ws(q_low, after);
        let mut tend = tstart;
        while tend < q_low.len() && !(q_low[tend] == ' ' || q_low[tend] == '\t' || q_low[tend]
            == '\n' || q_low[tend] == '\r')
            invariant
                tstart <= tend <= q_low@.len(),
                token_end(q_low@, tstart as int) == token_end(q_low@, tend as int),
            decreases q_low@.len() - tend,
        {
            tend = tend + 1;
        }
        if tstart == tend {
            return 0;
        }
        if q_low[tstart] == '-' {
            match crate::parse::read_uint(q_low, tstart + 1) {
                Some((v, e)) => if e == tend {
                    -v
                } else {
                    0
                },
                None => 0,
            }
        } else {
            match crate::parse::read_uint(q_low, tstart) {
                Some((v, e)) => if e == tend {
                    v
                } else {
                    0
                },
                None => 0,
            }
        }
    }

    /// Per-category groups of the store, wrapped for a query result.
    fn aggregate_by_category(&self) -> (r: Vec<AggregateResult>)
        ensures
            agg_matches(r@, groups_of(self@, GroupDim::Category)),
    {
        aggregate_rows(&self.rows, GroupDim::Category)
    }

    /// Per-region groups of the store, wrapped for a query result.
    fn aggregate_by_region(&self) -> (r: Vec<AggregateResult>)
        ensures
            agg_matches(r@, groups_of(self@, GroupDim::Region)),
    {
        aggregate_rows(&self.rows, GroupDim::Region)
    }

    /// Classifies the query, executes the classified intent over the current
    /// store, and reports the produced values together with the full store
    /// size as `rows_scanned`. A filter intent retains the rows whose sales
    /// reach the extracted threshold; an absent or unparseable threshold
    /// degrades to `0`.
    pub fn execute_query(&self, query: &str) -> (r: QueryResult)
        ensures
            r.rows_scanned == self@.len(),
            intent_of(query@) matches QueryIntent::Filter(t) ==> r.rows@ == wrap_rows(
                filtered_min_sales(self@, t as int),
            ),
            intent_of(query@) is GroupByCategory ==> wrapped_groups_match(
                r.rows@,
                groups_of(self@, GroupDim::Category),
            ),
            intent_of(query@) is GroupByRegion ==> wrapped_groups_match(
                r.rows@,
                groups_of(self@, GroupDim::Region),
            ),
            intent_of(query@) is ScanAll ==> r.rows@ == wrap_rows(self@),
    {
        let q_chars = chars_of(query);
        let low = lower_chars(&q_chars);
        let start = now_millis();
        let pat_filter = chars_of("where sales >");
        let pat_cat = chars_of("group by category");
        let pat_reg = chars_of("group by region");
        let values: Vec<QueryValue> = if contains_pat(&low, &pat_filter) {
            let threshold = self.extract_number_from_query(&low, &pat_filter);
            let kept = filter_rows(&self.rows, threshold);
            wrap_row_vec(kept)
        } else if contains_pat(&low, &pat_cat) {
            wrap_group_vec(self.aggregate_by_category())
        } else if contains_pat(&low, &pat_reg) {
            wrap_group_vec(self.aggregate_by_region())
        } else {
            let mut all: Vec<DataRow> = Vec::new();
            let mut i: usize = 0;
            while i < self.rows.len()
                invariant
                    i <= self@.len(),
                    all@ == self@.subrange(0, i as int),
                decreases self@.len() - i,
            {
                all.push(self.rows[i].duplicate());
                proof {
                    assert(all@ =~= self@.subrange(0, i + 1));
                }
                i = i + 1;
            }
            proof {
                assert(all@ =~= self@);
            }
            wrap_row_vec(all)
        };
        let end = now_millis();
        let elapsed: u64 = match (start, end) {
            (Some(s0), Some(e0)) => if e0 >= s0 {
                e0 - s0
            } else {
                0
            },
            _ => 0,
        };
        QueryResult { rows: values, execution_time_ms: elapsed, rows_scanned: self.rows.len() }
    }

    /// Builds the advisory plan: the fixed `Parse` and `Validate Schema`
    /// steps, then — on independent substring tests over the lowercased text
    /// — a `Filter Scan` for `where`, a `Hash Aggregate` for `group by`, and
    /// a `Sort` for `order by`, with synthetic costs in thousandths and
    /// synthetic row estimates.
    pub fn explain_query(&self, query: &str) -> (r: Vec<QueryPlanStep>)
        ensures
            ({
                let low = lower_seq(query@);
                let n = self@.len() as int;
                let w: int = if contains_seq(low, "where"@) { 1 } else { 0 };
                let g: int = if contains_seq(low, "group by"@) { 1 } else { 0 };
                let o: int = if contains_seq(low, "order by"@) { 1 } else { 0 };
                &&& r@.len() == 2 + w + g + o
                &&& r@[0].operation@ == "Parse"@ && r@[0].cost_milli == 100 && r@[0].rows_estimated == 0
                &&& r@[1].operation@ == "Validate Schema"@ && r@[1].cost_milli == 100
                    && r@[1].rows_estimated == 0
                &&& w == 1 ==> r@[2].operation@ == "Filter Scan"@ && r@[2].cost_milli == n
                    && r@[2].rows_estimated == n / 2
                &&& g == 1 ==> r@[2 + w].operation@ == "Hash Aggregate"@ && r@[2 + w].cost_milli == 2
                    * n && r@[2 + w].rows_estimated == 10
                &&& o == 1 ==> r@[2 + w + g].operation@ == "Sort"@ && r@[2 + w + g].cost_milli == 3
                    * n && r@[2 + w + g].rows_estimated == 10
            }),
    {
        let q_chars = chars_of(query);
        let low = lower_chars(&q_chars);
        let n = self.rows.len();
        let mut steps: Vec<QueryPlanStep> = Vec::new();
        steps.push(
            QueryPlanStep { operation: "Parse".to_owned(), cost_milli: 100, rows_estimated: 0 },
        );
        steps.push(
            QueryPlanStep {
                operation: "Validate Schema".to_owned(),
                cost_milli: 100,
                rows_estimated: 0,
            },
        );
        let pat_where = chars_of("where");
        let pat_group = chars_of("group by");
        let pat_order = chars_of("order by");
        if contains_pat(&low, &pat_where) {
            steps.push(
                QueryPlanStep {
                    operation: "Filter Scan".to_owned(),
                    cost_milli: n as u128,
                    rows_estimated: n / 2,
                },
            );
        }
        if contains_pat(&low, &pat_group) {
            steps.push(
                QueryPlanStep {
                    operation: "Hash Aggregate".to_owned(),
                    cost_milli: 2 * (n as u128),
                    rows_estimated: 10,
                },
            );
        }
        if contains_pat(&low, &pat_order) {
            steps.push(
                QueryPlanStep {
                    operation: "Sort".to_owned(),
                    cost_milli: 3 * (n as u128),
                    rows_estimated: 10,
                },
            );
        }
        steps
    }
}

/// Rows wrapped as query values, consuming the vector.
fn wrap_row_vec(rows: Vec<DataRow>) -> (r: Vec<QueryValue>)
    ensures
        r@ == wrap_rows(rows@),
{
    let rest = rows;
    let mut taken: Vec<QueryValue> = Vec::new();
    let len = rest.len();
    let mut k: usize = 0;
    while k < len
        invariant
            k <= len == rest@.len(),
            taken@.len() == k,
            forall|j: int| 0 <= j < k ==> #[trigger] taken@[j] == QueryValue::Row(rest@[j]),
        decreases len - k,
    {
        taken.push(QueryValue::Row(rest[k].duplicate()));
        k = k + 1;
    }
    proof {
        assert(taken@ =~= wrap_rows(rest@));
    }
    taken
}

/// Group summaries wrapped as query values, consuming the vector.
fn wrap_group_vec(gs: Vec<AggregateResult>) -> (r: Vec<QueryValue>)
    ensures
        r@.len() == gs@.len(),
        forall|j: int| 0 <= j < gs@.len() ==> #[trigger] r@[j] == QueryValue::Group(gs@[j]),
{
    let mut out: Vec<QueryValue> = Vec::new();
    let rest = gs;
    let len = rest.len();
    let mut k: usize = 0;
    while k < len
        invariant
            k <= len == rest@.len(),
            out@.len() == k,
            forall|j: int| 0 <= j < k ==> #[trigger] out@[j] == QueryValue::Group(rest@[j]),
        decreases len - k,
    {
        let g = &rest[k];
        out.push(
            QueryValue::Group(
                AggregateResult {
                    group_key: g.group_key.clone(),
                    count: g.count,
                    total: g.total,
                    average: g.average,
                },
            ),
        );
        k = k + 1;
    }
    out
}

} // verus!
