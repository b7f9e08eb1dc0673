use analytics_engine::query::{QueryEngine, QueryValue};

const ROWS: &str = r#"[
    {"id": 1, "category": "A", "sales": 10, "region": "North"},
    {"id": 2, "category": "A", "sales": 20, "region": "South"},
    {"id": 3, "category": "B", "sales": 5, "region": "North"}
]"#;

fn loaded() -> QueryEngine {
    let mut e = QueryEngine::new();
    e.load_data(ROWS).expect("well-formed rows");
    e
}

#[test]
fn execute_filter_intent() {
    let e = loaded();
    let r = e.execute_query("SELECT * WHERE sales > 10");
    assert_eq!(r.rows_scanned, 3);
    assert_eq!(r.rows.len(), 2);
    match &r.rows[0] {
        QueryValue::Row(row) => {
            assert_eq!(row.id, 1);
            assert_eq!(row.sales, 10);
        }
        _ => panic!("expected a row"),
    }
    match &r.rows[1] {
        QueryValue::Row(row) => {
            assert_eq!(row.id, 2);
            assert_eq!(row.sales, 20);
        }
        _ => panic!("expected a row"),
    }
}

#[test]
fn execute_is_case_insensitive() {
    let e = loaded();
    let r = e.execute_query("select * WHERE SALES > 15");
    assert_eq!(r.rows.len(), 1);
    match &r.rows[0] {
        QueryValue::Row(row) => assert_eq!(row.id, 2),
        _ => panic!("expected a row"),
    }
}

#[test]
fn execute_unparseable_threshold_degrades_to_zero() {
    let e = loaded();
    let r = e.execute_query("where sales > lots");
    // threshold 0 keeps every row of the sample
    assert_eq!(r.rows.len(), 3);
    let r2 = e.execute_query("where sales >");
    assert_eq!(r2.rows.len(), 3);
}

#[test]
fn execute_negative_threshold() {
    let e = loaded();
    let r = e.execute_query("where sales > -5");
    assert_eq!(r.rows.len(), 3);
    let r2 = e.execute_query("where sales > 21");
    assert_eq!(r2.rows.len(), 0);
    assert_eq!(r2.rows_scanned, 3);
}

#[test]
fn execute_fractional_threshold_degrades_to_zero() {
    let e = loaded();
    // thresholds are integer tokens; anything else degrades to 0
    let r = e.execute_query("where sales > 10.5");
    assert_eq!(r.rows.len(), 3);
}

#[test]
fn execute_group_by_category_intent() {
    let e = loaded();
    let r = e.execute_query("select * group by category");
    assert_eq!(r.rows_scanned, 3);
    assert_eq!(r.rows.len(), 2);
    let mut seen_a = false;
    let mut seen_b = false;
    for v in &r.rows {
        match v {
            QueryValue::Group(g) => {
                if g.group_key == "A" {
                    assert_eq!(g.count, 2);
                    assert_eq!(g.total, 30);
                    assert_eq!(g.average, 15);
                    seen_a = true;
                } else if g.group_key == "B" {
                    assert_eq!(g.count, 1);
                    assert_eq!(g.total, 5);
                    assert_eq!(g.average, 5);
                    seen_b = true;
                } else {
                    panic!("unexpected group");
                }
            }
            _ => panic!("expected a group"),
        }
    }
    assert!(seen_a && seen_b);
}

#[test]
fn execute_group_by_region_intent() {
    let e = loaded();
    let r = e.execute_query("select * group by region");
    assert_eq!(r.rows.len(), 2);
}

#[test]
fn execute_scan_all_by_default() {
    let e = loaded();
    let r = e.execute_query("SELECT *");
    assert_eq!(r.rows_scanned, 3);
    assert_eq!(r.rows.len(), 3);
    match &r.rows[2] {
        QueryValue::Row(row) => assert_eq!(row.id, 3),
        _ => panic!("expected a row"),
    }
}

#[test]
fn filter_intent_wins_over_group_by() {
    let e = loaded();
    let r = e.execute_query("where sales > 12 group by category");
    // priority order: the filter intent wins, so rows come back, not groups
    assert_eq!(r.rows.len(), 1);
    assert!(matches!(r.rows[0], QueryValue::Row(_)));
}

#[test]
fn explain_emits_fixed_steps_in_order() {
    let e = loaded();
    let steps = e.explain_query("select x group by category order by x");
    assert_eq!(steps.len(), 4);
    assert_eq!(steps[0].operation, "Parse");
    assert_eq!(steps[0].cost_milli, 100);
    assert_eq!(steps[0].rows_estimated, 0);
    assert_eq!(steps[1].operation, "Validate Schema");
    assert_eq!(steps[1].cost_milli, 100);
    assert_eq!(steps[1].rows_estimated, 0);
    assert_eq!(steps[2].operation, "Hash Aggregate");
    assert_eq!(steps[2].cost_milli, 6);
    assert_eq!(steps[2].rows_estimated, 10);
    assert_eq!(steps[3].operation, "Sort");
    assert_eq!(steps[3].cost_milli, 9);
    assert_eq!(steps[3].rows_estimated, 10);
}

#[test]
fn explain_adds_filter_scan_for_where() {
    let e = loaded();
    let steps = e.explain_query("select * WHERE sales > 1");
    assert_eq!(steps.len(), 3);
    assert_eq!(steps[2].operation, "Filter Scan");
    assert_eq!(steps[2].cost_milli, 3);
    assert_eq!(steps[2].rows_estimated, 1);
}

#[test]
fn explain_without_clauses_is_two_steps() {
    let e = loaded();
    let steps = e.explain_query("select everything");
    assert_eq!(steps.len(), 2);
}

#[test]
fn query_load_malformed_leaves_store() {
    let mut e = QueryEngine::new();
    e.load_data(ROWS).expect("well-formed rows");
    assert!(e.load_data("{ not an array }").is_err());
    let r = e.execute_query("select *");
    assert_eq!(r.rows_scanned, 3);
}
