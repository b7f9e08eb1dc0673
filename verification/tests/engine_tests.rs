use analytics_engine::data_engine::DataEngine;
use analytics_engine::parse::LoadError;

const ROWS: &str = r#"[
    {"id": 1, "category": "A", "sales": 10, "region": "North"},
    {"id": 2, "category": "A", "sales": 20, "region": "South"},
    {"id": 3, "category": "B", "sales": 5, "region": "North"}
]"#;

#[test]
fn load_replaces_store() {
    let mut e = DataEngine::new();
    assert_eq!(e.row_count(), 0);
    e.load_data(ROWS).expect("well-formed rows");
    assert_eq!(e.row_count(), 3);
    e.load_data(r#"[{"id": 9, "category": "C", "sales": 1, "region": "East"}]"#)
        .expect("well-formed rows");
    assert_eq!(e.row_count(), 1);
    e.load_data("[]").expect("empty array is well-formed");
    assert_eq!(e.row_count(), 0);
}

#[test]
fn malformed_load_leaves_store_unchanged() {
    let mut e = DataEngine::new();
    e.load_data(ROWS).expect("well-formed rows");
    assert_eq!(e.row_count(), 3);
    assert_eq!(e.load_data("not rows at all"), Err(LoadError::MalformedInput));
    assert_eq!(e.row_count(), 3);
    // missing fields
    assert_eq!(e.load_data(r#"[{"id": 1}]"#), Err(LoadError::MalformedInput));
    // mistyped field
    assert_eq!(
        e.load_data(r#"[{"id": "x", "category": "A", "sales": 1, "region": "N"}]"#),
        Err(LoadError::MalformedInput)
    );
    // trailing garbage
    assert_eq!(e.load_data("[] extra"), Err(LoadError::MalformedInput));
    assert_eq!(e.row_count(), 3);
}

#[test]
fn aggregate_by_category_counts_and_averages() {
    let mut e = DataEngine::new();
    e.load_data(ROWS).expect("well-formed rows");
    let groups = e.aggregate_by_category();
    assert_eq!(groups.len(), 2);
    let a = groups.iter().find(|g| g.group_key == "A").expect("group A");
    assert_eq!(a.count, 2);
    assert_eq!(a.total, 30);
    assert_eq!(a.average, 15);
    let b = groups.iter().find(|g| g.group_key == "B").expect("group B");
    assert_eq!(b.count, 1);
    assert_eq!(b.total, 5);
    assert_eq!(b.average, 5);
}

#[test]
fn averages_truncate_toward_zero() {
    let mut e = DataEngine::new();
    e.load_data(r#"[{"id":1,"category":"A","sales":-5,"region":"N"},{"id":2,"category":"A","sales":0,"region":"N"}]"#)
        .expect("well-formed rows");
    let groups = e.aggregate_by_category();
    assert_eq!(groups.len(), 1);
    assert_eq!(groups[0].total, -5);
    assert_eq!(groups[0].average, -2);
}

#[test]
fn filter_keeps_rows_reaching_threshold() {
    let mut e = DataEngine::new();
    e.load_data(ROWS).expect("well-formed rows");
    let kept = e.filter_by_sales(15);
    assert_eq!(kept.len(), 1);
    assert_eq!(kept[0].id, 2);
    assert_eq!(kept[0].category, "A");
    assert_eq!(kept[0].sales, 20);
    // the store itself is untouched
    assert_eq!(e.row_count(), 3);
    // threshold met exactly is kept
    let kept10 = e.filter_by_sales(10);
    assert_eq!(kept10.len(), 2);
    assert_eq!(kept10[0].id, 1);
    assert_eq!(kept10[1].id, 2);
}

#[test]
fn pivot_sums_per_region_and_category() {
    let mut e = DataEngine::new();
    e.load_data(ROWS).expect("well-formed rows");
    let pivot = e.pivot_region_category();
    assert_eq!(pivot.regions.len(), 2);
    let north = pivot
        .regions
        .iter()
        .find(|r| r.region == "North")
        .expect("region North");
    assert_eq!(north.entries.len(), 2);
    let north_a = north.entries.iter().find(|c| c.category == "A").expect("A");
    assert_eq!(north_a.total, 10);
    let north_b = north.entries.iter().find(|c| c.category == "B").expect("B");
    assert_eq!(north_b.total, 5);
    let south = pivot
        .regions
        .iter()
        .find(|r| r.region == "South")
        .expect("region South");
    assert_eq!(south.entries.len(), 1);
    assert_eq!(south.entries[0].category, "A");
    assert_eq!(south.entries[0].total, 20);
}

#[test]
fn pivot_accumulates_repeated_combinations() {
    let mut e = DataEngine::new();
    e.load_data(
        r#"[{"id":1,"category":"A","sales":7,"region":"N"},{"id":2,"category":"A","sales":8,"region":"N"}]"#,
    )
    .expect("well-formed rows");
    let pivot = e.pivot_region_category();
    assert_eq!(pivot.regions.len(), 1);
    assert_eq!(pivot.regions[0].entries.len(), 1);
    assert_eq!(pivot.regions[0].entries[0].total, 15);
}

#[test]
fn ingestion_accepts_negative_sales_and_spacing() {
    let mut e = DataEngine::new();
    e.load_data("[ { \"id\" : 7 , \"category\" : \"x y\" , \"sales\" : -3 , \"region\" : \"\" } ]")
        .expect("well-formed rows");
    let rows = e.filter_by_sales(-100);
    assert_eq!(rows.len(), 1);
    assert_eq!(rows[0].id, 7);
    assert_eq!(rows[0].category, "x y");
    assert_eq!(rows[0].sales, -3);
    assert_eq!(rows[0].region, "");
}
