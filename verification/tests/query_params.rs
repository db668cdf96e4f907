use indexer::queries::{all_projects_query, Params, QueryPiece, Sort};
use indexer::sizes::parse_size_ranges;

fn rendered(pieces: &[QueryPiece]) -> String {
    let mut s = String::new();
    for p in pieces {
        match p {
            QueryPiece::Sql(f) => s.push_str(f),
            QueryPiece::Uint(v) => s.push_str(&format!("<uint:{v}>")),
            QueryPiece::Text(t) => s.push_str(&format!("<text:{t}>")),
            QueryPiece::TextList(l) => s.push_str(&format!("<list:{}>", l.join("|"))),
        }
    }
    s
}

fn ranges(s: &str) -> Option<Vec<(u32, u32)>> {
    parse_size_ranges(&s.as_bytes().to_vec())
}

#[test]
fn size_ranges_basic() {
    assert_eq!(ranges("1-5,10-20"), Some(vec![(1, 5), (10, 20)]));
}

#[test]
fn size_ranges_empty_is_no_filter() {
    assert_eq!(ranges(""), None);
}

#[test]
fn size_ranges_single_number_is_both_ends() {
    assert_eq!(ranges("5"), Some(vec![(5, 5)]));
}

#[test]
fn size_ranges_takes_first_and_last_part() {
    assert_eq!(ranges("1-2-3"), Some(vec![(1, 3)]));
}

#[test]
fn size_ranges_skips_malformed_segments() {
    assert_eq!(ranges("bad"), Some(vec![]));
    assert_eq!(ranges("1-5,bad,7"), Some(vec![(1, 5), (7, 7)]));
    assert_eq!(ranges("-"), Some(vec![]));
    assert_eq!(ranges("3-"), Some(vec![]));
}

#[test]
fn size_ranges_skips_inverted_ranges() {
    assert_eq!(ranges("9-1"), Some(vec![]));
    assert_eq!(ranges("9-1,2-4"), Some(vec![(2, 4)]));
}

#[test]
fn size_ranges_accepts_leading_plus_and_rejects_overflow() {
    assert_eq!(ranges("+3-4"), Some(vec![(3, 4)]));
    assert_eq!(ranges("99999999999-5"), Some(vec![]));
    assert_eq!(ranges("4294967295"), Some(vec![(4294967295, 4294967295)]));
    assert_eq!(ranges("4294967296"), Some(vec![]));
}

#[test]
fn sort_defaults_to_time_desc() {
    assert_eq!(Sort::default(), Sort::TimeDesc);
    let p = Params::default();
    assert_eq!(p.sort, Sort::TimeDesc);
    assert!(p.vertical.is_none());
    assert!(p.size.is_none());
    assert!(p.search.is_none());
}

#[test]
fn order_by_fragments() {
    let (join, order) = Sort::TimeDesc.get_order_by();
    assert!(join.contains("DISTINCT ON (transactions.args ->> 'account_id')"));
    assert!(join.contains("transactions.method_name = 'add_project'"));
    assert_eq!(order, "ORDER BY txs.timestamp DESC");

    let (join, order) = Sort::TimeAsc.get_order_by();
    assert!(join.contains("transactions.timestamp ASC"));
    assert_eq!(order, "ORDER BY txs.timestamp ASC");

    let (join, order) = Sort::NameAsc.get_order_by();
    assert_eq!(join, "");
    assert_eq!(order, "ORDER BY NULLIF(projects.name, '') ASC NULLS LAST");

    let (join, order) = Sort::NameDesc.get_order_by();
    assert_eq!(join, "");
    assert_eq!(order, "ORDER BY NULLIF(projects.name, '') DESC NULLS LAST");

    let (join, order) = Sort::RecentAsc.get_order_by();
    assert!(join.contains("transactions.method_name IN ('add_project', 'edit_project')"));
    assert_eq!(order, "ORDER BY txs.timestamp ASC");

    let (join, order) = Sort::RecentDesc.get_order_by();
    assert!(join.contains("transactions.args ->> 'project_id'"));
    assert_eq!(order, "ORDER BY txs.timestamp DESC");
}

#[test]
fn projects_query_without_filters() {
    let pieces = all_projects_query(&Params::default());
    let s = rendered(&pieces);
    assert!(s.starts_with("\n        SELECT\n          projects.id\n        FROM\n          projects\n        "));
    assert!(s.contains("LEFT JOIN"));
    assert!(!s.contains("WHERE projects"));
    assert!(s.ends_with(" ORDER BY txs.timestamp DESC"));
}

#[test]
fn projects_query_with_filters() {
    let params = Params {
        sort: Sort::NameAsc,
        vertical: Some(vec!["defi".to_string()]),
        integration: None,
        dev: Some(vec!["in-house".to_string(), "outsourced".to_string()]),
        stage: None,
        size: Some(vec![(1, 5), (10, 20)]),
        distribution: None,
        from: Some(40),
        limit: Some(20),
        search: Some("near".to_string()),
    };
    let pieces = all_projects_query(&params);
    let s = rendered(&pieces);
    // The first filter opens the WHERE clause; the later ones continue it.
    assert!(s.contains("WHERE projects.vertical ?| <list:defi>"));
    assert!(s.contains(" AND projects.dev = ANY (<list:in-house|outsourced>) "));
    // Two size disjuncts, joined by OR, each binding both ends.
    assert!(s.contains("BETWEEN\n        <uint:1> AND <uint:5> OR "));
    assert!(s.contains("<uint:10> AND <uint:20> ) "));
    // The search pattern is bound four times.
    assert_eq!(s.matches("<text:%near%>").count(), 4);
    assert!(s.contains(" AND  (projects.name ILIKE <text:%near%> OR projects.id ILIKE "));
    // Name sort has an empty join and its own ORDER BY, then LIMIT and OFFSET.
    assert!(s.contains(" ORDER BY NULLIF(projects.name, '') ASC NULLS LAST"));
    assert!(s.ends_with(" LIMIT <uint:20> OFFSET <uint:40>"));
}

#[test]
fn projects_query_search_alone_opens_where() {
    let params = Params { search: Some("x".to_string()), ..Params::default() };
    let s = rendered(&all_projects_query(&params));
    assert!(s.contains(" WHERE  (projects.name ILIKE <text:%x%>"));
    assert!(!s.contains(" AND "));
}
