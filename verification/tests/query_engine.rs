use entity_cache::entity::{FieldValue, Record};
use entity_cache::query::{
    DateRange, PaginationParams, QueryFilters, SortOrder, count_filtered, exists_with_filters,
    filter_records, find_by_field, find_by_ids, find_first, find_paginated, find_with_params,
    paginate, search, sort_records,
};

fn rec(id: u128, created_at: i64, status: &str, name: &str) -> Record {
    Record {
        id,
        created_at,
        fields: vec![
            (String::from("status"), FieldValue::Text(String::from(status))),
            (String::from("name"), FieldValue::Text(String::from(name))),
        ],
    }
}

fn plain(id: u128) -> Record {
    Record { id, created_at: id as i64, fields: Vec::new() }
}

fn many(n: u128) -> Vec<Record> {
    let mut v = Vec::new();
    let mut i: u128 = 1;
    while i <= n {
        v.push(plain(i));
        i += 1;
    }
    v
}

#[test]
fn page_two_of_twenty_five_items() {
    let r = find_paginated(many(25), 2, 10);
    assert_eq!(r.items.len(), 10);
    assert_eq!(r.total_count, 25);
    assert_eq!(r.total_pages, 3);
    assert!(r.has_next);
    assert!(r.has_prev);
    assert_eq!(r.page, 2);
    assert_eq!(r.per_page, 10);
    // the second page holds items 11 through 20 in ascending order
    assert_eq!(r.items[0].id, 11);
    assert_eq!(r.items[9].id, 20);
}

#[test]
fn pagination_formula_values() {
    assert_eq!(find_paginated(many(0), 1, 10).total_pages, 0);
    assert_eq!(find_paginated(many(1), 1, 10).total_pages, 1);
    assert_eq!(find_paginated(many(10), 1, 10).total_pages, 1);
    assert_eq!(find_paginated(many(11), 1, 10).total_pages, 2);
    assert_eq!(find_paginated(many(30), 1, 10).total_pages, 3);
    // has_next is exactly page * per_page < total_count
    assert!(find_paginated(many(21), 2, 10).has_next);
    assert!(!find_paginated(many(20), 2, 10).has_next);
}

#[test]
fn out_of_range_page_is_empty_with_counts_intact() {
    let r = find_paginated(many(5), 4, 2);
    assert_eq!(r.items.len(), 0);
    assert_eq!(r.total_count, 5);
    assert_eq!(r.total_pages, 3);
    assert!(!r.has_next);
    assert!(r.has_prev);
}

#[test]
fn per_page_is_clamped_to_the_ceiling() {
    let params = PaginationParams { page: 1, per_page: 1000, max_per_page: 3 };
    let r = paginate(many(10), &params);
    assert_eq!(r.per_page, 3);
    assert_eq!(r.items.len(), 3);
    assert_eq!(r.total_pages, 4);
}

#[test]
fn field_filter_and_search_combine() {
    let records = vec![
        rec(1, 10, "active", "Alice Smith"),
        rec(2, 20, "active", "bob"),
        rec(3, 30, "inactive", "alice jones"),
        rec(4, 40, "active", "MALICE"),
    ];
    let mut filters = QueryFilters::default();
    filters.field_filters.push((
        String::from("status"),
        FieldValue::Text(String::from("active")),
    ));
    filters.search_query = Some(String::from("alice"));
    filters.search_fields = vec![String::from("name")];
    let out = filter_records(records, &filters);
    // only active entities whose name contains "alice", case-insensitively
    let ids: Vec<u128> = out.iter().map(|r| r.id).collect();
    assert_eq!(ids, vec![1, 4]);
}

#[test]
fn search_without_declared_fields_matches_nothing() {
    let records = vec![rec(1, 10, "active", "alice")];
    let mut filters = QueryFilters::default();
    filters.search_query = Some(String::from("alice"));
    let out = filter_records(records, &filters);
    assert!(out.is_empty());
}

#[test]
fn exclude_wins_over_include() {
    let x: u128 = 1;
    let y: u128 = 2;
    let records = vec![plain(x), plain(y), plain(3)];
    let mut filters = QueryFilters::default();
    filters.include_ids = Some(vec![x, y]);
    filters.exclude_ids = Some(vec![x]);
    let out = filter_records(records, &filters);
    let ids: Vec<u128> = out.iter().map(|r| r.id).collect();
    assert_eq!(ids, vec![y]);
}

#[test]
fn date_range_bounds_are_inclusive() {
    let records = vec![plain(1), plain(2), plain(3), plain(4)];
    let mut filters = QueryFilters::default();
    filters.date_range = Some(DateRange { start: Some(2), end: Some(3) });
    let out = filter_records(records, &filters);
    let ids: Vec<u128> = out.iter().map(|r| r.id).collect();
    assert_eq!(ids, vec![2, 3]);
}

#[test]
fn sort_orders_by_timestamp_with_id_tiebreak() {
    let mut v = vec![
        Record { id: 3, created_at: 5, fields: Vec::new() },
        Record { id: 1, created_at: 9, fields: Vec::new() },
        Record { id: 2, created_at: 5, fields: Vec::new() },
    ];
    sort_records(&mut v, SortOrder::Asc);
    let ids: Vec<u128> = v.iter().map(|r| r.id).collect();
    assert_eq!(ids, vec![2, 3, 1]);
    sort_records(&mut v, SortOrder::Desc);
    let ids: Vec<u128> = v.iter().map(|r| r.id).collect();
    // descending by timestamp, ties still ascending by id
    assert_eq!(ids, vec![1, 2, 3]);
}

#[test]
fn full_pipeline_filters_sorts_and_slices() {
    let records = vec![
        rec(5, 50, "active", "e"),
        rec(1, 10, "active", "a"),
        rec(4, 40, "inactive", "d"),
        rec(3, 30, "active", "c"),
        rec(2, 20, "active", "b"),
    ];
    let mut filters = QueryFilters::default();
    filters.field_filters.push((
        String::from("status"),
        FieldValue::Text(String::from("active")),
    ));
    let params = PaginationParams { page: 1, per_page: 3, max_per_page: 100 };
    let r = find_with_params(records, Some(&filters), Some(&params), Some(SortOrder::Desc));
    assert_eq!(r.total_count, 4);
    assert_eq!(r.total_pages, 2);
    assert!(r.has_next);
    assert!(!r.has_prev);
    let ids: Vec<u128> = r.items.iter().map(|x| x.id).collect();
    assert_eq!(ids, vec![5, 3, 2]);
}

#[test]
fn pipeline_without_pagination_returns_everything() {
    let r = find_with_params(many(7), None, None, None);
    assert_eq!(r.total_count, 7);
    assert_eq!(r.items.len(), 7);
    assert_eq!(r.total_pages, 1);
    assert!(!r.has_next);
    assert!(!r.has_prev);
}

#[test]
fn finders_over_candidates() {
    let records = vec![
        rec(1, 10, "active", "alice"),
        rec(2, 20, "inactive", "bob"),
        rec(3, 30, "active", "carol"),
    ];
    let by_field = find_by_field(
        clone_records(&records),
        &String::from("status"),
        &FieldValue::Text(String::from("active")),
    );
    assert_eq!(by_field.len(), 2);

    let by_ids = find_by_ids(clone_records(&records), &vec![2, 3]);
    let ids: Vec<u128> = by_ids.iter().map(|r| r.id).collect();
    assert_eq!(ids, vec![2, 3]);

    let found = search(clone_records(&records), &String::from("BOB"), &vec![String::from("name")]);
    assert_eq!(found.len(), 1);
    assert_eq!(found[0].id, 2);

    let mut filters = QueryFilters::default();
    filters.field_filters.push((
        String::from("status"),
        FieldValue::Text(String::from("active")),
    ));
    assert_eq!(count_filtered(&records, &filters), 2);
    assert!(exists_with_filters(&records, &filters));
    let first = find_first(clone_records(&records), &filters).unwrap();
    assert_eq!(first.id, 1);

    let mut none_filters = QueryFilters::default();
    none_filters.field_filters.push((
        String::from("status"),
        FieldValue::Text(String::from("gone")),
    ));
    assert!(!exists_with_filters(&records, &none_filters));
    assert!(find_first(clone_records(&records), &none_filters).is_none());
}

#[test]
fn type_aware_field_comparison() {
    let number = Record {
        id: 1,
        created_at: 0,
        fields: vec![(String::from("n"), FieldValue::Integer(7))],
    };
    let text = Record {
        id: 2,
        created_at: 0,
        fields: vec![(String::from("n"), FieldValue::Text(String::from("7")))],
    };
    let out = find_by_field(vec![number, text], &String::from("n"), &FieldValue::Integer(7));
    assert_eq!(out.len(), 1);
    assert_eq!(out[0].id, 1);
}

fn clone_records(v: &Vec<Record>) -> Vec<Record> {
    {
        let mut out = Vec::new();
        for r in v.iter() {
            let mut fields = Vec::new();
            for (k, v) in r.fields.iter() {
                let copy = match v {
                    FieldValue::Null => FieldValue::Null,
                    FieldValue::Boolean(b) => FieldValue::Boolean(*b),
                    FieldValue::Integer(i) => FieldValue::Integer(*i),
                    FieldValue::Text(s) => FieldValue::Text(s.clone()),
                };
                fields.push((k.clone(), copy));
            }
            out.push(Record { id: r.id, created_at: r.created_at, fields });
        }
        out
    }
}
