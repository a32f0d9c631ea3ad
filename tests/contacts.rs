use daemon_core::contacts::{
    blocked_number_filter, count_ids_sql, ice_action, IceAction, find_filter_value, find_sql, get_all_sql, rows_to_vec,
    searchable_field, ContactDbCursor, ContactsError, ContactsSchemaManager, FilterByOption,
    FilterOption, Order, SortOption,
};

#[test]
fn sort_clauses() {
    assert_eq!(SortOption::GivenName.column(), "given_name");
    assert_eq!(Order::Descending.keyword(), "DESC");
    assert_eq!(
        get_all_sql(SortOption::FamilyName, Order::Ascending),
        "SELECT contact_id FROM contact_main ORDER BY family_name COLLATE NOCASE ASC"
    );
}

#[test]
fn find_queries() {
    assert_eq!(
        find_sql(FilterByOption::Tel, SortOption::Name, Order::Descending),
        "SELECT contact_id FROM contact_main WHERE tel_number LIKE :value ORDER BY name COLLATE NOCASE DESC"
    );
    assert_eq!(
        find_sql(FilterByOption::Category, SortOption::Name, Order::Descending),
        "SELECT contact_id FROM contact_additional WHERE data_type = 'category' AND value LIKE :value"
    );
}

#[test]
fn find_patterns() {
    assert_eq!(find_filter_value(FilterByOption::Tel, FilterOption::StartsWith, "138"), "%\u{1E}138%");
    assert_eq!(find_filter_value(FilterByOption::Name, FilterOption::StartsWith, "Bo"), "Bo%");
    assert_eq!(find_filter_value(FilterByOption::Email, FilterOption::Equals, "a@b.c"), "%\u{1E}a@b.c\u{1E}%");
    assert_eq!(find_filter_value(FilterByOption::Name, FilterOption::Equals, "Bob"), "Bob");
    assert_eq!(find_filter_value(FilterByOption::Name, FilterOption::Contains, "o"), "%o%");
    assert_eq!(find_filter_value(FilterByOption::Tel, FilterOption::FuzzyMatch, "13682628272"), "%2628272\u{1E}%");
    assert_eq!(find_filter_value(FilterByOption::Tel, FilterOption::FuzzyMatch, "12345"), "%12345\u{1E}%");
    assert_eq!(find_filter_value(FilterByOption::Tel, FilterOption::Match, "1"), "");
}

#[test]
fn blocked_number_patterns() {
    assert_eq!(blocked_number_filter(FilterOption::StartsWith, "555").unwrap(), "555%");
    assert_eq!(blocked_number_filter(FilterOption::FuzzyMatch, "0123456789").unwrap(), "%3456789");
    assert_eq!(blocked_number_filter(FilterOption::FuzzyMatch, "123").unwrap(), "%123");
    assert_eq!(blocked_number_filter(FilterOption::Contains, "5").unwrap(), "%5%");
    assert_eq!(blocked_number_filter(FilterOption::Equals, "5").unwrap(), "5");
    assert_eq!(
        blocked_number_filter(FilterOption::Match, "5"),
        Err(ContactsError::InvalidFilterOption("Match".to_string()))
    );
}

#[test]
fn searchable_fields() {
    assert_eq!(searchable_field(&vec![]), "\u{1E}");
    assert_eq!(
        searchable_field(&vec!["13682628272".to_string(), "18812345678".to_string()]),
        "\u{1E}13682628272\u{1E}18812345678\u{1E}"
    );
}

#[test]
fn id_count_query() {
    assert_eq!(count_ids_sql(1), "SELECT COUNT(*) FROM contact_main WHERE contact_id in (?)");
    assert_eq!(count_ids_sql(3), "SELECT COUNT(*) FROM contact_main WHERE contact_id in (?,?,?)");
}

#[test]
fn rows_keep_successes_in_order() {
    let rows: Vec<Result<u32, String>> = vec![Ok(1), Err("bad".to_string()), Ok(3), Ok(4)];
    assert_eq!(rows_to_vec(rows), vec![1, 3, 4]);
    let none: Vec<Result<u32, String>> = vec![];
    assert!(rows_to_vec(none).is_empty());
}

#[test]
fn cursor_batches() {
    let ids: Vec<String> = (0..5).map(|i| format!("id{}", i)).collect();
    let mut c = ContactDbCursor::new(2, ids.clone());
    assert_eq!(c.next_batch(), vec!["id0", "id1"]);
    assert_eq!(c.next_batch(), vec!["id2", "id3"]);
    assert_eq!(c.next_batch(), vec!["id4"]);
    assert!(c.next_batch().is_empty());
    let mut all = ContactDbCursor::new(0, ids);
    assert_eq!(all.next_batch().len(), 5);
    assert!(all.next_batch().is_empty());
}

#[test]
fn schema_upgrade_steps() {
    let m = ContactsSchemaManager {};
    let steps = m.upgrade_statements(0, 1).unwrap();
    assert_eq!(steps.len(), 12);
    assert!(steps[0].starts_with("CREATE TABLE IF NOT EXISTS contact_main"));
    assert!(m.upgrade_statements(1, 2).is_none());
    assert!(m.upgrade_statements(0, 2).is_none());
}

#[test]
fn ice_decisions() {
    assert!(matches!(ice_action(0, 0, 0), Err(ContactsError::InvalidContactId(_))));
    assert!(matches!(ice_action(2, 0, 0), Err(ContactsError::InvalidContactId(_))));
    assert!(matches!(ice_action(1, 1, 0), Err(ContactsError::IcePositionUsed(_))));
    assert_eq!(ice_action(1, 0, 1), Ok(IceAction::Update));
    assert_eq!(ice_action(1, 0, 0), Ok(IceAction::Insert));
}
