use byteorder::{ByteOrder, LE};

use ogma_db::common::{map_table_info, ColumnType, DataType, RawRow, TableInfo, TableInfoMap};
use ogma_db::storage_engine::{apply_filter, apply_filters, FilterType};

fn test_data() -> (RawRow, TableInfoMap) {
    let word = LE::read_u64("bird\0\0\0\0".as_bytes());
    let raw_row: RawRow = vec![8675309u64, 0u64, word];
    let table_info: TableInfo = vec![
        ("ID".into(), ColumnType::Integer),
        ("truthy".into(), ColumnType::Boolean),
        ("word".into(), ColumnType::Text),
    ];
    (raw_row, map_table_info(&table_info))
}

#[test]
fn test_filter_gtet() {
    let (raw_row, table_schema) = test_data();
    let (int_over, int_eq, int_under) = (
        FilterType::GreaterThanEqualTo("ID".into(), DataType::Integer(8675310i64)),
        FilterType::GreaterThanEqualTo("ID".into(), DataType::Integer(8675309i64)),
        FilterType::GreaterThanEqualTo("ID".into(), DataType::Integer(8675308i64)),
    );
    assert!(
        !apply_filter(&raw_row, &int_over, &table_schema),
        "Int GTET failed on greater."
    );
    assert!(
        apply_filter(&raw_row, &int_eq, &table_schema),
        "Int GTET failed on equal."
    );
    assert!(
        apply_filter(&raw_row, &int_under, &table_schema),
        "Int GTET failed of lesser."
    );

    let (text_under, text_eq, text_over) = (
        FilterType::GreaterThanEqualTo("word".into(), DataType::Text(['b'; 8])),
        FilterType::GreaterThanEqualTo(
            "word".into(),
            DataType::Text(['b', 'i', 'r', 'd', '\0', '\0', '\0', '\0']),
        ),
        FilterType::GreaterThanEqualTo("word".into(), DataType::Text(['c'; 8])),
    );
    assert!(
        !apply_filter(&raw_row, &text_over, &table_schema),
        "Text GTET failed on greater."
    );
    assert!(
        apply_filter(&raw_row, &text_eq, &table_schema),
        "Text GTET failed on equal."
    );
    assert!(
        apply_filter(&raw_row, &text_under, &table_schema),
        "Text GTET failed of lesser."
    );
}

#[test]
fn test_filter_gt() {
    let (raw_row, table_schema) = test_data();
    let (int_over, int_eq, int_under) = (
        FilterType::GreaterThan("ID".into(), DataType::Integer(8675310i64)),
        FilterType::GreaterThan("ID".into(), DataType::Integer(8675309i64)),
        FilterType::GreaterThan("ID".into(), DataType::Integer(8675308i64)),
    );
    assert!(
        !apply_filter(&raw_row, &int_over, &table_schema),
        "Int GT failed on greater."
    );
    assert!(
        !apply_filter(&raw_row, &int_eq, &table_schema),
        "Int GT failed on equal."
    );
    assert!(
        apply_filter(&raw_row, &int_under, &table_schema),
        "Int GT failed of lesser."
    );

    let (text_under, text_eq, text_over) = (
        FilterType::GreaterThan("word".into(), DataType::Text(['b'; 8])),
        FilterType::GreaterThan(
            "word".into(),
            DataType::Text(['b', 'i', 'r', 'd', '\0', '\0', '\0', '\0']),
        ),
        FilterType::GreaterThan("word".into(), DataType::Text(['c'; 8])),
    );
    assert!(
        !apply_filter(&raw_row, &text_over, &table_schema),
        "Text GT failed on greater."
    );
    assert!(
        !apply_filter(&raw_row, &text_eq, &table_schema),
        "Text GT failed on equal."
    );
    assert!(
        apply_filter(&raw_row, &text_under, &table_schema),
        "Text GT failed of lesser."
    );
}

#[test]
fn test_filter_ltet() {
    let (raw_row, table_schema) = test_data();
    let (int_over, int_eq, int_under) = (
        FilterType::LessThanEqualTo("ID".into(), DataType::Integer(8675310i64)),
        FilterType::LessThanEqualTo("ID".into(), DataType::Integer(8675309i64)),
        FilterType::LessThanEqualTo("ID".into(), DataType::Integer(8675308i64)),
    );
    assert!(
        apply_filter(&raw_row, &int_over, &table_schema),
        "Int LTET failed on greater."
    );
    assert!(
        apply_filter(&raw_row, &int_eq, &table_schema),
        "Int LTET failed on equal."
    );
    assert!(
        !apply_filter(&raw_row, &int_under, &table_schema),
        "Int LTET failed of lesser."
    );

    let (text_under, text_eq, text_over) = (
        FilterType::LessThanEqualTo("word".into(), DataType::Text(['b'; 8])),
        FilterType::LessThanEqualTo(
            "word".into(),
            DataType::Text(['b', 'i', 'r', 'd', '\0', '\0', '\0', '\0']),
        ),
        FilterType::LessThanEqualTo("word".into(), DataType::Text(['c'; 8])),
    );
    assert!(
        apply_filter(&raw_row, &text_over, &table_schema),
        "Text LTET failed on greater."
    );
    assert!(
        apply_filter(&raw_row, &text_eq, &table_schema),
        "Text LTET failed on equal."
    );
    assert!(
        !apply_filter(&raw_row, &text_under, &table_schema),
        "Text LTET failed of lesser."
    );
}

#[test]
fn test_filter_lt() {
    let (raw_row, table_schema) = test_data();
    let (int_over, int_eq, int_under) = (
        FilterType::LessThan("ID".into(), DataType::Integer(8675310i64)),
        FilterType::LessThan("ID".into(), DataType::Integer(8675309i64)),
        FilterType::LessThan("ID".into(), DataType::Integer(8675308i64)),
    );
    assert!(
        apply_filter(&raw_row, &int_over, &table_schema),
        "Int LT failed on greater."
    );
    assert!(
        !apply_filter(&raw_row, &int_eq, &table_schema),
        "Int LT failed on equal."
    );
    assert!(
        !apply_filter(&raw_row, &int_under, &table_schema),
        "Int LT failed of lesser."
    );

    let (text_under, text_eq, text_over) = (
        FilterType::LessThan("word".into(), DataType::Text(['b'; 8])),
        FilterType::LessThan(
            "word".into(),
            DataType::Text(['b', 'i', 'r', 'd', '\0', '\0', '\0', '\0']),
        ),
        FilterType::LessThan("word".into(), DataType::Text(['c'; 8])),
    );
    assert!(
        apply_filter(&raw_row, &text_over, &table_schema),
        "Text LT failed on greater."
    );
    assert!(
        !apply_filter(&raw_row, &text_eq, &table_schema),
        "Text LT failed on equal."
    );
    assert!(
        !apply_filter(&raw_row, &text_under, &table_schema),
        "Text LT failed of lesser."
    );
}

#[test]
fn test_filter_et() {
    let (raw_row, table_schema) = test_data();
    let (int_over, int_eq, int_under) = (
        FilterType::EqualTo("ID".into(), DataType::Integer(8675310i64)),
        FilterType::EqualTo("ID".into(), DataType::Integer(8675309i64)),
        FilterType::EqualTo("ID".into(), DataType::Integer(8675308i64)),
    );
    assert!(
        !apply_filter(&raw_row, &int_over, &table_schema),
        "Int ET failed on greater."
    );
    assert!(
        apply_filter(&raw_row, &int_eq, &table_schema),
        "Int ET failed on equal."
    );
    assert!(
        !apply_filter(&raw_row, &int_under, &table_schema),
        "Int ET failed of lesser."
    );

    let (text_under, text_eq, text_over) = (
        FilterType::EqualTo("word".into(), DataType::Text(['b'; 8])),
        FilterType::EqualTo(
            "word".into(),
            DataType::Text(['b', 'i', 'r', 'd', '\0', '\0', '\0', '\0']),
        ),
        FilterType::EqualTo("word".into(), DataType::Text(['c'; 8])),
    );
    assert!(
        !apply_filter(&raw_row, &text_over, &table_schema),
        "Text ET failed on greater."
    );
    assert!(
        apply_filter(&raw_row, &text_eq, &table_schema),
        "Text ET failed on equal."
    );
    assert!(
        !apply_filter(&raw_row, &text_under, &table_schema),
        "Text ET failed of lesser."
    );
}

#[test]
fn test_filter_bt() {
    let (raw_row, table_schema) = test_data();
    let (int_over, int_eq, int_under) = (
        FilterType::Between(
            "ID".into(),
            DataType::Integer(8675310i64),
            DataType::Integer(8675312i64),
        ),
        FilterType::Between(
            "ID".into(),
            DataType::Integer(8675308i64),
            DataType::Integer(8675310i64),
        ),
        FilterType::Between(
            "ID".into(),
            DataType::Integer(8675306i64),
            DataType::Integer(8675306i64),
        ),
    );
    assert!(
        !apply_filter(&raw_row, &int_over, &table_schema),
        "Int BT failed on below."
    );
    assert!(
        apply_filter(&raw_row, &int_eq, &table_schema),
        "Int BT failed on within."
    );
    assert!(
        !apply_filter(&raw_row, &int_under, &table_schema),
        "Int BT failed of above."
    );

    let (text_over, text_eq, text_under) = (
        FilterType::Between(
            "word".into(),
            DataType::Text(['a'; 8]),
            DataType::Text(['b'; 8]),
        ),
        FilterType::Between(
            "word".into(),
            DataType::Text(['a'; 8]),
            DataType::Text(['c'; 8]),
        ),
        FilterType::Between(
            "word".into(),
            DataType::Text(['c'; 8]),
            DataType::Text(['d'; 8]),
        ),
    );
    assert!(
        !apply_filter(&raw_row, &text_over, &table_schema),
        "Text BT failed on greater."
    );
    assert!(
        apply_filter(&raw_row, &text_eq, &table_schema),
        "Text BT failed on equal."
    );
    assert!(
        !apply_filter(&raw_row, &text_under, &table_schema),
        "Text BT failed of lesser."
    );
}

#[test]
fn test_filter_in() {
    let (raw_row, table_schema) = test_data();
    let (int_within, int_without) = (
        FilterType::In(
            "ID".into(),
            vec![
                DataType::Integer(8675308i64),
                DataType::Integer(8675309i64),
                DataType::Integer(8675310i64),
            ],
        ),
        FilterType::In(
            "ID".into(),
            vec![
                DataType::Integer(8675308i64),
                DataType::Integer(8675301i64),
                DataType::Integer(8675310i64),
            ],
        ),
    );
    assert!(
        apply_filter(&raw_row, &int_within, &table_schema),
        "Int IN failed on in"
    );
    assert!(
        !apply_filter(&raw_row, &int_without, &table_schema),
        "Int IN failed on out"
    );

    let (bool_within, bool_without) = (
        FilterType::In(
            "truthy".into(),
            vec![DataType::Boolean(true), DataType::Boolean(false)],
        ),
        FilterType::In(
            "truthy".into(),
            vec![DataType::Boolean(true), DataType::Boolean(true)],
        ),
    );
    assert!(
        apply_filter(&raw_row, &bool_within, &table_schema),
        "Bool IN failed on in"
    );
    assert!(
        !apply_filter(&raw_row, &bool_without, &table_schema),
        "Bool IN failed on out"
    );

    let (text_within, text_without) = (
        FilterType::In(
            "word".into(),
            vec![
                DataType::Text(['b'; 8]),
                DataType::Text(['b'; 8]),
                DataType::Text(['b', 'i', 'r', 'd', '\0', '\0', '\0', '\0']),
            ],
        ),
        FilterType::In(
            "word".into(),
            vec![
                DataType::Text(['a'; 8]),
                DataType::Text(['b'; 8]),
                DataType::Text(['c'; 8]),
            ],
        ),
    );
    assert!(
        apply_filter(&raw_row, &text_within, &table_schema),
        "Text IN failed on in"
    );
    assert!(
        !apply_filter(&raw_row, &text_without, &table_schema),
        "Text IN failed on out"
    );
}

#[test]
fn test_filter_all() {
    let (raw_row, table_schema) = test_data();
    let all = FilterType::All;
    assert!(apply_filter(&raw_row, &all, &table_schema))
}

#[test]
fn test_cross_type_never_matches() {
    let (raw_row, table_schema) = test_data();
    let mismatched = FilterType::EqualTo("ID".into(), DataType::Text(['8'; 8]));
    assert!(!apply_filter(&raw_row, &mismatched, &table_schema));
    let mismatched_order = FilterType::GreaterThan("word".into(), DataType::Integer(0));
    assert!(!apply_filter(&raw_row, &mismatched_order, &table_schema));
}

#[test]
fn test_absent_column_never_matches() {
    let (raw_row, table_schema) = test_data();
    let absent = FilterType::EqualTo("no_such_column".into(), DataType::Integer(8675309i64));
    assert!(!apply_filter(&raw_row, &absent, &table_schema));
    let absent_all = FilterType::All;
    assert!(apply_filter(&raw_row, &absent_all, &table_schema));
}

#[test]
fn test_filter_list_conjunction() {
    let (raw_row, table_schema) = test_data();
    let empty: Vec<FilterType> = Vec::new();
    assert!(apply_filters(&raw_row, &empty, &table_schema));
    let both = vec![
        FilterType::GreaterThan("ID".into(), DataType::Integer(8675308i64)),
        FilterType::LessThan("ID".into(), DataType::Integer(8675310i64)),
    ];
    assert!(apply_filters(&raw_row, &both, &table_schema));
    let one_fails = vec![
        FilterType::GreaterThan("ID".into(), DataType::Integer(8675308i64)),
        FilterType::LessThan("ID".into(), DataType::Integer(8675309i64)),
    ];
    assert!(!apply_filters(&raw_row, &one_fails, &table_schema));
}
