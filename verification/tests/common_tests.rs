use ogma_db::add;
use ogma_db::common::{convert_field, convert_row, convert_row_field, map_table_info};
use ogma_db::common::{ColumnType, DataType, RawRow, TableInfo};

fn make_table_info() -> TableInfo {
    vec![
        ("ID".into(), ColumnType::Integer),
        ("value".into(), ColumnType::Integer),
        ("is_munged".into(), ColumnType::Boolean),
        ("munged_value".into(), ColumnType::Text),
        ("plethora".into(), ColumnType::Clob),
        ("amorphous".into(), ColumnType::Blob),
    ]
}

#[test]
fn it_works() {
    let result = add(2, 2);
    assert_eq!(result, 4);
}

#[test]
fn test_table_info_mapping() {
    let table_info = make_table_info();
    let info_map = map_table_info(&table_info);

    assert_eq!(table_info.len(), info_map.len());

    for (index, (name, typing)) in table_info.iter().enumerate() {
        let (type_of, offset) = info_map.get(name).unwrap();
        assert_eq!(&type_of, typing);
        assert_eq!(offset, index as u64);
    }
}

#[test]
fn test_field_and_row_conversion() {
    let table_info = make_table_info();
    let raw_row: RawRow = vec![1u64, 1u64, 0u64, 0u64, 64u64, 128u64];

    for item in convert_row(raw_row, &table_info) {
        match item {
            DataType::Integer(val) => assert_eq!(val, 1i64),
            DataType::Boolean(val) => assert_eq!(val, false),
            DataType::Text(val) => assert_eq!(val, [0x0 as char; 8]),
            DataType::ClobRef(val) => assert_eq!(val, 64u64),
            DataType::BlobRef(val) => assert_eq!(val, 128u64),
        }
    }
}

#[test]
fn test_integer_field_round_trip() {
    let negative = -5i64;
    match convert_field(negative as u64, &ColumnType::Integer) {
        DataType::Integer(val) => assert_eq!(val, -5i64),
        other => panic!("expected an integer field, got {:?}", other),
    }
    let max = i64::MAX;
    match convert_field(max as u64, &ColumnType::Integer) {
        DataType::Integer(val) => assert_eq!(val, i64::MAX),
        other => panic!("expected an integer field, got {:?}", other),
    }
    let min = i64::MIN;
    match convert_field(min as u64, &ColumnType::Integer) {
        DataType::Integer(val) => assert_eq!(val, i64::MIN),
        other => panic!("expected an integer field, got {:?}", other),
    }
}

#[test]
fn test_text_field_conversion() {
    let word = u64::from_le_bytes(*b"bird\0\0\0\0");
    match convert_field(word, &ColumnType::Text) {
        DataType::Text(chars) => {
            assert_eq!(chars, ['b', 'i', 'r', 'd', '\0', '\0', '\0', '\0']);
        },
        other => panic!("expected a text field, got {:?}", other),
    }
}

#[test]
fn test_row_field_out_of_range() {
    let raw_row: RawRow = vec![1u64, 2u64];
    assert!(convert_row_field(&raw_row, &ColumnType::Integer, 2).is_none());
    match convert_row_field(&raw_row, &ColumnType::Integer, 1) {
        Some(DataType::Integer(v)) => assert_eq!(v, 2),
        other => panic!("expected an integer field, got {:?}", other),
    }
}

#[test]
fn test_duplicate_column_keeps_later() {
    let table_info: TableInfo = vec![
        ("twice".into(), ColumnType::Integer),
        ("twice".into(), ColumnType::Text),
    ];
    let info_map = map_table_info(&table_info);
    assert_eq!(info_map.len(), 1);
    let (type_of, offset) = info_map.get(&"twice".to_string()).unwrap();
    assert_eq!(type_of, ColumnType::Text);
    assert_eq!(offset, 1);
}
