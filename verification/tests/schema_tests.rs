use ogma_db::common::{ColumnType, DBSchema, TableInfo};
use ogma_db::storage_engine::schema_json::{schema_from_json, schema_to_json};
use ogma_db::storage_engine::{DataBase, PathInfo};

fn two_table_schema() -> DBSchema {
    let mut schema = DBSchema::new();
    let attributes: TableInfo = vec![
        ("index".into(), ColumnType::Integer),
        ("Strength".into(), ColumnType::Integer),
        ("Wisdom".into(), ColumnType::Integer),
    ];
    let notes: TableInfo = vec![
        ("index".into(), ColumnType::Integer),
        ("flag".into(), ColumnType::Boolean),
        ("word".into(), ColumnType::Text),
        ("body".into(), ColumnType::Clob),
        ("raw".into(), ColumnType::Blob),
    ];
    schema.insert("attributes".into(), attributes);
    schema.insert("notes".into(), notes);
    schema
}

#[test]
fn test_schema_round_trip() {
    let original = two_table_schema();
    let json = schema_to_json(&original);
    let reread = schema_from_json(&json).unwrap();

    assert_eq!(reread.table_count(), 2);
    for i in 0..original.table_count() {
        let (name, info) = original.table_at(i);
        let (name2, info2) = reread.table_at(i);
        assert_eq!(name, name2);
        assert_eq!(info.len(), info2.len());
        for j in 0..info.len() {
            assert_eq!(info[j].0, info2[j].0);
            assert_eq!(info[j].1, info2[j].1);
        }
    }

    // and a full reopen keeps every table addressable
    let db = DataBase::open("./data/test.ogmadb", &json).unwrap();
    assert!(db.load(&"attributes".to_string()).is_ok());
    assert!(db.load(&"notes".to_string()).is_ok());
    assert!(db.load(&"absent".to_string()).is_err());
}

#[test]
fn test_schema_json_text() {
    let mut schema = DBSchema::new();
    let info: TableInfo = vec![("id".into(), ColumnType::Integer)];
    schema.insert("t".into(), info);
    let json = schema_to_json(&schema);
    assert_eq!(json, "{\"t\":[[\"id\",\"Integer\"]]}");
}

#[test]
fn test_schema_json_escaping_round_trip() {
    let mut schema = DBSchema::new();
    let info: TableInfo = vec![
        ("quote\"back\\slash".into(), ColumnType::Text),
        ("tab\tnewline\ncontrol\u{1}".into(), ColumnType::Blob),
    ];
    schema.insert("odd \"name\"".into(), info);
    let json = schema_to_json(&schema);
    let reread = schema_from_json(&json).unwrap();
    assert_eq!(reread.table_count(), 1);
    let (name, info2) = reread.table_at(0);
    assert_eq!(name, "odd \"name\"");
    assert_eq!(info2[0].0, "quote\"back\\slash");
    assert_eq!(info2[1].0, "tab\tnewline\ncontrol\u{1}");
}

#[test]
fn test_schema_json_accepts_canonical_text() {
    let reread = schema_from_json("{\"t\":[[\"id\",\"Integer\"]]}").unwrap();
    assert_eq!(reread.table_count(), 1);
    let (name, info) = reread.table_at(0);
    assert_eq!(name, "t");
    assert_eq!(info.len(), 1);
    assert_eq!(info[0].0, "id");
    assert_eq!(info[0].1, ColumnType::Integer);
}

#[test]
fn test_schema_json_rejects_malformed() {
    assert!(schema_from_json("").is_err());
    assert!(schema_from_json("{").is_err());
    assert!(schema_from_json("{}extra").is_err());
    assert!(schema_from_json("{\"t\":[]}").is_err());
    assert!(schema_from_json("{\"t\":[[\"id\",\"Float\"]]}").is_err());
    assert!(schema_from_json("not json at all").is_err());
    assert!(schema_from_json("{}").is_ok());
}

#[test]
fn test_path_decomposition() {
    let parts = PathInfo::from_path("./data/test.ogmadb").unwrap();
    assert_eq!(parts.base_path, "./data");
    assert_eq!(parts.db_name, "test");
    assert_eq!(parts.extension, "ogmadb");
    assert_eq!(
        parts.generate_table_path(&"currency".to_string()),
        "./data/test_currency.ogmadb"
    );

    // every part must be non-empty
    assert!(PathInfo::from_path("test.ogmadb").is_none());
    assert!(PathInfo::from_path("./data/test").is_none());
    assert!(PathInfo::from_path("./data/.ogmadb").is_none());
    assert!(PathInfo::from_path("./data/test.").is_none());
}

#[test]
fn test_create_rejects_bad_path() {
    let schema = two_table_schema();
    let result = DataBase::create("nodirectory", schema);
    assert!(result.is_err());
}
