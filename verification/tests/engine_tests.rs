use ogma_db::common::codec::{encode_rows, AsRawRows, Block};
use ogma_db::common::{ColumnType, DBSchema, RawRow, TableInfo};
use ogma_db::storage_engine::schema_json::schema_to_json;
use ogma_db::storage_engine::{Action, DataBase, FilterType, Reaction};
use ogma_db::common::DataType;

fn currency_schema() -> DBSchema {
    let mut schema = DBSchema::new();
    let info: TableInfo = vec![
        ("index".into(), ColumnType::Integer),
        ("Platinum".into(), ColumnType::Integer),
        ("Gold".into(), ColumnType::Integer),
        ("Silver".into(), ColumnType::Integer),
        ("Copper".into(), ColumnType::Integer),
    ];
    schema.insert("currency".into(), info);
    schema
}

fn currency_rows() -> Vec<RawRow> {
    let mut rows: Vec<RawRow> = Vec::new();
    for k in 1u64..=204 {
        rows.push(vec![k, k % 100, (3 * k) % 10, (5 * k) % 10, (7 * k) % 10]);
    }
    rows
}

fn drain(db: &mut DataBase, qid: u64) -> Vec<RawRow> {
    match db.execute(Action::GetMore(qid)) {
        Reaction::Data(rows) => rows,
        other => panic!("expected data, got {:?}", reaction_name(&other)),
    }
}

fn reaction_name(r: &Reaction) -> &'static str {
    match r {
        Reaction::Error(_) => "Error",
        Reaction::QueryStart { .. } => "QueryStart",
        Reaction::Data(_) => "Data",
        Reaction::Empty => "Empty",
    }
}

#[test]
fn test_create_store_load_all_integers() {
    let rows = currency_rows();
    let blocks = encode_rows(&rows, 5);
    assert_eq!(blocks.len(), 1);

    let mut db = DataBase::create("./data/test.ogmadb", currency_schema()).unwrap();
    db.store(&"currency".to_string(), blocks).unwrap();

    // reopen: serialise the catalog, parse it back, reload the stored bytes
    let json = schema_to_json(&currency_schema());
    let mut reopened = DataBase::open("./data/test.ogmadb", &json).unwrap();
    let (_, stored_blocks) = db.load(&"currency".to_string()).unwrap();
    reopened.store(&"currency".to_string(), stored_blocks).unwrap();

    let qid = match reopened.execute(Action::GetAll("currency".into())) {
        Reaction::QueryStart { qid, .. } => qid,
        other => panic!("expected a query handle, got {:?}", reaction_name(&other)),
    };
    let data = drain(&mut reopened, qid);
    assert_eq!(data.len(), 204);
    for (i, row) in data.iter().enumerate() {
        let k = (i + 1) as u64;
        assert_eq!(row, &vec![k, k % 100, (3 * k) % 10, (5 * k) % 10, (7 * k) % 10]);
    }
}

#[test]
fn test_tombstone_elision() {
    let mut rows: Vec<RawRow> = Vec::new();
    rows.push(vec![0u64, 11u64]);
    rows.push(vec![1u64, 21u64]);
    rows.push(vec![2u64, 31u64]);
    rows.push(vec![3u64, 41u64]);
    // lay the four rows out by hand so the tombstone row is stored too
    let mut bytes: Vec<u8> = Vec::new();
    for row in &rows {
        for cell in row {
            bytes.extend_from_slice(&cell.to_le_bytes());
        }
    }
    bytes.resize(8192, 0u8);
    let block = Block::from_bytes(bytes);
    let live = block.as_rows(2);
    assert_eq!(live.len(), 3);
    assert_eq!(live[0], vec![1u64, 21u64]);
    assert_eq!(live[1], vec![2u64, 31u64]);
    assert_eq!(live[2], vec![3u64, 41u64]);
}

#[test]
fn test_between_and_in_composition() {
    let mut schema = DBSchema::new();
    let info: TableInfo = vec![
        ("ID".into(), ColumnType::Integer),
        ("truthy".into(), ColumnType::Boolean),
        ("word".into(), ColumnType::Text),
    ];
    schema.insert("things".into(), info);
    let word = u64::from_le_bytes(*b"bird\0\0\0\0");
    let rows: Vec<RawRow> = vec![vec![8675309u64, 0u64, word]];
    let blocks = encode_rows(&rows, 3);

    let mut db = DataBase::create("./data/things.ogmadb", schema).unwrap();
    db.store(&"things".to_string(), blocks).unwrap();

    let matching = vec![
        FilterType::Between(
            "ID".into(),
            DataType::Integer(8675308),
            DataType::Integer(8675310),
        ),
        FilterType::In(
            "word".into(),
            vec![
                DataType::Text(['b'; 8]),
                DataType::Text(['b', 'i', 'r', 'd', '\0', '\0', '\0', '\0']),
            ],
        ),
    ];
    let qid = match db.execute(Action::GetFiltered("things".into(), matching)) {
        Reaction::QueryStart { qid, .. } => qid,
        other => panic!("expected a query handle, got {:?}", reaction_name(&other)),
    };
    let data = drain(&mut db, qid);
    assert_eq!(data.len(), 1);
    assert_eq!(data[0], vec![8675309u64, 0u64, word]);

    // the upper bound is exclusive: equality at the bound rejects
    let rejecting = vec![
        FilterType::Between(
            "ID".into(),
            DataType::Integer(8675308),
            DataType::Integer(8675309),
        ),
        FilterType::In(
            "word".into(),
            vec![
                DataType::Text(['b'; 8]),
                DataType::Text(['b', 'i', 'r', 'd', '\0', '\0', '\0', '\0']),
            ],
        ),
    ];
    let qid2 = match db.execute(Action::GetFiltered("things".into(), rejecting)) {
        Reaction::QueryStart { qid, .. } => qid,
        other => panic!("expected a query handle, got {:?}", reaction_name(&other)),
    };
    let data2 = drain(&mut db, qid2);
    assert_eq!(data2.len(), 0);
}

#[test]
fn test_unknown_table() {
    let mut db = DataBase::create("./data/test.ogmadb", currency_schema()).unwrap();
    match db.execute(Action::GetAll("no_such_table".into())) {
        Reaction::Error(err) => {
            let text = err.to_text();
            assert!(!text.is_empty());
        },
        other => panic!("expected an error, got {:?}", reaction_name(&other)),
    }
    match db.execute(Action::GetMore(42)) {
        Reaction::Empty => {},
        other => panic!("expected empty, got {:?}", reaction_name(&other)),
    }
}

#[test]
fn test_double_drain() {
    let rows = currency_rows();
    let blocks = encode_rows(&rows, 5);
    let mut db = DataBase::create("./data/test.ogmadb", currency_schema()).unwrap();
    db.store(&"currency".to_string(), blocks).unwrap();

    let qid = match db.execute(Action::GetAll("currency".into())) {
        Reaction::QueryStart { qid, .. } => qid,
        other => panic!("expected a query handle, got {:?}", reaction_name(&other)),
    };
    let data = drain(&mut db, qid);
    assert_eq!(data.len(), 204);
    match db.execute(Action::GetMore(qid)) {
        Reaction::Empty => {},
        other => panic!("expected empty, got {:?}", reaction_name(&other)),
    }
}

#[test]
fn test_fresh_handles_per_query() {
    let rows = currency_rows();
    let blocks = encode_rows(&rows, 5);
    let mut db = DataBase::create("./data/test.ogmadb", currency_schema()).unwrap();
    db.store(&"currency".to_string(), blocks).unwrap();

    let qid1 = match db.execute(Action::GetAll("currency".into())) {
        Reaction::QueryStart { qid, .. } => qid,
        other => panic!("expected a query handle, got {:?}", reaction_name(&other)),
    };
    let qid2 = match db.execute(Action::GetAll("currency".into())) {
        Reaction::QueryStart { qid, .. } => qid,
        other => panic!("expected a query handle, got {:?}", reaction_name(&other)),
    };
    assert_ne!(qid1, qid2);
    assert_eq!(drain(&mut db, qid1).len(), 204);
    assert_eq!(drain(&mut db, qid2).len(), 204);
}

#[test]
fn test_store_unknown_table_fails() {
    let mut db = DataBase::create("./data/test.ogmadb", currency_schema()).unwrap();
    let result = db.store(&"nope".to_string(), Vec::new());
    assert!(result.is_err());
}

#[test]
fn test_block_round_trip_cells() {
    // one row of two cells with distinctive byte patterns
    let rows: Vec<RawRow> = vec![vec![0x0807060504030201u64, 0x1122334455667788u64]];
    let blocks = encode_rows(&rows, 2);
    assert_eq!(blocks.len(), 1);
    let bytes = blocks[0].bytes();
    assert_eq!(&bytes[0..8], &[0x01, 0x02, 0x03, 0x04, 0x05, 0x06, 0x07, 0x08]);
    assert_eq!(&bytes[8..16], &[0x88, 0x77, 0x66, 0x55, 0x44, 0x33, 0x22, 0x11]);
    let decoded = blocks.as_rows(2);
    assert_eq!(decoded, rows);
}

#[test]
fn test_store_block_at_and_load_block_at() {
    let mut db = DataBase::create("./data/test.ogmadb", currency_schema()).unwrap();
    let rows: Vec<RawRow> = vec![vec![7u64, 1u64, 2u64, 3u64, 4u64]];
    let blocks = encode_rows(&rows, 5);
    db.store_block_at(&"currency".to_string(), 2, &blocks[0]).unwrap();

    // the gap reads back zeroed, the written block reads back as stored
    let gap = db.load_block_at(&"currency".to_string(), 0).unwrap();
    assert!(gap.bytes().iter().all(|b| *b == 0));
    let hit = db.load_block_at(&"currency".to_string(), 2).unwrap();
    assert_eq!(hit.bytes(), blocks[0].bytes());
    let past_end = db.load_block_at(&"currency".to_string(), 9).unwrap();
    assert!(past_end.bytes().iter().all(|b| *b == 0));

    // the table now holds three blocks; only the third has live rows
    let (_, loaded) = db.load(&"currency".to_string()).unwrap();
    assert_eq!(loaded.len(), 3);
    let all = loaded.as_rows(5);
    assert_eq!(all, rows);
}
