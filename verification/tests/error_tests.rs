use ogma_db::common::error::Error;
use ogma_db::common::network::{reaction_to_response, request_to_action, RequestType, ResponseType};
use ogma_db::query_engine::process_query;
use ogma_db::storage_engine::{Action, Reaction};

#[test]
fn test_error_texts() {
    assert_eq!(Error::IOError("disk gone".into()).to_text(), "disk gone");
    assert_eq!(Error::PathError("bad path".into()).to_text(), "bad path");
    assert_eq!(Error::SerdeError("bad json".into()).to_text(), "bad json");
    assert_eq!(Error::SchemaError("no table".into()).to_text(), "no table");
    assert_eq!(Error::StringForm("over the wire".into()).to_text(), "over the wire");
}

#[test]
fn test_meta_error_collapses_to_inner_text() {
    let inner = Error::SchemaError("no table".into());
    let nested = Error::MetaError(Box::new(Error::MetaError(Box::new(inner))));
    assert_eq!(nested.to_text(), "no table");
}

#[test]
fn test_request_to_action() {
    match request_to_action(RequestType::More(42)) {
        Action::GetMore(qid) => assert_eq!(qid, 42),
        _ => panic!("expected a drain action"),
    }
    match request_to_action(RequestType::Query("anything".into())) {
        Action::GetAll(table) => assert_eq!(table, "currency"),
        _ => panic!("expected a whole-table read"),
    }
}

#[test]
fn test_process_query_reads_currency() {
    match process_query("select something".into()) {
        Action::GetAll(table) => assert_eq!(table, "currency"),
        _ => panic!("expected a whole-table read"),
    }
}

#[test]
fn test_reaction_to_response() {
    match reaction_to_response(Reaction::Empty) {
        ResponseType::Empty => {},
        _ => panic!("expected empty"),
    }
    match reaction_to_response(Reaction::Data(vec![vec![1u64, 2u64]])) {
        ResponseType::Data(rows) => assert_eq!(rows, vec![vec![1u64, 2u64]]),
        _ => panic!("expected data"),
    }
    match reaction_to_response(Reaction::Error(Error::SchemaError("no table".into()))) {
        ResponseType::Error(err) => assert_eq!(err.to_text(), "no table"),
        _ => panic!("expected an error"),
    }
}
