//! The protocol value types exchanged at the network boundary, and the
//! translations between them and the engine's actions and reactions.

use vstd::prelude::*;

use crate::common::error::Error;
use crate::common::{RawRow, TableInfoMap};
use crate::storage_engine::{Action, Reaction};

verus! {

/// One request line from a client.
pub enum RequestType {
    Query(String),
    More(u64),
}

/// One response line to a client.
pub enum ResponseType {
    Error(Error),
    QueryHandle { schema: TableInfoMap, qid: u64 },
    Data(Vec<RawRow>),
    Empty,
}

/// The engine action an incoming request asks for.
pub fn request_to_action(request: RequestType) -> (r: Action)
    ensures
        match request {
            RequestType::Query(_) => r matches Action::GetAll(t) && t@ == "currency"@,
            RequestType::More(qid) => r matches Action::GetMore(q) && q == qid,
        },
{
    match request {
        RequestType::Query(query) => crate::query_engine::process_query(query),
        RequestType::More(qid) => Action::GetMore(qid),
    }
}

/// The response that reports one engine reaction.
pub fn reaction_to_response(reaction: Reaction) -> (r: ResponseType)
    ensures
        match reaction {
            Reaction::Error(err) => r matches ResponseType::Error(e) && e == err,
            Reaction::QueryStart { schema, qid } => r matches ResponseType::QueryHandle {
                schema: s2,
                qid: q2,
            } && s2 == schema && q2 == qid,
            Reaction::Data(rows) => r matches ResponseType::Data(d) && d == rows,
            Reaction::Empty => r matches ResponseType::Empty,
        },
{
    match reaction {
        Reaction::Error(err) => ResponseType::Error(err),
        Reaction::QueryStart { schema, qid } => ResponseType::QueryHandle { schema, qid },
        Reaction::Data(data) => ResponseType::Data(data),
        Reaction::Empty => ResponseType::Empty,
    }
}

} // verus!
