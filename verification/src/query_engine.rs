//! Translation of textual queries into engine actions.

use vstd::prelude::*;

use crate::storage_engine::Action;

verus! {

/// Maps a query string to the action the engine will run.  Query parsing is
/// not wired up yet, so every query reads the `currency` table whole.
pub fn process_query(query: String) -> (r: Action)
    ensures
        r matches Action::GetAll(t) && t@ == "currency"@,
{
    let _ = query;
    Action::GetAll(String::from_str("currency"))
}

} // verus!
