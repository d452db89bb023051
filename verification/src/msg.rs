use vstd::prelude::*;
use crate::state::{Entry, Priority, Status};

verus! {

/// What setting up a store takes.
#[derive(Debug, PartialEq, Eq)]
pub struct InstantiateMsg {
    pub owner: Option<String>,
}

/// The operations that change the store.
#[allow(inconsistent_fields)]
#[derive(Debug, PartialEq, Eq)]
pub enum ExecuteMsg {
    NewEntry { description: String, priority: Option<Priority>, owner: String },
    UpdateEntry {
        id: u64,
        description: Option<String>,
        status: Option<Status>,
        priority: Option<Priority>,
        owner: String,
    },
    DeleteEntry { id: u64, owner: String },
}

/// What a successful operation reports: the id of the record it touched.
#[derive(Clone, Copy, Debug, PartialEq, Eq, Structural)]
pub enum ExecuteResponse {
    NewEntry { new_entry_id: u64 },
    UpdatedEntry { updated_entry_id: u64 },
    DeletedEntry { deleted_entry_id: u64 },
}

/// The questions that the store answers.
#[derive(Debug, PartialEq, Eq)]
pub enum QueryMsg {
    QueryUserList { user: String, start_after: Option<u64>, limit: Option<u32> },
}

/// One page of an owner's records, in ascending order of id.
#[derive(Debug, PartialEq, Eq)]
pub struct ListResponse {
    pub entries: Vec<Entry>,
}

} // verus!
