use cw_to_do_list::contract::{
    clamp_limit, contract_version, execute, instantiate, query, ContractVersion, Store,
    DEFAULT_LIMIT, MAX_LIMIT,
};
use cw_to_do_list::error::ContractError;
use cw_to_do_list::msg::{ExecuteMsg, ExecuteResponse, InstantiateMsg, ListResponse, QueryMsg};
use cw_to_do_list::state::{Entry, Priority, Status};

fn s(text: &str) -> String {
    text.to_string()
}

fn entry(id: u64, description: &str, status: Status, priority: Priority, owner: &str) -> Entry {
    Entry { id, description: s(description), status, priority, owner: s(owner) }
}

fn ids(entries: &[Entry]) -> Vec<u64> {
    entries.iter().map(|e| e.id).collect()
}

fn alice_and_bob() -> Store {
    let mut store = Store::new();
    assert_eq!(store.create(s("a1"), None, s("alice")), 1);
    assert_eq!(store.create(s("a2"), Some(Priority::Low), s("alice")), 2);
    assert_eq!(store.create(s("a3"), Some(Priority::High), s("alice")), 3);
    assert_eq!(store.create(s("b1"), None, s("bob")), 4);
    store
}

#[test]
fn created_ids_count_up_from_one() {
    let mut store = Store::new();
    assert_eq!(store.last_id(), 0);
    for expected in 1..=50u64 {
        let id = store.create(format!("task {}", expected), None, s("alice"));
        assert_eq!(id, expected);
        assert_eq!(store.last_id(), expected);
    }
}

#[test]
fn ids_are_not_reused_after_delete() {
    let mut store = Store::new();
    assert_eq!(store.create(s("one"), None, s("alice")), 1);
    assert_eq!(store.create(s("two"), None, s("alice")), 2);
    assert_eq!(store.delete(2, s("alice")), Ok(2));
    assert_eq!(store.create(s("three"), None, s("alice")), 3);
    assert_eq!(store.get(2), Err(ContractError::NotFound));
}

#[test]
fn create_without_priority_uses_defaults() {
    let mut store = Store::new();
    let id = store.create(s("write notes"), None, s("alice"));
    assert_eq!(
        store.get(id),
        Ok(entry(1, "write notes", Status::ToDo, Priority::Unset, "alice"))
    );
}

#[test]
fn create_then_get_round_trips() {
    let mut store = Store::new();
    store.create(s("first"), None, s("bob"));
    let id = store.create(s("second"), Some(Priority::Medium), s("alice"));
    assert_eq!(id, 2);
    assert_eq!(
        store.get(id),
        Ok(entry(2, "second", Status::ToDo, Priority::Medium, "alice"))
    );
    assert_eq!(store.get(1), Ok(entry(1, "first", Status::ToDo, Priority::Unset, "bob")));
}

#[test]
fn get_of_missing_id_is_not_found() {
    let store = Store::new();
    assert_eq!(store.get(0), Err(ContractError::NotFound));
    assert_eq!(store.get(1), Err(ContractError::NotFound));
}

#[test]
fn update_by_stranger_changes_nothing() {
    let mut store = Store::new();
    let id = store.create(s("mine"), Some(Priority::High), s("alice"));
    let before = store.get(id);
    let refused = store.update(
        id,
        Some(s("stolen")),
        Some(Status::Done),
        Some(Priority::Low),
        s("mallory"),
    );
    assert_eq!(refused, Err(ContractError::Unauthorized));
    assert_eq!(store.get(id), before);
    assert_eq!(store.get(id), Ok(entry(1, "mine", Status::ToDo, Priority::High, "alice")));
}

#[test]
fn owner_match_is_case_sensitive() {
    let mut store = Store::new();
    let id = store.create(s("mine"), None, s("alice"));
    assert_eq!(
        store.update(id, None, Some(Status::Done), None, s("Alice")),
        Err(ContractError::Unauthorized)
    );
    assert_eq!(store.delete(id, s("ALICE")), Err(ContractError::Unauthorized));
    assert_eq!(store.delete(id, s("alice ")), Err(ContractError::Unauthorized));
}

#[test]
fn update_of_missing_id_is_not_found() {
    let mut store = Store::new();
    store.create(s("mine"), None, s("alice"));
    assert_eq!(
        store.update(7, None, Some(Status::Done), None, s("alice")),
        Err(ContractError::NotFound)
    );
    assert_eq!(
        store.update(7, None, None, None, s("nobody")),
        Err(ContractError::NotFound)
    );
}

#[test]
fn update_with_status_only_changes_status_alone() {
    let mut store = Store::new();
    let id = store.create(s("mine"), Some(Priority::Medium), s("alice"));
    assert_eq!(store.update(id, None, Some(Status::InProgress), None, s("alice")), Ok(1));
    assert_eq!(
        store.get(id),
        Ok(entry(1, "mine", Status::InProgress, Priority::Medium, "alice"))
    );
}

#[test]
fn update_replaces_each_supplied_field() {
    let mut store = Store::new();
    let id = store.create(s("old"), None, s("alice"));
    assert_eq!(store.update(id, Some(s("new")), None, None, s("alice")), Ok(1));
    assert_eq!(store.get(id), Ok(entry(1, "new", Status::ToDo, Priority::Unset, "alice")));
    assert_eq!(store.update(id, None, None, Some(Priority::High), s("alice")), Ok(1));
    assert_eq!(store.get(id), Ok(entry(1, "new", Status::ToDo, Priority::High, "alice")));
    assert_eq!(
        store.update(id, Some(s("last")), Some(Status::Done), Some(Priority::Low), s("alice")),
        Ok(1)
    );
    assert_eq!(store.get(id), Ok(entry(1, "last", Status::Done, Priority::Low, "alice")));
    assert_eq!(store.update(id, None, None, None, s("alice")), Ok(1));
    assert_eq!(store.get(id), Ok(entry(1, "last", Status::Done, Priority::Low, "alice")));
}

#[test]
fn delete_by_stranger_keeps_the_record() {
    let mut store = Store::new();
    let id = store.create(s("mine"), None, s("alice"));
    assert_eq!(store.delete(id, s("bob")), Err(ContractError::Unauthorized));
    assert_eq!(store.get(id), Ok(entry(1, "mine", Status::ToDo, Priority::Unset, "alice")));
}

#[test]
fn delete_by_owner_removes_the_record() {
    let mut store = Store::new();
    let id = store.create(s("mine"), None, s("alice"));
    assert_eq!(store.delete(id, s("alice")), Ok(1));
    assert_eq!(store.get(id), Err(ContractError::NotFound));
}

#[test]
fn second_delete_is_not_found() {
    let mut store = Store::new();
    let id = store.create(s("mine"), None, s("alice"));
    assert_eq!(store.delete(id, s("alice")), Ok(1));
    assert_eq!(store.delete(id, s("alice")), Err(ContractError::NotFound));
}

#[test]
fn list_by_owner_pages_through_alices_records() {
    let store = alice_and_bob();
    let first = store.list_by_owner(&s("alice"), None, Some(2));
    assert_eq!(
        first,
        vec![
            entry(1, "a1", Status::ToDo, Priority::Unset, "alice"),
            entry(2, "a2", Status::ToDo, Priority::Low, "alice"),
        ]
    );
    let second = store.list_by_owner(&s("alice"), Some(2), Some(2));
    assert_eq!(second, vec![entry(3, "a3", Status::ToDo, Priority::High, "alice")]);
    let third = store.list_by_owner(&s("alice"), Some(3), Some(2));
    assert_eq!(third, Vec::<Entry>::new());
}

#[test]
fn list_by_owner_leaves_out_other_owners() {
    let store = alice_and_bob();
    assert_eq!(ids(&store.list_by_owner(&s("bob"), None, None)), vec![4]);
    assert_eq!(ids(&store.list_by_owner(&s("alice"), None, None)), vec![1, 2, 3]);
    assert_eq!(ids(&store.list_by_owner(&s("bob"), Some(3), None)), vec![4]);
    assert_eq!(ids(&store.list_by_owner(&s("bob"), Some(4), None)), Vec::<u64>::new());
}

#[test]
fn list_by_owner_cursor_is_exclusive() {
    let store = alice_and_bob();
    assert_eq!(ids(&store.list_by_owner(&s("alice"), Some(0), None)), vec![1, 2, 3]);
    assert_eq!(ids(&store.list_by_owner(&s("alice"), Some(1), None)), vec![2, 3]);
    assert_eq!(ids(&store.list_by_owner(&s("alice"), Some(u64::MAX), None)), Vec::<u64>::new());
}

#[test]
fn list_by_owner_clamps_the_limit_to_thirty() {
    let mut store = Store::new();
    for i in 0..40u64 {
        store.create(format!("task {}", i), None, s("alice"));
    }
    let page = store.list_by_owner(&s("alice"), None, Some(100));
    assert_eq!(page.len(), 30);
    assert_eq!(ids(&page), (1..=30u64).collect::<Vec<u64>>());
    let next = store.list_by_owner(&s("alice"), Some(30), Some(100));
    assert_eq!(ids(&next), (31..=40u64).collect::<Vec<u64>>());
}

#[test]
fn list_by_owner_defaults_to_ten() {
    let mut store = Store::new();
    for i in 0..15u64 {
        store.create(format!("task {}", i), None, s("alice"));
    }
    let page = store.list_by_owner(&s("alice"), None, None);
    assert_eq!(ids(&page), (1..=10u64).collect::<Vec<u64>>());
}

#[test]
fn list_by_owner_with_limit_zero_is_empty() {
    let store = alice_and_bob();
    assert_eq!(store.list_by_owner(&s("alice"), None, Some(0)), Vec::<Entry>::new());
}

#[test]
fn list_by_owner_without_records_is_empty() {
    let store = alice_and_bob();
    assert_eq!(store.list_by_owner(&s("carol"), None, None), Vec::<Entry>::new());
    let empty = Store::new();
    assert_eq!(empty.list_by_owner(&s("alice"), None, Some(5)), Vec::<Entry>::new());
}

#[test]
fn list_by_owner_skips_interleaved_owners() {
    let mut store = Store::new();
    for i in 1..=9u64 {
        let owner = if i % 3 == 0 { "alice" } else { "bob" };
        store.create(format!("task {}", i), None, s(owner));
    }
    assert_eq!(ids(&store.list_by_owner(&s("alice"), None, Some(2))), vec![3, 6]);
    assert_eq!(ids(&store.list_by_owner(&s("alice"), Some(6), Some(2))), vec![9]);
    assert_eq!(ids(&store.list_by_owner(&s("bob"), Some(2), Some(3))), vec![4, 5, 7]);
}

#[test]
fn clamp_limit_gives_the_page_size_in_force() {
    assert_eq!(DEFAULT_LIMIT, 10);
    assert_eq!(MAX_LIMIT, 30);
    assert_eq!(clamp_limit(None), 10);
    assert_eq!(clamp_limit(Some(0)), 0);
    assert_eq!(clamp_limit(Some(5)), 5);
    assert_eq!(clamp_limit(Some(30)), 30);
    assert_eq!(clamp_limit(Some(31)), 30);
    assert_eq!(clamp_limit(Some(100)), 30);
    assert_eq!(clamp_limit(Some(u32::MAX)), 30);
}

#[test]
fn instantiate_gives_an_empty_store() {
    let store = instantiate(InstantiateMsg { owner: None });
    assert_eq!(store.last_id(), 0);
    assert!(!store.is_full());
    assert_eq!(store.list_by_owner(&s("alice"), None, None), Vec::<Entry>::new());
    let named = instantiate(InstantiateMsg { owner: Some(s("alice")) });
    assert_eq!(named.last_id(), 0);
}

#[test]
fn execute_carries_out_each_message() {
    let mut store = instantiate(InstantiateMsg { owner: None });
    let created = execute(
        &mut store,
        ExecuteMsg::NewEntry { description: s("task"), priority: Some(Priority::Low), owner: s("alice") },
    );
    assert_eq!(created, Ok(ExecuteResponse::NewEntry { new_entry_id: 1 }));
    let refused = execute(
        &mut store,
        ExecuteMsg::UpdateEntry {
            id: 1,
            description: None,
            status: Some(Status::Done),
            priority: None,
            owner: s("bob"),
        },
    );
    assert_eq!(refused, Err(ContractError::Unauthorized));
    let updated = execute(
        &mut store,
        ExecuteMsg::UpdateEntry {
            id: 1,
            description: None,
            status: Some(Status::Done),
            priority: None,
            owner: s("alice"),
        },
    );
    assert_eq!(updated, Ok(ExecuteResponse::UpdatedEntry { updated_entry_id: 1 }));
    assert_eq!(store.get(1), Ok(entry(1, "task", Status::Done, Priority::Low, "alice")));
    let missing = execute(&mut store, ExecuteMsg::DeleteEntry { id: 9, owner: s("alice") });
    assert_eq!(missing, Err(ContractError::NotFound));
    let deleted = execute(&mut store, ExecuteMsg::DeleteEntry { id: 1, owner: s("alice") });
    assert_eq!(deleted, Ok(ExecuteResponse::DeletedEntry { deleted_entry_id: 1 }));
    assert_eq!(store.get(1), Err(ContractError::NotFound));
}

#[test]
fn query_lists_a_users_records() {
    let store = alice_and_bob();
    let answer = query(
        &store,
        QueryMsg::QueryUserList { user: s("alice"), start_after: Some(1), limit: Some(1) },
    );
    assert_eq!(
        answer,
        ListResponse { entries: vec![entry(2, "a2", Status::ToDo, Priority::Low, "alice")] }
    );
    let all = query(&store, QueryMsg::QueryUserList { user: s("bob"), start_after: None, limit: None });
    assert_eq!(ids(&all.entries), vec![4]);
}

#[test]
fn error_messages_name_the_error() {
    assert_eq!(ContractError::NotFound.message(), "entry not found");
    assert_eq!(ContractError::Unauthorized.message(), "Unauthorized");
}

#[test]
fn restore_rebuilds_a_store() {
    let store = Store::restore(
        5,
        vec![
            entry(4, "d", Status::Done, Priority::Low, "bob"),
            entry(2, "b", Status::ToDo, Priority::Unset, "alice"),
            entry(5, "e", Status::InProgress, Priority::High, "alice"),
        ],
    );
    let mut store = store.expect("every id is within the sequence");
    assert_eq!(store.last_id(), 5);
    assert_eq!(ids(&store.list_by_owner(&s("alice"), None, None)), vec![2, 5]);
    assert_eq!(store.get(4), Ok(entry(4, "d", Status::Done, Priority::Low, "bob")));
    assert_eq!(store.create(s("f"), None, s("bob")), 6);
}

#[test]
fn restore_keeps_the_later_of_two_records_with_one_id() {
    let store = Store::restore(
        3,
        vec![
            entry(2, "first", Status::ToDo, Priority::Unset, "alice"),
            entry(2, "second", Status::Done, Priority::Unset, "alice"),
        ],
    )
    .expect("every id is within the sequence");
    assert_eq!(store.get(2), Ok(entry(2, "second", Status::Done, Priority::Unset, "alice")));
}

#[test]
fn restore_refuses_ids_that_were_never_handed_out() {
    assert!(Store::restore(3, vec![entry(4, "x", Status::ToDo, Priority::Unset, "alice")]).is_none());
    assert!(Store::restore(3, vec![entry(0, "x", Status::ToDo, Priority::Unset, "alice")]).is_none());
    assert!(Store::restore(0, vec![entry(1, "x", Status::ToDo, Priority::Unset, "alice")]).is_none());
    assert!(Store::restore(0, Vec::new()).is_some());
    assert!(Store::restore(u64::MAX, Vec::new()).expect("no records").is_full());
}

fn current_tag() -> ContractVersion {
    ContractVersion { contract: s("crates.io:cw-to-do-list"), version: s("0.1.0") }
}

#[test]
fn contract_version_names_the_store_and_its_version() {
    assert_eq!(contract_version(), current_tag());
}

#[test]
fn instantiate_records_the_version_tag() {
    let store = instantiate(InstantiateMsg { owner: None });
    assert_eq!(store.version(), &current_tag());
    assert_eq!(store.version().contract, "crates.io:cw-to-do-list");
    assert_eq!(store.version().version, "0.1.0");
    let named = instantiate(InstantiateMsg { owner: Some(s("alice")) });
    assert_eq!(named.version(), &current_tag());
    assert_eq!(named.last_id(), 0);
    assert_eq!(named.get(1), Err(ContractError::NotFound));
}

#[test]
fn version_tag_stays_through_every_operation() {
    let mut store = Store::new();
    assert_eq!(store.version(), &current_tag());
    store.create(s("a"), None, s("alice"));
    assert_eq!(store.version(), &current_tag());
    assert_eq!(store.update(1, None, Some(Status::Done), None, s("alice")), Ok(1));
    assert_eq!(store.version(), &current_tag());
    assert_eq!(store.update(1, None, None, None, s("bob")), Err(ContractError::Unauthorized));
    assert_eq!(store.version(), &current_tag());
    assert_eq!(store.delete(1, s("alice")), Ok(1));
    assert_eq!(store.version(), &current_tag());
    let restored = Store::restore(3, Vec::new()).expect("no records");
    assert_eq!(restored.version(), &current_tag());
}
