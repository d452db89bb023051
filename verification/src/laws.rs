use vstd::prelude::*;
use crate::contract::{
    after_delete, after_update, authorized, effective_limit, lookup, owned_beyond, page, MAX_LIMIT,
};
use crate::error::ContractError;
use crate::table::{ascending, beyond};
use crate::state::{fresh_entry, EntryView, Priority, Status};

verus! {

/// The ids that `count` creations return, one after the other, on a store
/// whose sequence stands at `start`: each creation returns the counter plus
/// one and leaves the counter at what it returned.
pub open spec fn issued(start: int, count: nat) -> Seq<int>
    decreases count,
{
    if count == 0 {
        Seq::empty()
    } else {
        let earlier = issued(start, (count - 1) as nat);
        let counter = if earlier.len() == 0 {
            start
        } else {
            earlier.last()
        };
        earlier.push(counter + 1)
    }
}

/// Creations return consecutive ids: the first is one more than the sequence's
/// start, each later one is one more than the one before, so the ids grow
/// strictly, leave no gap and never repeat.
pub proof fn lemma_issued_ids_are_consecutive(start: int, count: nat)
    ensures
        issued(start, count).len() == count,
        forall|i: int| 0 <= i < count ==> #[trigger] issued(start, count)[i] == start + 1 + i,
        forall|i: int, j: int|
            0 <= i < j < count ==> #[trigger] issued(start, count)[i] < #[trigger] issued(
                start,
                count,
            )[j],
    decreases count,
{
    if count > 0 {
        lemma_issued_ids_are_consecutive(start, (count - 1) as nat);
    }
}

/// A record created without a priority has the default priority, and every
/// new record starts as `ToDo`.
pub proof fn lemma_new_entry_defaults(
    id: u64,
    description: Seq<char>,
    priority: Option<Priority>,
    owner: Seq<char>,
)
    ensures
        fresh_entry(id, description, priority, owner).status == Status::ToDo,
        fresh_entry(id, description, None, owner).priority == Priority::Unset,
        priority is Some ==> fresh_entry(id, description, priority, owner).priority
            == priority->Some_0,
{
}

/// An update by someone who does not own the record is refused as
/// `Unauthorized` and leaves every record as it was.
pub proof fn lemma_unauthorized_update_changes_nothing(
    records: Map<u64, EntryView>,
    id: u64,
    description: Option<Seq<char>>,
    status: Option<Status>,
    priority: Option<Priority>,
    owner: Seq<char>,
)
    requires
        records.contains_key(id),
        records[id].owner != owner,
    ensures
        authorized(records, id, owner) == Err::<u64, ContractError>(ContractError::Unauthorized),
        after_update(records, id, description, status, priority, owner) == records,
{
}

/// An update by the owner that supplies only a status changes the status of
/// that record and nothing else.
pub proof fn lemma_status_only_update(
    records: Map<u64, EntryView>,
    id: u64,
    status: Status,
    owner: Seq<char>,
)
    requires
        records.contains_key(id),
        records[id].owner == owner,
    ensures
        authorized(records, id, owner) == Ok::<u64, ContractError>(id),
        after_update(records, id, None, Some(status), None, owner) == records.insert(
            id,
            (EntryView { status, ..records[id] }),
        ),
{
}

/// A delete by someone who does not own the record is refused as
/// `Unauthorized` and the record stays; a delete by the owner removes it, so
/// that looking it up afterwards gives `NotFound`.
pub proof fn lemma_delete_needs_owner(records: Map<u64, EntryView>, id: u64, owner: Seq<char>)
    requires
        records.contains_key(id),
    ensures
        records[id].owner != owner ==> authorized(records, id, owner) == Err::<u64, ContractError>(
            ContractError::Unauthorized,
        ) && lookup(after_delete(records, id, owner), id) == Ok::<EntryView, ContractError>(
            records[id],
        ),
        records[id].owner == owner ==> authorized(records, id, owner) == Ok::<u64, ContractError>(
            id,
        ) && lookup(after_delete(records, id, owner), id) == Err::<EntryView, ContractError>(
            ContractError::NotFound,
        ),
{
}

/// A page never holds more records than the maximum page size, and never more
/// than were asked for.
pub proof fn lemma_page_is_capped(
    rows: Seq<(u64, EntryView)>,
    owner: Seq<char>,
    start_after: Option<u64>,
    limit: Option<u32>,
)
    ensures
        page(rows, owner, start_after, limit).len() <= MAX_LIMIT,
        page(rows, owner, start_after, limit).len() <= effective_limit(limit),
        limit is Some ==> page(rows, owner, start_after, limit).len() <= limit->Some_0,
{
}

/// The page of an owner who has no records is empty.
pub proof fn lemma_page_of_stranger_is_empty(
    rows: Seq<(u64, EntryView)>,
    owner: Seq<char>,
    start_after: Option<u64>,
    limit: Option<u32>,
)
    requires
        forall|i: int| 0 <= i < rows.len() ==> (#[trigger] rows[i]).1.owner != owner,
    ensures
        page(rows, owner, start_after, limit) == Seq::<EntryView>::empty(),
{
    let hits = owned_beyond(rows, owner, start_after);
    if hits.len() > 0 {
        let wanted = |row: (u64, EntryView)| beyond(start_after, row.0) && row.1.owner == owner;
        assert(hits == rows.filter(wanted));
        rows.lemma_filter_pred(wanted, 0);
        assert(hits.contains(hits[0]));
        rows.lemma_filter_contains_rev(wanted, hits[0]);
        assert(rows.contains(hits[0]));
    }
    assert(page(rows, owner, start_after, limit) =~= Seq::<EntryView>::empty());
}

/// A record that was just created is found under its id, with the fields that
/// were given, the assigned id, and the default status and priority.
pub proof fn lemma_create_then_get(
    records: Map<u64, EntryView>,
    id: u64,
    description: Seq<char>,
    priority: Option<Priority>,
    owner: Seq<char>,
)
    ensures
        lookup(records.insert(id, fresh_entry(id, description, priority, owner)), id) == Ok::<
            EntryView,
            ContractError,
        >(fresh_entry(id, description, priority, owner)),
        fresh_entry(id, description, priority, owner).id == id,
        fresh_entry(id, description, priority, owner).description == description,
        fresh_entry(id, description, priority, owner).owner == owner,
{
}

/// In ascending rows, the rows of `owner` beyond `start_after` are ascending
/// too, and a cursor that lies no lower than `start_after` cuts them in two:
/// the first `k` have keys up to the cursor, and the others are exactly the
/// rows of `owner` beyond the cursor.
pub proof fn lemma_cursor_splits_rows(
    rows: Seq<(u64, EntryView)>,
    owner: Seq<char>,
    start_after: Option<u64>,
    cursor: u64,
) -> (k: int)
    requires
        ascending(rows),
        start_after is Some ==> start_after->Some_0 <= cursor,
    ensures
        ascending(owned_beyond(rows, owner, start_after)),
        0 <= k <= owned_beyond(rows, owner, start_after).len(),
        forall|j: int| 0 <= j < k ==> owned_beyond(rows, owner, start_after)[j].0 <= cursor,
        forall|j: int|
            k <= j < owned_beyond(rows, owner, start_after).len() ==> owned_beyond(
                rows,
                owner,
                start_after,
            )[j].0 > cursor,
        owned_beyond(rows, owner, Some(cursor)) == owned_beyond(rows, owner, start_after).skip(k),
    decreases rows.len(),
{
    let p = |row: (u64, EntryView)| beyond(start_after, row.0) && row.1.owner == owner;
    let q = |row: (u64, EntryView)| beyond(Some(cursor), row.0) && row.1.owner == owner;
    let hits = owned_beyond(rows, owner, start_after);
    let later = owned_beyond(rows, owner, Some(cursor));
    assert(hits == rows.filter(p));
    assert(later == rows.filter(q));
    if rows.len() == 0 {
        rows.lemma_filter_len(p);
        rows.lemma_filter_len(q);
        assert(later =~= hits.skip(0));
        0
    } else {
        let front = rows.drop_last();
        let x = rows.last();
        assert(rows =~= front.push(x));
        front.lemma_filter_push(x, p);
        front.lemma_filter_push(x, q);
        let k0 = lemma_cursor_splits_rows(front, owner, start_after, cursor);
        let h0 = front.filter(p);
        assert(h0 == owned_beyond(front, owner, start_after));
        assert(front.filter(q) == owned_beyond(front, owner, Some(cursor)));
        assert forall|j: int| 0 <= j < h0.len() implies (#[trigger] h0[j]).0 < x.0 by {
            assert(h0.contains(h0[j]));
            front.lemma_filter_contains_rev(p, h0[j]);
            let i = choose|i: int| 0 <= i < front.len() && front[i] == h0[j];
            assert(rows[i].0 < rows[rows.len() - 1].0);
        }
        if q(x) {
            assert(p(x));
            assert(later =~= hits.skip(k0));
            k0
        } else if p(x) {
            if k0 < h0.len() {
                assert(h0[k0].0 > cursor);
                assert(h0[k0].0 < x.0);
            }
            assert(later =~= hits.skip(h0.len() as int + 1));
            h0.len() as int + 1
        } else {
            k0
        }
    }
}

/// Paging by cursor leaves nothing out and brings nothing twice: with the key
/// of the `n`-th record of a listing as the next cursor, the listing goes on
/// with exactly the records that follow those `n`.
pub proof fn lemma_next_page_continues(
    rows: Seq<(u64, EntryView)>,
    owner: Seq<char>,
    start_after: Option<u64>,
    n: int,
)
    requires
        ascending(rows),
        0 < n <= owned_beyond(rows, owner, start_after).len(),
    ensures
        owned_beyond(rows, owner, Some(owned_beyond(rows, owner, start_after)[n - 1].0))
            == owned_beyond(rows, owner, start_after).skip(n),
{
    let p = |row: (u64, EntryView)| beyond(start_after, row.0) && row.1.owner == owner;
    let hits = owned_beyond(rows, owner, start_after);
    assert(hits == rows.filter(p));
    rows.lemma_filter_pred(p, n - 1);
    let cursor = hits[n - 1].0;
    let k = lemma_cursor_splits_rows(rows, owner, start_after, cursor);
    if k < n {
        assert(hits[n - 1].0 > cursor);
    }
    if k > n {
        assert(hits[n].0 <= cursor);
        assert(hits[n - 1].0 < hits[n].0);
    }
}

} // verus!
