use vstd::prelude::*;
use crate::error::ContractError;
use crate::msg::{ExecuteMsg, ExecuteResponse, InstantiateMsg, ListResponse, QueryMsg};
use crate::sequence::Sequence;
use crate::state::{fresh_entry, patched, text_view, Entry, EntryView, Priority, Status};
use crate::table::{as_map, ascending, beyond, RecordTable};

verus! {

/// The page size where the caller names none.
pub const DEFAULT_LIMIT: u32 = 10;

/// The largest page size; a larger request is cut down to it.
pub const MAX_LIMIT: u32 = 30;

/// The record under `id`, or `NotFound`.
pub open spec fn lookup(records: Map<u64, EntryView>, id: u64) -> Result<EntryView, ContractError> {
    if records.contains_key(id) {
        Ok(records[id])
    } else {
        Err(ContractError::NotFound)
    }
}

/// Whether `owner` may change the record under `id`: existence is checked
/// first, then ownership.
pub open spec fn authorized(records: Map<u64, EntryView>, id: u64, owner: Seq<char>) -> Result<
    u64,
    ContractError,
> {
    if !records.contains_key(id) {
        Err(ContractError::NotFound)
    } else if records[id].owner != owner {
        Err(ContractError::Unauthorized)
    } else {
        Ok(id)
    }
}

/// The records after an update: changed only where the update is authorized.
pub open spec fn after_update(
    records: Map<u64, EntryView>,
    id: u64,
    description: Option<Seq<char>>,
    status: Option<Status>,
    priority: Option<Priority>,
    owner: Seq<char>,
) -> Map<u64, EntryView> {
    if authorized(records, id, owner) is Ok {
        records.insert(id, patched(records[id], description, status, priority))
    } else {
        records
    }
}

/// The records after a delete: changed only where the delete is authorized.
pub open spec fn after_delete(records: Map<u64, EntryView>, id: u64, owner: Seq<char>) -> Map<
    u64,
    EntryView,
> {
    if authorized(records, id, owner) is Ok {
        records.remove(id)
    } else {
        records
    }
}

/// The page size in force: the requested one, or the default, and never more
/// than the maximum.
pub open spec fn effective_limit(limit: Option<u32>) -> nat {
    let asked = match limit {
        Some(n) => n,
        None => DEFAULT_LIMIT,
    };
    if asked <= MAX_LIMIT {
        asked as nat
    } else {
        MAX_LIMIT as nat
    }
}

/// The rows of `owner` whose keys lie strictly beyond the cursor, in their order.
pub open spec fn owned_beyond(
    rows: Seq<(u64, EntryView)>,
    owner: Seq<char>,
    start_after: Option<u64>,
) -> Seq<(u64, EntryView)> {
    rows.filter(|row: (u64, EntryView)| beyond(start_after, row.0) && row.1.owner == owner)
}

/// One page: the first records of `owner` beyond the cursor, as many as the
/// page size in force allows.
pub open spec fn page(
    rows: Seq<(u64, EntryView)>,
    owner: Seq<char>,
    start_after: Option<u64>,
    limit: Option<u32>,
) -> Seq<EntryView> {
    let hits = owned_beyond(rows, owner, start_after);
    let count = if hits.len() <= effective_limit(limit) {
        hits.len()
    } else {
        effective_limit(limit)
    };
    Seq::new(count, |i: int| hits[i].1)
}

/// A filter that no element passes leaves nothing.
proof fn lemma_filter_none(
    rows: Seq<(u64, EntryView)>,
    wanted: spec_fn((u64, EntryView)) -> bool,
)
    requires
        forall|i: int| 0 <= i < rows.len() ==> !wanted(#[trigger] rows[i]),
    ensures
        rows.filter(wanted) == Seq::<(u64, EntryView)>::empty(),
{
    let hits = rows.filter(wanted);
    if hits.len() > 0 {
        rows.lemma_filter_pred(wanted, 0);
        assert(hits.contains(hits[0]));
        rows.lemma_filter_contains_rev(wanted, hits[0]);
    }
    assert(hits =~= Seq::<(u64, EntryView)>::empty());
}

/// The values of a list of records.
pub open spec fn entry_views(entries: Seq<Entry>) -> Seq<EntryView> {
    Seq::new(entries.len(), |i: int| entries[i]@)
}

/// The mapping that loading `entries` one after the other gives: each record
/// under its own id, a later record in place of an earlier one with the same id.
pub open spec fn loaded(entries: Seq<EntryView>) -> Map<u64, EntryView>
    decreases entries.len(),
{
    if entries.len() == 0 {
        Map::empty()
    } else {
        loaded(entries.drop_last()).insert(entries.last().id, entries.last())
    }
}

/// Whether a store whose sequence stands at `last_id` can hold `entries`: every
/// id among them was handed out already.
pub open spec fn loadable(last_id: u64, entries: Seq<EntryView>) -> bool {
    forall|i: int| 0 <= i < entries.len() ==> 1 <= (#[trigger] entries[i]).id <= last_id
}

/// The page size in force for a requested one.
pub fn clamp_limit(limit: Option<u32>) -> (size: u32)
    ensures
        size == effective_limit(limit),
        size <= MAX_LIMIT,
{
    let asked = match limit {
        Some(n) => n,
        None => DEFAULT_LIMIT,
    };
    if asked <= MAX_LIMIT {
        asked
    } else {
        MAX_LIMIT
    }
}

/// The record store: its version tag, the identifier sequence and the table of records.
pub struct Store {
    version: ContractVersion,
    seq: Sequence,
    list: RecordTable,
}

impl Store {
    /// The version tag that the store records: name and version.
    pub closed spec fn tag(&self) -> (Seq<char>, Seq<char>) {
        self.version@
    }

    /// The identifier handed out last, or 0 when none was.
    pub closed spec fn seq(&self) -> u64 {
        self.seq@
    }

    /// The table's rows, key and record, in ascending order of key.
    pub closed spec fn rows(&self) -> Seq<(u64, EntryView)> {
        self.list.rows()
    }

    /// The mapping from id to record that the store holds.
    pub open spec fn records(&self) -> Map<u64, EntryView> {
        as_map(self.rows())
    }

    /// The store's invariant: keys grow along the rows, each record carries the
    /// id it is stored under, and every id in use was handed out by the sequence.
    pub open spec fn wf(&self) -> bool {
        &&& ascending(self.rows())
        &&& forall|k: u64| #[trigger]
            self.records().contains_key(k) ==> self.records()[k].id == k && 1 <= k <= self.seq()
    }

    /// An empty store of the current version whose sequence has handed out nothing.
    pub fn new() -> (store: Store)
        ensures
            store.wf(),
            store.tag() == current_tag(),
            store.seq() == 0,
            store.rows() == Seq::<(u64, EntryView)>::empty(),
            store.records() == Map::<u64, EntryView>::empty(),
    {
        Store { version: contract_version(), seq: Sequence::new(), list: RecordTable::new() }
    }

    /// A store of the current version that holds `entries`, with the sequence at
    /// `last_id`, or nothing where a record has an id that was never handed out.
    pub fn restore(last_id: u64, entries: Vec<Entry>) -> (restored: Option<Store>)
        ensures
            match restored {
                Some(store) => {
                    &&& loadable(last_id, entry_views(entries@))
                    &&& store.wf()
                    &&& store.tag() == current_tag()
                    &&& store.seq() == last_id
                    &&& store.records() == loaded(entry_views(entries@))
                },
                None => !loadable(last_id, entry_views(entries@)),
            },
    {
        let mut list = RecordTable::new();
        let ghost views = entry_views(entries@);
        let mut i: usize = 0;
        while i < entries.len()
            invariant
                i <= entries.len(),
                views == entry_views(entries@),
                list.wf(),
                list@ == loaded(views.take(i as int)),
                forall|k: u64| #[trigger]
                    list@.contains_key(k) ==> list@[k].id == k && 1 <= k <= last_id,
                forall|j: int| 0 <= j < i ==> 1 <= (#[trigger] views[j]).id <= last_id,
            decreases entries.len() - i,
        {
            let record = entries[i].clone();
            if record.id < 1 || record.id > last_id {
                proof {
                    assert(!(1 <= views[i as int].id <= last_id));
                }
                return None;
            }
            proof {
                assert(views.take(i + 1).drop_last() =~= views.take(i as int));
                assert(views.take(i + 1).last() == views[i as int]);
            }
            list.put(record.id, record);
            i = i + 1;
        }
        proof {
            assert(views.take(i as int) =~= views);
        }
        Some(Store { version: contract_version(), seq: Sequence::resume(last_id), list })
    }

    /// The version tag that the store records.
    pub fn version(&self) -> (tag: &ContractVersion)
        ensures
            tag@ == self.tag(),
    {
        &self.version
    }

    /// The identifier handed out last, or 0 when none was.
    pub fn last_id(&self) -> (id: u64)
        ensures
            id == self.seq(),
    {
        self.seq.last()
    }

    /// Whether the sequence has run out, so that nothing can be created.
    pub fn is_full(&self) -> (full: bool)
        ensures
            full == (self.seq() == u64::MAX),
    {
        self.seq.is_exhausted()
    }

    /// The record stored under `id`, or `NotFound`.
    pub fn get(&self, id: u64) -> (found: Result<Entry, ContractError>)
        requires
            self.wf(),
        ensures
            match found {
                Ok(record) => lookup(self.records(), id) == Ok::<EntryView, ContractError>(
                    record@,
                ),
                Err(e) => lookup(self.records(), id) == Err::<EntryView, ContractError>(e),
            },
    {
        self.list.get(id)
    }

    /// Creates a record for `owner` under the next id and returns that id. The
    /// record starts as `ToDo`, with the given priority or none.
    pub fn create(&mut self, description: String, priority: Option<Priority>, owner: String) -> (id:
        u64)
        requires
            old(self).wf(),
            old(self).seq() < u64::MAX,
        ensures
            final(self).wf(),
            id == old(self).seq() + 1,
            final(self).seq() == id,
            final(self).tag() == old(self).tag(),
            !old(self).records().contains_key(id),
            final(self).records() == old(self).records().insert(
                id,
                fresh_entry(id, description@, priority, owner@),
            ),
    {
        let id = self.seq.next();
        let entry = Entry::new(id, description, priority, owner);
        self.list.put(id, entry);
        id
    }

    /// Changes the supplied fields of the record under `id`, if `owner` owns it.
    /// A refused update changes nothing.
    pub fn update(
        &mut self,
        id: u64,
        description: Option<String>,
        status: Option<Status>,
        priority: Option<Priority>,
        owner: String,
    ) -> (updated: Result<u64, ContractError>)
        requires
            old(self).wf(),
        ensures
            final(self).wf(),
            final(self).seq() == old(self).seq(),
            final(self).tag() == old(self).tag(),
            updated == authorized(old(self).records(), id, owner@),
            final(self).records() == after_update(
                old(self).records(),
                id,
                text_view(description),
                status,
                priority,
                owner@,
            ),
            updated is Err ==> final(self).rows() == old(self).rows(),
    {
        match self.list.get(id) {
            Err(_) => Err(ContractError::NotFound),
            Ok(prior) => {
                if !prior.is_owned_by(&owner) {
                    Err(ContractError::Unauthorized)
                } else {
                    let entry = prior.apply(description, status, priority);
                    self.list.put(id, entry);
                    Ok(id)
                }
            },
        }
    }

    /// Removes the record under `id`, if `owner` owns it. A refused delete
    /// changes nothing.
    pub fn delete(&mut self, id: u64, owner: String) -> (deleted: Result<u64, ContractError>)
        requires
            old(self).wf(),
        ensures
            final(self).wf(),
            final(self).seq() == old(self).seq(),
            final(self).tag() == old(self).tag(),
            deleted == authorized(old(self).records(), id, owner@),
            final(self).records() == after_delete(old(self).records(), id, owner@),
            deleted is Err ==> final(self).rows() == old(self).rows(),
    {
        match self.list.get(id) {
            Err(_) => Err(ContractError::NotFound),
            Ok(prior) => {
                if !prior.is_owned_by(&owner) {
                    Err(ContractError::Unauthorized)
                } else {
                    self.list.delete(id);
                    Ok(id)
                }
            },
        }
    }

    /// One page of the records of `owner`, in ascending order of id: those with
    /// an id beyond `start_after`, at most as many as the page size in force.
    pub fn list_by_owner(&self, owner: &String, start_after: Option<u64>, limit: Option<u32>) -> (entries:
        Vec<Entry>)
        requires
            self.wf(),
        ensures
            entry_views(entries@) == page(self.rows(), owner@, start_after, limit),
            entries.len() <= MAX_LIMIT,
    {
        let cap = clamp_limit(limit) as usize;
        let n = self.list.len();
        let start = self.list.first_after(start_after);
        let mut entries: Vec<Entry> = Vec::new();
        let mut i: usize = start;
        let ghost rows = self.rows();
        let ghost wanted = |row: (u64, EntryView)|
            beyond(start_after, row.0) && row.1.owner == owner@;
        proof {
            assert(rows.subrange(start as int, i as int) =~= Seq::<(u64, EntryView)>::empty());
            rows.subrange(start as int, i as int).lemma_filter_len(wanted);
        }
        while i < n && entries.len() < cap
            invariant
                rows == self.list.rows(),
                n == rows.len(),
                start <= i <= n,
                forall|k: int| start <= k < n ==> beyond(start_after, (#[trigger] rows[k]).0),
                entries.len() <= cap,
                wanted == |row: (u64, EntryView)|
                    beyond(start_after, row.0) && row.1.owner == owner@,
                entries.len() == rows.subrange(start as int, i as int).filter(wanted).len(),
                forall|j: int|
                    0 <= j < entries.len() ==> (#[trigger] entries@[j])@ == rows.subrange(
                        start as int,
                        i as int,
                    ).filter(wanted)[j].1,
            decreases n - i,
        {
            let record = self.list.record_at(i);
            if record.is_owned_by(owner) {
                entries.push(record.clone());
            }
            proof {
                let seen = rows.subrange(start as int, i as int);
                assert(beyond(start_after, rows[i as int].0));
                assert(rows.subrange(start as int, i + 1) =~= seen.push(rows[i as int]));
                seen.lemma_filter_push(rows[i as int], wanted);
            }
            i = i + 1;
        }
        proof {
            let skipped = rows.take(start as int);
            let seen = rows.subrange(start as int, i as int);
            let rest = rows.skip(i as int);
            assert(rows =~= (skipped + seen) + rest);
            Seq::filter_distributes_over_add(skipped + seen, rest, wanted);
            Seq::filter_distributes_over_add(skipped, seen, wanted);
            lemma_filter_none(skipped, wanted);
            assert(skipped.filter(wanted) + seen.filter(wanted) =~= seen.filter(wanted));
            assert(owned_beyond(rows, owner@, start_after) == seen.filter(wanted) + rest.filter(
                wanted,
            ));
            if i == n {
                rest.lemma_filter_len(wanted);
            }
            assert(entry_views(entries@) =~= page(rows, owner@, start_after, limit));
        }
        entries
    }
}

/// Sets up a store, whatever `msg` holds: the current version tag, the sequence at 0, no records.
pub fn instantiate(msg: InstantiateMsg) -> (store: Store)
    ensures
        store.wf(),
        store.tag() == current_tag(),
        store.seq() == 0,
        store.rows() == Seq::<(u64, EntryView)>::empty(),
        store.records() == Map::<u64, EntryView>::empty(),
{
    Store::new()
}

/// Whether `msg` can be carried out on a store whose sequence stands at `seq`:
/// a creation needs an identifier that is still free.
pub open spec fn can_execute(seq: u64, msg: ExecuteMsg) -> bool {
    msg is NewEntry ==> seq < u64::MAX
}

/// What carrying out `msg` reports.
pub open spec fn execute_result(records: Map<u64, EntryView>, seq: u64, msg: ExecuteMsg) -> Result<
    ExecuteResponse,
    ContractError,
> {
    match msg {
        ExecuteMsg::NewEntry { .. } => Ok(
            ExecuteResponse::NewEntry { new_entry_id: (seq + 1) as u64 },
        ),
        ExecuteMsg::UpdateEntry { id, owner, .. } => match authorized(records, id, owner@) {
            Ok(id) => Ok(ExecuteResponse::UpdatedEntry { updated_entry_id: id }),
            Err(e) => Err(e),
        },
        ExecuteMsg::DeleteEntry { id, owner } => match authorized(records, id, owner@) {
            Ok(id) => Ok(ExecuteResponse::DeletedEntry { deleted_entry_id: id }),
            Err(e) => Err(e),
        },
    }
}

/// The records after carrying out `msg`.
pub open spec fn execute_records(records: Map<u64, EntryView>, seq: u64, msg: ExecuteMsg) -> Map<
    u64,
    EntryView,
> {
    match msg {
        ExecuteMsg::NewEntry { description, priority, owner } => records.insert(
            (seq + 1) as u64,
            fresh_entry((seq + 1) as u64, description@, priority, owner@),
        ),
        ExecuteMsg::UpdateEntry { id, description, status, priority, owner } => after_update(
            records,
            id,
            text_view(description),
            status,
            priority,
            owner@,
        ),
        ExecuteMsg::DeleteEntry { id, owner } => after_delete(records, id, owner@),
    }
}

/// Carries out one changing operation on the store.
pub fn execute(store: &mut Store, msg: ExecuteMsg) -> (done: Result<ExecuteResponse, ContractError>)
    requires
        old(store).wf(),
        can_execute(old(store).seq(), msg),
    ensures
        final(store).wf(),
        final(store).tag() == old(store).tag(),
        done == execute_result(old(store).records(), old(store).seq(), msg),
        final(store).records() == execute_records(old(store).records(), old(store).seq(), msg),
        final(store).seq() == (if msg is NewEntry {
            old(store).seq() + 1
        } else {
            old(store).seq() as int
        }),
{
    match msg {
        ExecuteMsg::NewEntry { description, priority, owner } => {
            let id = store.create(description, priority, owner);
            Ok(ExecuteResponse::NewEntry { new_entry_id: id })
        },
        ExecuteMsg::UpdateEntry { id, description, status, priority, owner } => {
            match store.update(id, description, status, priority, owner) {
                Ok(id) => Ok(ExecuteResponse::UpdatedEntry { updated_entry_id: id }),
                Err(e) => Err(e),
            }
        },
        ExecuteMsg::DeleteEntry { id, owner } => {
            match store.delete(id, owner) {
                Ok(id) => Ok(ExecuteResponse::DeletedEntry { deleted_entry_id: id }),
                Err(e) => Err(e),
            }
        },
    }
}

/// Answers one question about the store.
pub fn query(store: &Store, msg: QueryMsg) -> (answer: ListResponse)
    requires
        store.wf(),
    ensures
        match msg {
            QueryMsg::QueryUserList { user, start_after, limit } => entry_views(answer.entries@)
                == page(store.rows(), user@, start_after, limit),
        },
        answer.entries.len() <= MAX_LIMIT,
{
    match msg {
        QueryMsg::QueryUserList { user, start_after, limit } => {
            let entries = store.list_by_owner(&user, start_after, limit);
            ListResponse { entries }
        },
    }
}

/// The tag that names this store and the version of its layout.
#[derive(Debug, PartialEq, Eq)]
pub struct ContractVersion {
    pub contract: String,
    pub version: String,
}

impl View for ContractVersion {
    type V = (Seq<char>, Seq<char>);

    /// The name and the version, in this order.
    open spec fn view(&self) -> (Seq<char>, Seq<char>) {
        (self.contract@, self.version@)
    }
}

/// The tag that setting up a store records: the name of this store and the
/// version of its layout.
pub open spec fn current_tag() -> (Seq<char>, Seq<char>) {
    ("crates.io:cw-to-do-list"@, "0.1.0"@)
}

/// The tag that setting up a store records.
pub fn contract_version() -> (tag: ContractVersion)
    ensures
        tag@ == current_tag(),
{
    ContractVersion {
        contract: "crates.io:cw-to-do-list".to_string(),
        version: "0.1.0".to_string(),
    }
}

} // verus!
