use vstd::prelude::*;
use crate::error::ContractError;
use crate::state::{Entry, EntryView};

verus! {

/// Whether the keys of `rows` grow strictly from each row to the next.
pub open spec fn ascending(rows: Seq<(u64, EntryView)>) -> bool {
    forall|i: int, j: int| 0 <= i < j < rows.len() ==> rows[i].0 < rows[j].0
}

/// Whether some row of `rows` has the key `key`.
pub open spec fn has_key(rows: Seq<(u64, EntryView)>, key: u64) -> bool {
    exists|i: int| 0 <= i < rows.len() && rows[i].0 == key
}

/// The place of a row with the key `key`, where there is one.
pub open spec fn index_of(rows: Seq<(u64, EntryView)>, key: u64) -> int {
    choose|i: int| 0 <= i < rows.len() && rows[i].0 == key
}

/// The mapping from key to record that `rows` stands for.
pub open spec fn as_map(rows: Seq<(u64, EntryView)>) -> Map<u64, EntryView> {
    Map::new(|k: u64| has_key(rows, k), |k: u64| rows[index_of(rows, k)].1)
}

/// Whether `key` lies strictly beyond the cursor; without a cursor every key does.
pub open spec fn beyond(start_after: Option<u64>, key: u64) -> bool {
    match start_after {
        Some(cursor) => key > cursor,
        None => true,
    }
}

/// The rows of `rows` whose keys lie strictly beyond the cursor, in their order.
pub open spec fn scan_rows(rows: Seq<(u64, EntryView)>, start_after: Option<u64>) -> Seq<
    (u64, EntryView),
> {
    rows.filter(|row: (u64, EntryView)| beyond(start_after, row.0))
}

/// The keys and record values of scanned pairs.
pub open spec fn pair_views(pairs: Seq<(u64, Entry)>) -> Seq<(u64, EntryView)> {
    Seq::new(pairs.len(), |i: int| (pairs[i].0, pairs[i].1@))
}

/// In ascending rows each row is what the mapping holds under the row's key.
pub proof fn lemma_row_in_map(rows: Seq<(u64, EntryView)>, i: int)
    requires
        ascending(rows),
        0 <= i < rows.len(),
    ensures
        as_map(rows).contains_key(rows[i].0),
        as_map(rows)[rows[i].0] == rows[i].1,
{
    assert(has_key(rows, rows[i].0));
    let j = index_of(rows, rows[i].0);
    assert(j == i) by {
        if j < i {
            assert(rows[j].0 < rows[i].0);
        }
        if i < j {
            assert(rows[i].0 < rows[j].0);
        }
    }
}

/// Where the rows before `p` are not beyond the cursor and the rows from `p`
/// on are, the scan beyond the cursor is the rows from `p` on.
pub proof fn lemma_scan_is_suffix(rows: Seq<(u64, EntryView)>, start_after: Option<u64>, p: int)
    requires
        0 <= p <= rows.len(),
        forall|i: int| 0 <= i < p ==> !beyond(start_after, rows[i].0),
        forall|i: int| p <= i < rows.len() ==> beyond(start_after, rows[i].0),
    ensures
        scan_rows(rows, start_after) == rows.skip(p),
    decreases rows.len(),
{
    let wanted = |row: (u64, EntryView)| beyond(start_after, row.0);
    assert(scan_rows(rows, start_after) == rows.filter(wanted));
    if rows.len() == 0 {
        rows.lemma_filter_len(wanted);
        assert(rows.filter(wanted) =~= rows.skip(p));
    } else {
        let front = rows.drop_last();
        let x = rows.last();
        assert(rows =~= front.push(x));
        front.lemma_filter_push(x, wanted);
        if p == rows.len() {
            lemma_scan_is_suffix(front, start_after, p - 1);
            assert(front.skip(p - 1) =~= rows.skip(p));
        } else {
            lemma_scan_is_suffix(front, start_after, p);
            assert(front.skip(p).push(x) =~= rows.skip(p));
        }
    }
}

/// Dropping the last of ascending rows takes its key, and nothing else, out
/// of the mapping.
proof fn lemma_drop_last_removes(rows: Seq<(u64, EntryView)>)
    requires
        ascending(rows),
        rows.len() > 0,
    ensures
        ascending(rows.drop_last()),
        as_map(rows.drop_last()) == as_map(rows).remove(rows.last().0),
{
    let front = rows.drop_last();
    let last = rows.len() - 1;
    assert forall|k: u64| has_key(front, k) <==> (k != rows[last].0 && has_key(rows, k)) by {
        if has_key(front, k) {
            let j = index_of(front, k);
            assert(rows[j].0 == k);
            assert(rows[j].0 < rows[last].0);
        }
        if has_key(rows, k) && k != rows[last].0 {
            let j = index_of(rows, k);
            assert(front[j].0 == k);
        }
    }
    assert forall|k: u64| has_key(front, k) implies #[trigger] as_map(front)[k] == as_map(
        rows,
    )[k] by {
        let j = index_of(front, k);
        lemma_row_in_map(front, j);
        lemma_row_in_map(rows, j);
    }
    assert(as_map(front) =~= as_map(rows).remove(rows[last].0));
}

/// Ascending rows are determined by the mapping they stand for: two tables
/// that hold the same records scan alike.
pub proof fn lemma_rows_determined_by_map(a: Seq<(u64, EntryView)>, b: Seq<(u64, EntryView)>)
    requires
        ascending(a),
        ascending(b),
        as_map(a) == as_map(b),
    ensures
        a == b,
    decreases a.len(),
{
    if a.len() == 0 {
        if b.len() > 0 {
            lemma_row_in_map(b, 0);
            assert(as_map(a).contains_key(b[0].0));
            assert(has_key(a, b[0].0));
        }
        assert(a =~= b);
    } else {
        let la = a.len() - 1;
        lemma_row_in_map(a, la);
        assert(as_map(b).contains_key(a[la].0));
        assert(has_key(b, a[la].0));
        let j = index_of(b, a[la].0);
        let lb = b.len() - 1;
        lemma_row_in_map(b, lb);
        assert(as_map(a).contains_key(b[lb].0));
        assert(has_key(a, b[lb].0));
        let i = index_of(a, b[lb].0);
        if i < la {
            assert(a[i].0 < a[la].0);
        }
        if j < lb {
            assert(b[j].0 < b[lb].0);
        }
        assert(a[la].0 == b[lb].0);
        assert(a[la] == b[lb]);
        lemma_drop_last_removes(a);
        lemma_drop_last_removes(b);
        lemma_rows_determined_by_map(a.drop_last(), b.drop_last());
        assert(a =~= a.drop_last().push(a[la]));
        assert(b =~= b.drop_last().push(b[lb]));
    }
}

/// Where the rows before `p` have keys below `key` and the others do not, the
/// row at `p` decides whether `key` is there.
proof fn lemma_position_decides(rows: Seq<(u64, EntryView)>, p: int, key: u64)
    requires
        0 <= p <= rows.len(),
        forall|i: int| 0 <= i < p ==> rows[i].0 < key,
        forall|i: int| p <= i < rows.len() ==> rows[i].0 >= key,
        ascending(rows),
    ensures
        has_key(rows, key) <==> (p < rows.len() && rows[p].0 == key),
{
    if has_key(rows, key) {
        let j = index_of(rows, key);
        if j > p {
            assert(rows[p].0 < rows[j].0);
        }
    }
}

struct Slot {
    key: u64,
    record: Entry,
}

/// The table of records, ordered by key.
pub struct RecordTable {
    slots: Vec<Slot>,
}

impl View for RecordTable {
    type V = Map<u64, EntryView>;

    /// The mapping from key to record that the table holds.
    open spec fn view(&self) -> Map<u64, EntryView> {
        as_map(self.rows())
    }
}

impl RecordTable {
    /// The table's rows, key and record, in the order of a scan.
    pub closed spec fn rows(&self) -> Seq<(u64, EntryView)> {
        Seq::new(self.slots@.len(), |i: int| (self.slots@[i].key, self.slots@[i].record@))
    }

    /// The table's invariant: its keys grow strictly from row to row.
    pub open spec fn wf(&self) -> bool {
        ascending(self.rows())
    }

    /// An empty table.
    pub fn new() -> (table: RecordTable)
        ensures
            table.wf(),
            table.rows() == Seq::<(u64, EntryView)>::empty(),
            table@ == Map::<u64, EntryView>::empty(),
    {
        let table = RecordTable { slots: Vec::new() };
        proof {
            assert(table.rows() =~= Seq::<(u64, EntryView)>::empty());
            assert(table@ =~= Map::<u64, EntryView>::empty());
        }
        table
    }

    /// The number of rows.
    pub fn len(&self) -> (n: usize)
        ensures
            n == self.rows().len(),
    {
        self.slots.len()
    }

    /// The key of the row at `index`.
    pub fn key_at(&self, index: usize) -> (key: u64)
        requires
            index < self.rows().len(),
        ensures
            key == self.rows()[index as int].0,
    {
        self.slots[index].key
    }

    /// The record of the row at `index`.
    pub fn record_at(&self, index: usize) -> (record: &Entry)
        requires
            index < self.rows().len(),
        ensures
            record@ == self.rows()[index as int].1,
    {
        &self.slots[index].record
    }

    /// The place of the first row whose key is not below `id`, found by halving.
    fn position(&self, id: u64) -> (p: usize)
        requires
            self.wf(),
        ensures
            p <= self.rows().len(),
            forall|i: int| 0 <= i < p ==> self.rows()[i].0 < id,
            forall|i: int| p <= i < self.rows().len() ==> self.rows()[i].0 >= id,
    {
        let mut lo: usize = 0;
        let mut hi: usize = self.slots.len();
        while lo < hi
            invariant
                self.wf(),
                lo <= hi <= self.rows().len(),
                self.rows().len() == self.slots.len(),
                forall|i: int| 0 <= i < lo ==> self.rows()[i].0 < id,
                forall|i: int| hi <= i < self.rows().len() ==> self.rows()[i].0 >= id,
            decreases hi - lo,
        {
            let mid = lo + (hi - lo) / 2;
            if self.slots[mid].key < id {
                proof {
                    assert forall|i: int| 0 <= i < mid + 1 implies self.rows()[i].0 < id by {
                        if i < mid {
                            assert(self.rows()[i].0 < self.rows()[mid as int].0);
                        }
                    }
                }
                lo = mid + 1;
            } else {
                proof {
                    assert forall|i: int| mid <= i < self.rows().len() implies self.rows()[i].0
                        >= id by {
                        if i > mid {
                            assert(self.rows()[mid as int].0 < self.rows()[i].0);
                        }
                    }
                }
                hi = mid;
            }
        }
        lo
    }

    /// The place where a scan beyond `start_after` begins: the rows before it
    /// are not beyond the cursor, and the rows from it on are the scan.
    pub fn first_after(&self, start_after: Option<u64>) -> (p: usize)
        requires
            self.wf(),
        ensures
            p <= self.rows().len(),
            forall|i: int| 0 <= i < p ==> !beyond(start_after, self.rows()[i].0),
            forall|i: int| p <= i < self.rows().len() ==> beyond(start_after, self.rows()[i].0),
            scan_rows(self.rows(), start_after) == self.rows().skip(p as int),
    {
        let p = match start_after {
            None => 0,
            Some(cursor) => {
                if cursor == u64::MAX {
                    self.slots.len()
                } else {
                    self.position(cursor + 1)
                }
            },
        };
        proof {
            lemma_scan_is_suffix(self.rows(), start_after, p as int);
        }
        p
    }

    /// The record stored under `id`, or `NotFound`.
    pub fn get(&self, id: u64) -> (found: Result<Entry, ContractError>)
        requires
            self.wf(),
        ensures
            match found {
                Ok(record) => self@.contains_key(id) && record@ == self@[id],
                Err(e) => e == ContractError::NotFound && !self@.contains_key(id),
            },
    {
        let p = self.position(id);
        if p < self.slots.len() && self.slots[p].key == id {
            proof {
                lemma_row_in_map(self.rows(), p as int);
            }
            Ok(self.slots[p].record.clone())
        } else {
            proof {
                lemma_position_decides(self.rows(), p as int, id);
            }
            Err(ContractError::NotFound)
        }
    }

    /// Whether a record is stored under `id`.
    pub fn contains(&self, id: u64) -> (present: bool)
        requires
            self.wf(),
        ensures
            present == self@.contains_key(id),
    {
        let p = self.position(id);
        proof {
            lemma_position_decides(self.rows(), p as int, id);
        }
        p < self.slots.len() && self.slots[p].key == id
    }

    /// Stores `record` under `id`, in place of any record that was there.
    pub fn put(&mut self, id: u64, record: Entry)
        requires
            old(self).wf(),
        ensures
            final(self).wf(),
            final(self)@ == old(self)@.insert(id, record@),
    {
        let p = self.position(id);
        let ghost before = self.rows();
        let ghost row = (id, record@);
        if p < self.slots.len() && self.slots[p].key == id {
            self.slots.set(p, Slot { key: id, record });
            proof {
                assert(self.rows() =~= before.update(p as int, row));
                assert forall|i: int, j: int| 0 <= i < j < self.rows().len() implies self.rows()[i].0
                    < self.rows()[j].0 by {
                    assert(before[i].0 < before[j].0);
                }
            }
        } else {
            self.slots.insert(p, Slot { key: id, record });
            proof {
                assert(self.rows() =~= before.insert(p as int, row));
                assert forall|i: int| p <= i < before.len() implies before[i].0 > id by {
                    if i > p {
                        assert(before[p as int].0 < before[i].0);
                    }
                }
                assert forall|i: int, j: int| 0 <= i < j < self.rows().len() implies self.rows()[i].0
                    < self.rows()[j].0 by {
                    if j < p {
                        assert(before[i].0 < before[j].0);
                    } else if j == p {
                        assert(before[i].0 < id);
                    } else if i < p {
                        assert(before[i].0 < id);
                        assert(before[j - 1].0 > id);
                    } else if i == p {
                        assert(before[j - 1].0 > id);
                    } else {
                        assert(before[i - 1].0 < before[j - 1].0);
                    }
                }
            }
        }
        proof {
            let after = self.rows();
            assert(ascending(after));
            assert forall|k: u64| has_key(after, k) <==> (k == id || has_key(before, k)) by {
                if has_key(after, k) && k != id {
                    let j = index_of(after, k);
                    if after.len() == before.len() {
                        assert(before[j].0 == k);
                    } else if j < p {
                        assert(before[j].0 == k);
                    } else {
                        assert(before[j - 1].0 == k);
                    }
                    assert(has_key(before, k));
                }
                if k == id {
                    assert(after[p as int].0 == k);
                    assert(has_key(after, k));
                }
                if has_key(before, k) && k != id {
                    let j = index_of(before, k);
                    if after.len() == before.len() {
                        assert(after[j].0 == k);
                    } else if j < p {
                        assert(after[j].0 == k);
                    } else {
                        assert(after[j + 1].0 == k);
                    }
                    assert(has_key(after, k));
                }
            }
            assert forall|k: u64| has_key(after, k) implies #[trigger] as_map(after)[k] == as_map(
                before,
            ).insert(id, record@)[k] by {
                let j = index_of(after, k);
                lemma_row_in_map(after, j);
                if k != id {
                    let i = index_of(before, k);
                    lemma_row_in_map(before, i);
                    if after.len() == before.len() {
                        assert(after[i].0 == k);
                    } else if i < p {
                        assert(after[i].0 == k);
                    } else {
                        assert(after[i + 1].0 == k);
                    }
                } else {
                    lemma_row_in_map(after, p as int);
                }
            }
            assert(as_map(after) =~= as_map(before).insert(id, record@));
        }
    }

    /// Removes the record stored under `id`, if there is one.
    pub fn delete(&mut self, id: u64)
        requires
            old(self).wf(),
        ensures
            final(self).wf(),
            final(self)@ == old(self)@.remove(id),
    {
        let p = self.position(id);
        let ghost before = self.rows();
        if p < self.slots.len() && self.slots[p].key == id {
            self.slots.remove(p);
            proof {
                let after = self.rows();
                assert(after =~= before.remove(p as int));
                assert(ascending(after));
                assert forall|k: u64| has_key(after, k) <==> (k != id && has_key(before, k)) by {
                    if has_key(after, k) {
                        let j = index_of(after, k);
                        if j < p {
                            assert(before[j].0 == k);
                            assert(before[j].0 < before[p as int].0);
                        } else {
                            assert(before[j + 1].0 == k);
                            assert(before[p as int].0 < before[j + 1].0);
                        }
                        assert(has_key(before, k));
                    }
                    if has_key(before, k) && k != id {
                        let j = index_of(before, k);
                        assert(j != p);
                        if j < p {
                            assert(after[j].0 == k);
                        } else {
                            assert(after[j - 1].0 == k);
                        }
                        assert(has_key(after, k));
                    }
                }
                assert forall|k: u64| has_key(after, k) implies #[trigger] as_map(after)[k]
                    == as_map(before)[k] by {
                    let j = index_of(after, k);
                    lemma_row_in_map(after, j);
                    if j < p {
                        lemma_row_in_map(before, j);
                    } else {
                        lemma_row_in_map(before, j + 1);
                    }
                }
                assert(as_map(after) =~= as_map(before).remove(id));
            }
        } else {
            proof {
                lemma_position_decides(before, p as int, id);
                assert(as_map(before) =~= as_map(before).remove(id));
            }
        }
    }

    /// The rows whose keys lie strictly beyond `start_after`, or all rows
    /// without a cursor, in ascending order of key.
    pub fn scan(&self, start_after: Option<u64>) -> (pairs: Vec<(u64, Entry)>)
        requires
            self.wf(),
        ensures
            pair_views(pairs@) == scan_rows(self.rows(), start_after),
    {
        let start = self.first_after(start_after);
        let mut pairs: Vec<(u64, Entry)> = Vec::new();
        let mut i: usize = start;
        proof {
            assert(pair_views(pairs@) =~= self.rows().subrange(start as int, i as int));
        }
        while i < self.slots.len()
            invariant
                start <= i <= self.rows().len(),
                self.rows().len() == self.slots.len(),
                pair_views(pairs@) == self.rows().subrange(start as int, i as int),
            decreases self.slots.len() - i,
        {
            let ghost done = pairs@;
            pairs.push((self.slots[i].key, self.slots[i].record.clone()));
            proof {
                let rows = self.rows();
                assert(pair_views(pairs@) =~= pair_views(done).push(rows[i as int]));
                assert(rows.subrange(start as int, i + 1) =~= rows.subrange(
                    start as int,
                    i as int,
                ).push(rows[i as int]));
            }
            i = i + 1;
        }
        proof {
            assert(self.rows().subrange(start as int, i as int) =~= self.rows().skip(start as int));
        }
        pairs
    }
}

} // verus!
