use vstd::prelude::*;

verus! {

/// How far the work on an entry has come.
#[derive(Clone, Copy, Debug, PartialEq, Eq, Structural)]
pub enum Status {
    ToDo,
    InProgress,
    Done,
}

/// How urgent an entry is.
#[derive(Clone, Copy, Debug, PartialEq, Eq, Structural)]
pub enum Priority {
    /// No priority was given.
    Unset,
    Low,
    Medium,
    High,
}

/// The mathematical value of an [`Entry`].
pub struct EntryView {
    pub id: u64,
    pub description: Seq<char>,
    pub status: Status,
    pub priority: Priority,
    pub owner: Seq<char>,
}

/// One to-do record. `id` and `owner` are fixed when the record is created.
#[derive(Debug, PartialEq, Eq)]
pub struct Entry {
    pub id: u64,
    pub description: String,
    pub status: Status,
    pub priority: Priority,
    pub owner: String,
}

impl View for Entry {
    type V = EntryView;

    open spec fn view(&self) -> EntryView {
        EntryView {
            id: self.id,
            description: self.description@,
            status: self.status,
            priority: self.priority,
            owner: self.owner@,
        }
    }
}

/// The priority a new entry gets: the one supplied, else `Priority::Unset`.
pub open spec fn priority_or_default(priority: Option<Priority>) -> Priority {
    match priority {
        Some(p) => p,
        None => Priority::Unset,
    }
}

/// The record that a creation writes under `id`.
pub open spec fn fresh_entry(
    id: u64,
    description: Seq<char>,
    priority: Option<Priority>,
    owner: Seq<char>,
) -> EntryView {
    EntryView {
        id,
        description,
        status: Status::ToDo,
        priority: priority_or_default(priority),
        owner,
    }
}

/// `prior` with each supplied field put in place of the old one; `id` and
/// `owner` are kept.
pub open spec fn patched(
    prior: EntryView,
    description: Option<Seq<char>>,
    status: Option<Status>,
    priority: Option<Priority>,
) -> EntryView {
    EntryView {
        id: prior.id,
        description: match description {
            Some(d) => d,
            None => prior.description,
        },
        status: match status {
            Some(s) => s,
            None => prior.status,
        },
        priority: match priority {
            Some(p) => p,
            None => prior.priority,
        },
        owner: prior.owner,
    }
}

/// The view of an optional string.
pub open spec fn text_view(text: Option<String>) -> Option<Seq<char>> {
    match text {
        Some(t) => Some(t@),
        None => None,
    }
}

impl Clone for Entry {
    fn clone(&self) -> (copy: Entry)
        ensures
            copy@ == self@,
    {
        Entry {
            id: self.id,
            description: self.description.clone(),
            status: self.status,
            priority: self.priority,
            owner: self.owner.clone(),
        }
    }
}

impl Entry {
    /// A new record with status `ToDo` and the given or the default priority.
    pub fn new(id: u64, description: String, priority: Option<Priority>, owner: String) -> (entry:
        Entry)
        ensures
            entry@ == fresh_entry(id, description@, priority, owner@),
    {
        let priority = match priority {
            Some(p) => p,
            None => Priority::Unset,
        };
        Entry { id, description, status: Status::ToDo, priority, owner }
    }

    /// Whether `owner` is, letter for letter, the owner stored with the record.
    pub fn is_owned_by(&self, owner: &String) -> (owned: bool)
        ensures
            owned == (self@.owner == owner@),
    {
        self.owner == *owner
    }

    /// The record with each supplied field put in place of the old one.
    pub fn apply(
        &self,
        description: Option<String>,
        status: Option<Status>,
        priority: Option<Priority>,
    ) -> (entry: Entry)
        ensures
            entry@ == patched(self@, text_view(description), status, priority),
    {
        let description = match description {
            Some(d) => d,
            None => self.description.clone(),
        };
        let status = match status {
            Some(s) => s,
            None => self.status,
        };
        let priority = match priority {
            Some(p) => p,
            None => self.priority,
        };
        Entry { id: self.id, description, status, priority, owner: self.owner.clone() }
    }
}

} // verus!
