use vstd::prelude::*;
use vstd::string::StrSliceExecFns;
use vstd::utf8::encode_utf8;

verus! {

/// Lifecycle state of a task.
#[derive(Clone, Copy, PartialEq, Eq, Structural, Debug)]
pub enum Status {
    /// Closed tasks.
    Done,
    /// Ongoing tasks.
    Todo,
    /// Tasks past their deadline.
    Overdue,
}

/// Every failure a task-list operation can report.
#[derive(Clone, Copy, PartialEq, Eq, Structural, Debug)]
pub enum TaskError {
    /// The task name was empty or held only whitespace.
    EmptyName,
    /// No open task with the requested id exists.
    NotFound,
    /// Persisted bytes do not hold a well-formed task list.
    Corrupt,
}

/// Mathematical content of one task.
pub struct EntryView {
    pub id: int,
    pub name: Seq<u8>,
    pub status: Status,
    pub created_at: int,
    pub deadline: Option<int>,
}

/// The deadline of an entry, lifted to the mathematical model.
pub open spec fn opt_ts_view(d: Option<i64>) -> Option<int> {
    match d {
        Some(x) => Some(x as int),
        None => None,
    }
}

/// A single task: a label, its lifecycle state, and its times.
pub struct Entry {
    /// Unique identifier, assigned by the owning list.
    pub id: i32,
    /// Task label as UTF-8 bytes; list-created tasks never have a blank one.
    pub name: Vec<u8>,
    /// Current lifecycle state.
    pub status: Status,
    /// Creation time, in seconds.
    pub created_at: i64,
    /// Optional deadline, in seconds; `None` means the task never becomes overdue.
    pub deadline: Option<i64>,
}

impl View for Entry {
    type V = EntryView;

    open spec fn view(&self) -> EntryView {
        EntryView {
            id: self.id as int,
            name: self.name@,
            status: self.status,
            created_at: self.created_at as int,
            deadline: opt_ts_view(self.deadline),
        }
    }
}

/// An entry is overdue at `now` iff it has a deadline and that deadline
/// lies strictly in the past, regardless of its current status.
pub open spec fn spec_is_overdue(e: EntryView, now: int) -> bool {
    match e.deadline {
        Some(d) => d < now,
        None => false,
    }
}

impl Entry {
    /// Construct a fresh task: it starts in `Todo` with the given immutable fields.
    pub fn new(id: i32, name: String, deadline: Option<i64>, created_at: i64) -> (r: Entry)
        ensures
            r.id == id,
            r.name@ == encode_utf8(name@),
            r.status == Status::Todo,
            r.created_at == created_at,
            r.deadline == deadline,
    {
        Entry {
            id,
            name: name.as_str().as_bytes_vec(),
            status: Status::Todo,
            created_at,
            deadline,
        }
    }

    /// Whether the task is past its deadline at the supplied current time.
    /// Pure: reads the deadline only and never touches the status.
    pub fn is_overdue(&self, now: i64) -> (r: bool)
        ensures
            r == spec_is_overdue(self@, now as int),
    {
        match self.deadline {
            Some(d) => d < now,
            None => false,
        }
    }
}

impl Clone for Entry {
    fn clone(&self) -> (r: Self)
        ensures
            r@ == self@,
    {
        Entry {
            id: self.id,
            name: vstd::slice::slice_to_vec(self.name.as_slice()),
            status: self.status,
            created_at: self.created_at,
            deadline: self.deadline,
        }
    }
}

} // verus!
