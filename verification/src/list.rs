use vstd::prelude::*;
use vstd::utf8::encode_utf8;

use crate::task::{Entry, EntryView, Status, TaskError, opt_ts_view, spec_is_overdue};

verus! {

/// Mathematical content of a task list: the tasks in creation order
/// and the identifier cursor.
pub struct ListView {
    pub entries: Seq<EntryView>,
    pub next_id: int,
}

/// Field bounds every stored entry satisfies.
pub open spec fn entry_bounds(e: EntryView) -> bool {
    &&& 0 <= e.id <= i32::MAX
    &&& i64::MIN <= e.created_at <= i64::MAX
    &&& (e.deadline matches Some(d) ==> i64::MIN <= d <= i64::MAX)
}

/// The aggregate invariant: the cursor is a valid id value, every stored id
/// was assigned below the cursor, and ids strictly increase in creation
/// order (so they are unique).
pub open spec fn wf(l: ListView) -> bool {
    &&& 0 <= l.next_id <= i32::MAX
    &&& forall|i: int|
        0 <= i < l.entries.len() ==> entry_bounds(#[trigger] l.entries[i])
            && l.entries[i].id < l.next_id
    &&& forall|i: int, j: int|
        0 <= i < j < l.entries.len() ==> (#[trigger] l.entries[i]).id
            < (#[trigger] l.entries[j]).id
}

/// A byte of ASCII whitespace.
pub open spec fn is_ws_byte(b: u8) -> bool {
    b == 0x20 || (0x09 <= b <= 0x0d)
}

/// A name is blank when every byte of it is whitespace; the empty name is blank.
pub open spec fn is_blank(name: Seq<u8>) -> bool {
    forall|i: int| 0 <= i < name.len() ==> is_ws_byte(#[trigger] name[i])
}

/// The state after a successful add: one task appended, in `Todo`, carrying
/// the old cursor as its id, and the cursor moved up by one.
pub open spec fn spec_add(l: ListView, name: Seq<u8>, deadline: Option<int>, created_at: int) -> ListView {
    ListView {
        entries: l.entries.push(
            EntryView { id: l.next_id, name, status: Status::Todo, created_at, deadline },
        ),
        next_id: l.next_id + 1,
    }
}

/// Whether an entry is the open task with the given id: a closed task is
/// indistinguishable from a missing one.
pub open spec fn is_open_match(e: EntryView, id: int) -> bool {
    e.id == id && e.status != Status::Done
}

/// Whether some open task with the given id exists.
pub open spec fn has_open(es: Seq<EntryView>, id: int) -> bool {
    exists|i: int| 0 <= i < es.len() && is_open_match(#[trigger] es[i], id)
}

/// What closing does to one entry: the open task with the given id moves to
/// `Done`; everything else is untouched.
pub open spec fn close_entry(e: EntryView, id: int) -> EntryView {
    if is_open_match(e, id) {
        EntryView { status: Status::Done, ..e }
    } else {
        e
    }
}

/// The state after a close request: entry-wise closing, cursor untouched.
pub open spec fn spec_close(l: ListView, id: int) -> ListView {
    ListView { entries: l.entries.map_values(|e: EntryView| close_entry(e, id)), next_id: l.next_id }
}

/// What the sweep does to one entry: a `Todo` task past its deadline moves
/// to `Overdue`; `Done` and `Overdue` tasks, and tasks not past their
/// deadline, are untouched.
pub open spec fn sweep_entry(e: EntryView, now: int) -> EntryView {
    if e.status == Status::Todo && spec_is_overdue(e, now) {
        EntryView { status: Status::Overdue, ..e }
    } else {
        e
    }
}

/// The state after a sweep at time `now`: entry-wise sweeping, cursor untouched.
pub open spec fn spec_sweep(l: ListView, now: int) -> ListView {
    ListView { entries: l.entries.map_values(|e: EntryView| sweep_entry(e, now)), next_id: l.next_id }
}

/// How many entries currently hold the given status.
pub open spec fn count_status(es: Seq<EntryView>, st: Status) -> nat
    decreases es.len(),
{
    if es.len() == 0 {
        0
    } else {
        count_status(es.drop_last(), st) + if es.last().status == st {
            1nat
        } else {
            0nat
        }
    }
}

/// The entries holding the given status, in their original order.
pub open spec fn filter_status(es: Seq<EntryView>, st: Status) -> Seq<EntryView>
    decreases es.len(),
{
    if es.len() == 0 {
        Seq::empty()
    } else if es.last().status == st {
        filter_status(es.drop_last(), st).push(es.last())
    } else {
        filter_status(es.drop_last(), st)
    }
}

/// Count of tasks per status, including zero counts.
pub struct StatusCounts {
    pub todo: usize,
    pub done: usize,
    pub overdue: usize,
}

/// Task list: owns every task and the identifier cursor.
pub struct List {
    /// All tasks, in creation order.
    pub entries: Vec<Entry>,
    /// Cursor for the next id to assign: starts at 0, moves up by exactly
    /// one per created task, never reused, never decremented.
    pub id_tracker: i32,
}

impl View for List {
    type V = ListView;

    open spec fn view(&self) -> ListView {
        ListView {
            entries: self.entries@.map_values(|e: Entry| e@),
            next_id: self.id_tracker as int,
        }
    }
}

impl List {
    /// A fresh, empty list with the cursor at 0.
    pub fn new() -> (r: List)
        ensures
            r@.entries.len() == 0,
            r@.next_id == 0,
            wf(r@),
    {
        List { entries: Vec::new(), id_tracker: 0 }
    }

    /// Total number of tasks, whatever their status.
    pub fn get_size(&self) -> (r: usize)
        ensures
            r == self@.entries.len(),
    {
        self.entries.len()
    }

    /// All tasks, in creation order.
    pub fn get_all(&self) -> (r: &Vec<Entry>)
        ensures
            r@ == self.entries@,
    {
        &self.entries
    }

    /// The id the next created task will receive.
    pub fn get_cursor(&self) -> (r: i32)
        ensures
            r as int == self@.next_id,
    {
        self.id_tracker
    }

    /// Move the id cursor up by one without creating a task.
    pub fn inc_cursor(&mut self)
        requires
            old(self)@.next_id < i32::MAX,
        ensures
            final(self)@.next_id == old(self)@.next_id + 1,
            final(self)@.entries == old(self)@.entries,
            wf(old(self)@) ==> wf(final(self)@),
    {
        self.id_tracker = self.id_tracker + 1;
    }

    /// Create a task named `task` with the given deadline, created at
    /// `created_at`: it receives the next id and starts in `Todo`.
    /// A blank name is rejected and neither the entries nor the cursor move.
    pub fn add_task(&mut self, task: &str, deadline: Option<i64>, created_at: i64) -> (r: Result<
        i32,
        TaskError,
    >)
        requires
            wf(old(self)@),
            old(self)@.next_id < i32::MAX,
        ensures
            wf(final(self)@),
            is_blank(encode_utf8(task@)) ==> r == Err::<i32, TaskError>(TaskError::EmptyName)
                && final(self)@ == old(self)@,
            r matches Ok(id) ==> id as int == old(self)@.next_id,
            !is_blank(encode_utf8(task@)) ==> r is Ok && final(self)@ == spec_add(
                old(self)@,
                encode_utf8(task@),
                opt_ts_view(deadline),
                created_at as int,
            ),
    {
        if is_blank_name(task) {
            return Err(TaskError::EmptyName);
        }
        let id = self.get_cursor();
        let new_task = Entry::new(id, task.to_owned(), deadline, created_at);
        self.entries.push(new_task);
        self.inc_cursor();
        proof {
            assert(self@.entries =~= spec_add(
                old(self)@,
                encode_utf8(task@),
                opt_ts_view(deadline),
                created_at as int,
            ).entries);
        }
        Ok(id)
    }

    /// Close the open task with the given id, moving it to `Done`; an
    /// `Overdue` task can still be closed. Fails with `NotFound`, leaving
    /// the list untouched, when no task has the id or the task with it is
    /// already `Done`.
    #[verifier::loop_isolation(false)]
    pub fn close_task(&mut self, id: i32) -> (r: Result<(), TaskError>)
        requires
            wf(old(self)@),
        ensures
            wf(final(self)@),
            final(self)@ == spec_close(old(self)@, id as int),
            r is Ok <==> has_open(old(self)@.entries, id as int),
            r is Err ==> r == Err::<(), TaskError>(TaskError::NotFound) && final(self)@ == old(
                self,
            )@,
    {
        let ghost l0 = self@;
        let mut i: usize = 0;
        while i < self.entries.len()
            invariant
                i <= l0.entries.len(),
                l0 == self@,
                forall|j: int| 0 <= j < i ==> !is_open_match(#[trigger] l0.entries[j], id as int),
            decreases l0.entries.len() - i,
        {
            if self.entries[i].id == id && !matches!(self.entries[i].status, Status::Done) {
                proof {
                    assert(is_open_match(l0.entries[i as int], id as int));
                }
                self.entries[i].status = Status::Done;
                proof {
                    assert forall|j: int|
                        i < j < l0.entries.len() implies (#[trigger] l0.entries[j]).id
                        != id as int by {
                        assert(l0.entries[i as int].id < l0.entries[j].id);
                    }
                    assert(self@.entries =~= spec_close(l0, id as int).entries);
                }
                return Ok(());
            }
            i = i + 1;
        }
        proof {
            assert(self@.entries =~= spec_close(l0, id as int).entries);
        }
        Err(TaskError::NotFound)
    }

    /// Count the tasks per current status; the three counts always sum to
    /// the size of the list.
    #[verifier::loop_isolation(false)]
    pub fn get_status(&self) -> (r: StatusCounts)
        ensures
            r.todo == count_status(self@.entries, Status::Todo),
            r.done == count_status(self@.entries, Status::Done),
            r.overdue == count_status(self@.entries, Status::Overdue),
            r.todo + r.done + r.overdue == self@.entries.len(),
    {
        let ghost es = self@.entries;
        let mut todo: usize = 0;
        let mut done: usize = 0;
        let mut overdue: usize = 0;
        let mut i: usize = 0;
        while i < self.entries.len()
            invariant
                i <= es.len(),
                es == self@.entries,
                es.len() == self.entries.len(),
                todo == count_status(es.take(i as int), Status::Todo),
                done == count_status(es.take(i as int), Status::Done),
                overdue == count_status(es.take(i as int), Status::Overdue),
                todo + done + overdue == i,
            decreases es.len() - i,
        {
            proof {
                assert(es.take(i + 1).drop_last() =~= es.take(i as int));
                assert(es.take(i + 1).last() == es[i as int]);
            }
            match self.entries[i].status {
                Status::Todo => {
                    todo = todo + 1;
                },
                Status::Done => {
                    done = done + 1;
                },
                Status::Overdue => {
                    overdue = overdue + 1;
                },
            }
            i = i + 1;
        }
        proof {
            assert(es.take(es.len() as int) =~= es);
        }
        StatusCounts { todo, done, overdue }
    }

    /// Move every `Todo` task whose deadline lies strictly before `now` to
    /// `Overdue`; everything else, `Done` tasks included, is untouched.
    /// Idempotent: a second sweep at the same `now` changes nothing.
    #[verifier::loop_isolation(false)]
    pub fn check_overdues(&mut self, now: i64)
        ensures
            final(self)@ == spec_sweep(old(self)@, now as int),
            wf(old(self)@) ==> wf(final(self)@),
    {
        let ghost l0 = self@;
        let mut i: usize = 0;
        while i < self.entries.len()
            invariant
                i <= l0.entries.len(),
                self@.entries.len() == l0.entries.len(),
                self@.next_id == l0.next_id,
                forall|j: int|
                    0 <= j < i ==> self@.entries[j] == sweep_entry(
                        #[trigger] l0.entries[j],
                        now as int,
                    ),
                forall|j: int| i <= j < l0.entries.len() ==> self@.entries[j] == l0.entries[j],
            decreases l0.entries.len() - i,
        {
            if matches!(self.entries[i].status, Status::Todo) && self.entries[i].is_overdue(now) {
                self.entries[i].status = Status::Overdue;
            }
            i = i + 1;
        }
        proof {
            assert(self@.entries =~= spec_sweep(l0, now as int).entries);
        }
    }

    /// The entries partitioned by status in the fixed category order
    /// `Overdue`, `Todo`, `Done`, each category in creation order.
    #[verifier::loop_isolation(false)]
    pub fn partitioned(&self) -> (r: (Vec<Entry>, Vec<Entry>, Vec<Entry>))
        ensures
            r.0@.map_values(|e: Entry| e@) == filter_status(self@.entries, Status::Overdue),
            r.1@.map_values(|e: Entry| e@) == filter_status(self@.entries, Status::Todo),
            r.2@.map_values(|e: Entry| e@) == filter_status(self@.entries, Status::Done),
    {
        let ghost es = self@.entries;
        let mut overdues: Vec<Entry> = Vec::new();
        let mut todos: Vec<Entry> = Vec::new();
        let mut dones: Vec<Entry> = Vec::new();
        let mut i: usize = 0;
        while i < self.entries.len()
            invariant
                i <= es.len(),
                es == self@.entries,
                es.len() == self.entries.len(),
                overdues@.map_values(|e: Entry| e@) == filter_status(
                    es.take(i as int),
                    Status::Overdue,
                ),
                todos@.map_values(|e: Entry| e@) == filter_status(es.take(i as int), Status::Todo),
                dones@.map_values(|e: Entry| e@) == filter_status(es.take(i as int), Status::Done),
            decreases es.len() - i,
        {
            proof {
                assert(es.take(i + 1).drop_last() =~= es.take(i as int));
                assert(es.take(i + 1).last() == es[i as int]);
            }
            let e = &self.entries[i];
            match e.status {
                Status::Overdue => {
                    overdues.push(e.clone());
                    proof {
                        assert(overdues@.map_values(|e: Entry| e@) =~= filter_status(
                            es.take(i + 1),
                            Status::Overdue,
                        ));
                    }
                },
                Status::Todo => {
                    todos.push(e.clone());
                    proof {
                        assert(todos@.map_values(|e: Entry| e@) =~= filter_status(
                            es.take(i + 1),
                            Status::Todo,
                        ));
                    }
                },
                Status::Done => {
                    dones.push(e.clone());
                    proof {
                        assert(dones@.map_values(|e: Entry| e@) =~= filter_status(
                            es.take(i + 1),
                            Status::Done,
                        ));
                    }
                },
            }
            i = i + 1;
        }
        proof {
            assert(es.take(es.len() as int) =~= es);
        }
        (overdues, todos, dones)
    }
}

/// Whether every byte of the name is ASCII whitespace.
#[verifier::loop_isolation(false)]
fn is_blank_name(task: &str) -> (r: bool)
    ensures
        r == is_blank(encode_utf8(task@)),
{
    let bytes = task.as_bytes();
    let mut i: usize = 0;
    while i < bytes.len()
        invariant
            i <= bytes@.len(),
            bytes@ == encode_utf8(task@),
            forall|j: int| 0 <= j < i ==> is_ws_byte(#[trigger] bytes@[j]),
        decreases bytes@.len() - i,
    {
        let b = bytes[i];
        if !(b == 0x20 || (0x09 <= b && b <= 0x0d)) {
            return false;
        }
        i = i + 1;
    }
    true
}

} // verus!
