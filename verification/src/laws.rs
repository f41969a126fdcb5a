use vstd::prelude::*;

use crate::task::{EntryView, Status, spec_is_overdue};
use crate::list::{
    ListView, close_entry, count_status, has_open, is_open_match, spec_add, spec_close, spec_sweep,
    sweep_entry, wf,
};

verus! {

/// The shape of a list built from empty by adds alone: the ids are exactly
/// `0, 1, ...` in creation order and the cursor sits one past the last.
pub open spec fn ids_sequential(l: ListView) -> bool {
    &&& l.next_id == l.entries.len()
    &&& forall|i: int| 0 <= i < l.entries.len() ==> (#[trigger] l.entries[i]).id == i
}

/// Law: a fresh list has sequential ids.
pub proof fn lemma_fresh_list_ids_sequential(l: ListView)
    requires
        l.entries.len() == 0,
        l.next_id == 0,
    ensures
        ids_sequential(l),
{
}

/// Law: a successful add keeps the sequential-id
/// shape, assigns exactly the size as the new id, and grows the size by one.
/// So a run of successful adds from empty returns the ids `0, 1, 2, ...` in
/// call order, and the size equals the number of successful adds; a rejected
/// add changes nothing (that is stated by `add_task` itself).
pub proof fn lemma_add_assigns_sequential_ids(
    l: ListView,
    name: Seq<u8>,
    deadline: Option<int>,
    created_at: int,
)
    requires
        wf(l),
        ids_sequential(l),
        l.next_id < i32::MAX,
    ensures
        spec_add(l, name, deadline, created_at).entries.len() == l.entries.len() + 1,
        spec_add(l, name, deadline, created_at).entries.last().id == l.entries.len(),
        ids_sequential(spec_add(l, name, deadline, created_at)),
{
}

/// Law: closing a task twice fails the second time. After a successful
/// close the task with the requested id is `Done`; no task with that id is
/// open any more, so a second close reports not-found and, as `close_task`
/// also states, a failed close leaves every entry exactly as it was.
pub proof fn lemma_close_twice(l: ListView, id: int)
    ensures
        has_open(l.entries, id) ==> forall|j: int|
            0 <= j < l.entries.len() && (#[trigger] l.entries[j]).id == id ==> spec_close(
                l,
                id,
            ).entries[j].status == Status::Done,
        !has_open(spec_close(l, id).entries, id),
        spec_close(spec_close(l, id), id) == spec_close(l, id),
{
    let l1 = spec_close(l, id);
    assert forall|j: int| 0 <= j < l1.entries.len() implies !is_open_match(
        #[trigger] l1.entries[j],
        id,
    ) by {
        assert(l1.entries[j] == close_entry(l.entries[j], id));
    }
    assert(spec_close(l1, id).entries =~= l1.entries);
}

/// Law: the sweep is idempotent. Sweeping twice at the same `now` is the
/// same as sweeping once; one sweep moves every `Todo` task whose deadline
/// lies strictly before `now` to `Overdue`; and a task without a deadline is
/// never touched, whatever `now` is.
pub proof fn lemma_sweep_idempotent(l: ListView, now: int)
    ensures
        spec_sweep(spec_sweep(l, now), now) == spec_sweep(l, now),
        forall|j: int|
            0 <= j < l.entries.len() && (#[trigger] l.entries[j]).status == Status::Todo
                && spec_is_overdue(l.entries[j], now) ==> spec_sweep(l, now).entries[j].status
                == Status::Overdue,
        forall|j: int|
            0 <= j < l.entries.len() && (#[trigger] l.entries[j]).deadline is None ==> spec_sweep(
                l,
                now,
            ).entries[j] == l.entries[j],
{
    let l1 = spec_sweep(l, now);
    assert forall|j: int| 0 <= j < l1.entries.len() implies sweep_entry(
        #[trigger] l1.entries[j],
        now,
    ) == l1.entries[j] by {
        assert(l1.entries[j] == sweep_entry(l.entries[j], now));
    }
    assert(spec_sweep(l1, now).entries =~= l1.entries);
}

/// Law: the three status counts cover every entry, so they sum to the size
/// of the list in every state.
pub proof fn lemma_counts_cover_all(es: Seq<EntryView>)
    ensures
        count_status(es, Status::Todo) + count_status(es, Status::Done) + count_status(
            es,
            Status::Overdue,
        ) == es.len(),
    decreases es.len(),
{
    if es.len() > 0 {
        lemma_counts_cover_all(es.drop_last());
    }
}

} // verus!
