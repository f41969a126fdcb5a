use chrono::prelude::Local;

use tasklist::codec::{decode_list, encode_list};
use tasklist::dates::parse_deadline;
use tasklist::list::List;
use tasklist::task::{Status, TaskError};

fn now_seconds() -> i64 {
    Local::now().naive_local().and_utc().timestamp()
}

#[test]
fn ids_are_sequential() {
    let mut list = List::new();
    assert_eq!(list.add_task("first", None, 10).unwrap(), 0);
    assert_eq!(list.add_task("second", None, 11).unwrap(), 1);
    assert_eq!(list.add_task("third", None, 12).unwrap(), 2);
    assert_eq!(list.get_size(), 3);
    assert_eq!(list.get_cursor(), 3);
    assert_eq!(list.entries[0].id, 0);
    assert_eq!(list.entries[1].id, 1);
    assert_eq!(list.entries[2].id, 2);
}

#[test]
fn blank_name_rejected() {
    let mut list = List::new();
    assert_eq!(list.add_task("", None, 0), Err(TaskError::EmptyName));
    assert_eq!(list.add_task(" \t ", None, 0), Err(TaskError::EmptyName));
    assert_eq!(list.get_size(), 0);
    assert_eq!(list.get_cursor(), 0);
    // the rejected adds consumed no id
    assert_eq!(list.add_task("real", None, 0).unwrap(), 0);
}

#[test]
fn close_twice_fails_second_time() {
    let mut list = List::new();
    let id = list.add_task("only", None, 0).unwrap();
    assert!(list.close_task(id).is_ok());
    assert_eq!(list.entries[0].status, Status::Done);
    assert_eq!(list.close_task(id), Err(TaskError::NotFound));
    assert_eq!(list.entries[0].status, Status::Done);
    assert_eq!(list.get_size(), 1);
}

#[test]
fn close_missing_never_mutates() {
    let mut list = List::new();
    list.add_task("kept", None, 7).unwrap();
    assert_eq!(list.close_task(42), Err(TaskError::NotFound));
    assert_eq!(list.get_size(), 1);
    assert_eq!(list.entries[0].status, Status::Todo);
    assert_eq!(list.entries[0].created_at, 7);
    assert_eq!(list.get_cursor(), 1);
}

#[test]
fn overdue_task_can_be_closed() {
    let mut list = List::new();
    let id = list.add_task("late", Some(5), 0).unwrap();
    list.check_overdues(100);
    assert_eq!(list.entries[0].status, Status::Overdue);
    assert!(list.close_task(id).is_ok());
    assert_eq!(list.entries[0].status, Status::Done);
}

#[test]
fn sweep_is_idempotent() {
    let mut list = List::new();
    list.add_task("past", Some(50), 0).unwrap();
    list.add_task("future", Some(5000), 0).unwrap();
    list.add_task("no deadline", None, 0).unwrap();
    let done = list.add_task("done and past", Some(50), 0).unwrap();
    list.close_task(done).unwrap();

    list.check_overdues(100);
    let first: Vec<Status> = list.entries.iter().map(|e| e.status).collect();
    assert_eq!(first, vec![Status::Overdue, Status::Todo, Status::Todo, Status::Done]);

    list.check_overdues(100);
    let second: Vec<Status> = list.entries.iter().map(|e| e.status).collect();
    assert_eq!(first, second);
}

#[test]
fn deadline_boundary_is_strict() {
    let mut list = List::new();
    list.add_task("exactly now", Some(100), 0).unwrap();
    list.check_overdues(100);
    // a deadline equal to now has not passed yet
    assert_eq!(list.entries[0].status, Status::Todo);
    list.check_overdues(101);
    assert_eq!(list.entries[0].status, Status::Overdue);
}

#[test]
fn tally_sums_to_size() {
    let mut list = List::new();
    list.add_task("a", Some(1), 0).unwrap();
    list.add_task("b", None, 0).unwrap();
    list.add_task("c", None, 0).unwrap();
    list.close_task(1).unwrap();
    list.check_overdues(50);
    let res = list.get_status();
    assert_eq!(res.todo + res.done + res.overdue, list.get_size());
    assert_eq!(res.todo, 1);
    assert_eq!(res.done, 1);
    assert_eq!(res.overdue, 1);
}

#[test]
fn partition_keeps_insertion_order() {
    let mut list = List::new();
    list.add_task("t one", None, 0).unwrap();
    list.add_task("o one", Some(5), 0).unwrap();
    list.add_task("d one", None, 0).unwrap();
    list.add_task("t two", None, 0).unwrap();
    list.add_task("o two", Some(6), 0).unwrap();
    list.close_task(2).unwrap();
    list.check_overdues(100);
    let (overdues, todos, dones) = list.partitioned();
    let names = |v: &Vec<tasklist::task::Entry>| -> Vec<Vec<u8>> {
        v.iter().map(|e| e.name.clone()).collect()
    };
    assert_eq!(names(&overdues), vec![b"o one".to_vec(), b"o two".to_vec()]);
    assert_eq!(names(&todos), vec![b"t one".to_vec(), b"t two".to_vec()]);
    assert_eq!(names(&dones), vec![b"d one".to_vec()]);
}

#[test]
fn encoding_is_exact() {
    let mut list = List::new();
    list.add_task("a", None, 5).unwrap();
    let expected = r#"{"entries":[{"id":0,"name":"a","status":"Todo","created_at":5,"deadline":null}],"next_id":1}"#;
    assert_eq!(encode_list(&list), expected.as_bytes().to_vec());
}

#[test]
fn round_trip_reproduces_state() {
    let mut list = List::new();
    list.add_task("plain", Some(-12345), -99).unwrap();
    list.add_task("with \"quotes\" and \\slash\\", None, 170_000_000).unwrap();
    list.add_task("overdue soon", Some(20), 3).unwrap();
    list.close_task(0).unwrap();
    list.check_overdues(1_000);
    list.inc_cursor();
    list.add_task("after a gap", None, 4).unwrap();

    let bytes = encode_list(&list);
    let back = decode_list(&bytes).unwrap();

    assert_eq!(back.get_size(), list.get_size());
    assert_eq!(back.get_cursor(), list.get_cursor());
    for (a, b) in list.entries.iter().zip(back.entries.iter()) {
        assert_eq!(a.id, b.id);
        assert_eq!(a.name, b.name);
        assert_eq!(a.status, b.status);
        assert_eq!(a.created_at, b.created_at);
        assert_eq!(a.deadline, b.deadline);
    }
}

#[test]
fn decode_rejects_corrupt_bytes() {
    assert!(matches!(decode_list("garbage".as_bytes()), Err(TaskError::Corrupt)));
    assert!(matches!(decode_list("".as_bytes()), Err(TaskError::Corrupt)));
    let mut list = List::new();
    list.add_task("x", None, 0).unwrap();
    let mut bytes = encode_list(&list);
    bytes.pop();
    assert!(matches!(decode_list(&bytes), Err(TaskError::Corrupt)));
}

#[test]
fn parse_deadline_rejects_bad_month() {
    assert!(parse_deadline(String::from("2024-13-01")).is_none());
    assert!(parse_deadline(String::from("2024-02-30")).is_none());
    assert!(parse_deadline(String::from("2024-1")).is_none());
    assert!(parse_deadline(String::from("20x4-01-01")).is_none());
}

#[test]
fn end_to_end_session() {
    let now = now_seconds();
    let yesterday = now - 60 * 60 * 24;
    let mut list = List::new();
    assert_eq!(list.add_task("Buy milk", None, now).unwrap(), 0);
    assert_eq!(list.entries[0].status, Status::Todo);
    assert_eq!(list.add_task("Pay rent", Some(yesterday), now).unwrap(), 1);
    list.check_overdues(now);
    let res = list.get_status();
    assert_eq!((res.todo, res.overdue, res.done), (1, 1, 0));
    assert!(list.close_task(1).is_ok());
    let res = list.get_status();
    assert_eq!((res.todo, res.overdue, res.done), (1, 0, 1));
}
