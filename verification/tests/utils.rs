use std::time::Duration;

use chrono::Datelike;
use chrono::TimeZone;
use chrono::prelude::Local;

use tasklist::dates::parse_deadline;
use tasklist::list::List;
use tasklist::task::{Entry, Status};

fn now_seconds() -> i64 {
    Local::now().naive_local().and_utc().timestamp()
}

fn get_stub() -> List {
    let mut to_return = List::new();

    to_return.add_task("Done entry", None, 0).unwrap();
    to_return.add_task("Done entry 2", None, 0).unwrap();

    to_return.add_task("Sample entry", None, 0).unwrap();
    to_return.add_task("Sample entry 2", None, 0).unwrap();

    to_return
}

#[test]
fn list_size() {
    let mut list = List::new();
    let total_tasks: usize = 100;
    for i in 0..total_tasks {
        let curr_task_name = format!("Sample task {}", i);
        list.add_task(&curr_task_name, None, 0).unwrap();
    }
    assert_eq!(list.get_size(), total_tasks);
}

#[test]
fn new_task() {
    let mut list = List::new();
    list.add_task("Sample task", None, 0).unwrap();

    let to_close: i32 = 0;

    assert_eq!(list.entries[to_close as usize].status, Status::Todo);
    list.close_task(to_close).unwrap();
    assert_eq!(list.entries[to_close as usize].status, Status::Done);
}

#[test]
fn parse_pass() {
    let line = String::from("2024-01-01\n");
    let res = parse_deadline(line).unwrap();
    let exp = Local
        .with_ymd_and_hms(2024, 1, 1, 0, 0, 0)
        .unwrap()
        .naive_local()
        .and_utc()
        .timestamp();

    assert_eq!(res, exp);
}

#[test]
fn parse_fail_not_date() {
    let line_error = String::from("2024-01-011232");
    let res = parse_deadline(line_error);
    assert!(res.is_none());
}

#[test]
fn parse_fail_empty() {
    let line_error = String::from("");
    let res = parse_deadline(line_error);
    assert!(res.is_none());
}

#[test]
fn overdue_true() {
    let deadline = parse_deadline(String::from("2000-01-01"));
    let entry = Entry::new(0, String::from("test entry"), deadline, now_seconds());

    assert!(entry.is_overdue(now_seconds()));
}

#[test]
fn overdue_missing() {
    // Empty deadline, results in no deadline at all
    let deadline = parse_deadline(String::from(""));
    let entry = Entry::new(0, String::from("test entry"), deadline, now_seconds());

    assert!(!entry.is_overdue(now_seconds()));
}

#[test]
fn not_overdue() {
    // One day from now
    let curr_time = Local::now().naive_local() + Duration::from_secs(60 * 60 * 24);
    let deadline_str = format!("{}-{}-{}", curr_time.year(), curr_time.month(), curr_time.day());
    let deadline = parse_deadline(String::from(deadline_str));
    let entry = Entry::new(0, String::from("test entry"), deadline, now_seconds());

    assert!(!entry.is_overdue(now_seconds()));
}

#[test]
fn status_dist() {
    let mut list = get_stub();

    list.close_task(0).unwrap();
    list.close_task(1).unwrap();

    let res = list.get_status();

    assert_eq!(res.todo, 2);
    assert_eq!(res.done, 2);
}
