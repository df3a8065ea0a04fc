use todo_store::codec::encode_collection;
use todo_store::mutate::{add_record, complete_record, delete_record, Command};
use todo_store::record::{Record, Timestamp, TodoError};
use todo_store::store::{recombine, run_todo, run_todo_now, RunOutcome};

fn ts(secs: i64) -> Timestamp {
    Timestamp { secs, nanos: 0, offset_secs: 0 }
}

fn rec(secs: i64, path: &str, msg: &str) -> Record {
    Record {
        created_at: ts(secs),
        origin_path: path.as_bytes().to_vec(),
        message: msg.as_bytes().to_vec(),
        completed_at: None,
    }
}

fn filters(paths: &[&str]) -> Vec<Vec<u8>> {
    paths.iter().map(|p| p.as_bytes().to_vec()).collect()
}

#[test]
fn add_rejects_empty_message() {
    let mut v = vec![rec(1, "/a", "x")];
    let before = v.clone();
    let r = add_record(&mut v, Vec::new(), ts(9), b"/a".to_vec());
    assert_eq!(r, Err(TodoError::EmptyMessage));
    assert_eq!(v, before);
}

#[test]
fn add_appends_new_record() {
    let mut v = vec![rec(1, "/a", "x")];
    add_record(&mut v, b"new task".to_vec(), ts(9), b"/work".to_vec()).unwrap();
    assert_eq!(v.len(), 2);
    assert_eq!(v[1].message, b"new task".to_vec());
    assert_eq!(v[1].origin_path, b"/work".to_vec());
    assert_eq!(v[1].created_at, ts(9));
    assert_eq!(v[1].completed_at, None);
}

#[test]
fn delete_boundaries() {
    let mut v = vec![rec(1, "/a", "x"), rec(2, "/a", "y")];
    let before = v.clone();
    assert_eq!(delete_record(&mut v, 0), Err(TodoError::IndexOutOfRange));
    assert_eq!(v, before);
    assert_eq!(delete_record(&mut v, 3), Err(TodoError::IndexOutOfRange));
    assert_eq!(v, before);
    assert_eq!(delete_record(&mut v, 1), Ok(()));
    assert_eq!(v, vec![before[1].clone()]);
}

#[test]
fn complete_on_empty_subset_is_out_of_range() {
    let mut v: Vec<Record> = Vec::new();
    assert_eq!(complete_record(&mut v, 1, ts(5)), Err(TodoError::IndexOutOfRange));
    assert!(v.is_empty());
}

#[test]
fn complete_overwrites_timestamp() {
    let mut v = vec![rec(1, "/a", "x")];
    complete_record(&mut v, 1, ts(5)).unwrap();
    assert_eq!(v[0].completed_at, Some(ts(5)));
    complete_record(&mut v, 1, ts(8)).unwrap();
    assert_eq!(v[0].completed_at, Some(ts(8)));
    assert_eq!(v[0].created_at, ts(1));
}

#[test]
fn canonical_reordering_on_save() {
    let t1 = rec(1, "/a", "t1");
    let t2 = rec(2, "/a", "t2");
    let t3 = rec(3, "/a", "t3");
    let merged = recombine(
        vec![t3.clone(), t1.clone()],
        vec![t2.clone()],
    );
    assert_eq!(merged, vec![t1, t2, t3]);
}

#[test]
fn list_is_read_only() {
    let all = vec![rec(1, "/a", "x"), rec(2, "/b", "y")];
    let r = run_todo(all.clone(), &filters(&[]), Command::ShowItems, ts(99), b"/".to_vec());
    match r.unwrap() {
        RunOutcome::Display(shown) => assert_eq!(shown, all),
        RunOutcome::Save(_) => panic!("listing must not produce anything to save"),
    }
}

#[test]
fn positional_stability_after_add() {
    // Under filter {/a}: r1, r2 in scope, then an add makes r3 position 3.
    let r1 = rec(1, "/a/x", "r1");
    let r2 = rec(2, "/a/y", "r2");
    let other = rec(3, "/b/z", "other");
    let all = vec![r1.clone(), r2.clone(), other.clone()];
    let saved = match run_todo(
        all,
        &filters(&["/a"]),
        Command::AddItem { message: b"r3".to_vec() },
        ts(10),
        b"/a/z".to_vec(),
    )
    .unwrap()
    {
        RunOutcome::Save(v) => v,
        RunOutcome::Display(_) => panic!("add must save"),
    };
    // Canonical order: r1, r2, other, r3 (by creation time).
    assert_eq!(saved.len(), 4);
    assert_eq!(saved[3].message, b"r3".to_vec());

    // complete 3 under {/a} marks r3 and touches nothing else.
    let saved2 = match run_todo(
        saved.clone(),
        &filters(&["/a"]),
        Command::CompleteItem { index: 3 },
        ts(20),
        b"/".to_vec(),
    )
    .unwrap()
    {
        RunOutcome::Save(v) => v,
        RunOutcome::Display(_) => panic!("complete must save"),
    };
    assert_eq!(saved2[3].completed_at, Some(ts(20)));
    assert_eq!(saved2[0], r1);
    assert_eq!(saved2[1], r2);
    assert_eq!(saved2[2], other);

    // delete 1 under {/a} removes r1 only; r2 and r3 shift up.
    let saved3 = match run_todo(
        saved2.clone(),
        &filters(&["/a"]),
        Command::DeleteItem { index: 1 },
        ts(30),
        b"/".to_vec(),
    )
    .unwrap()
    {
        RunOutcome::Save(v) => v,
        RunOutcome::Display(_) => panic!("delete must save"),
    };
    assert_eq!(saved3.len(), 3);
    assert_eq!(saved3[0], r2);
    assert_eq!(saved3[1], other);
    assert_eq!(saved3[2].message, b"r3".to_vec());
}

#[test]
fn out_of_scope_record_is_untouched() {
    let outside = Record {
        created_at: Timestamp { secs: 2, nanos: 123, offset_secs: -60 },
        origin_path: b"/b/z".to_vec(),
        message: b"keep me".to_vec(),
        completed_at: Some(ts(7)),
    };
    let all = vec![rec(1, "/a/x", "in"), outside.clone(), rec(3, "/a/y", "in2")];
    let saved = match run_todo(
        all,
        &filters(&["/a"]),
        Command::DeleteItem { index: 1 },
        ts(50),
        b"/".to_vec(),
    )
    .unwrap()
    {
        RunOutcome::Save(v) => v,
        RunOutcome::Display(_) => panic!("delete must save"),
    };
    // The out-of-scope record is still there, byte for byte, and the encoded
    // store carries exactly its old bytes.
    let found: Vec<&Record> = saved.iter().filter(|r| r.origin_path == b"/b/z".to_vec()).collect();
    assert_eq!(found.len(), 1);
    assert_eq!(*found[0], outside);
    let bytes = encode_collection(&saved);
    let alone = encode_collection(&vec![outside.clone()]);
    let line = &alone[2..];
    assert!(bytes.windows(line.len()).any(|w| w == line));
}

#[test]
fn boundary_errors_leave_nothing_to_save() {
    let all = vec![rec(1, "/a", "x")];
    let r = run_todo(all.clone(), &filters(&[]), Command::DeleteItem { index: 0 }, ts(9), b"/".to_vec());
    assert_eq!(r, Err(TodoError::IndexOutOfRange));
    let r = run_todo(all.clone(), &filters(&[]), Command::DeleteItem { index: 2 }, ts(9), b"/".to_vec());
    assert_eq!(r, Err(TodoError::IndexOutOfRange));
    let r = run_todo(
        Vec::new(),
        &filters(&[]),
        Command::CompleteItem { index: 1 },
        ts(9),
        b"/".to_vec(),
    );
    assert_eq!(r, Err(TodoError::IndexOutOfRange));
    let r = run_todo(
        all.clone(),
        &filters(&["/b"]),
        Command::DeleteItem { index: 1 },
        ts(9),
        b"/".to_vec(),
    );
    assert_eq!(r, Err(TodoError::IndexOutOfRange), "position is relative to the in-scope subset");
}

#[test]
fn add_with_wall_clock_time() {
    let saved = match run_todo_now(
        Vec::new(),
        &filters(&[]),
        Command::AddItem { message: b"clocked".to_vec() },
        b"/somewhere".to_vec(),
    )
    .unwrap()
    {
        RunOutcome::Save(v) => v,
        RunOutcome::Display(_) => panic!("add must save"),
    };
    assert_eq!(saved.len(), 1);
    assert_eq!(saved[0].message, b"clocked".to_vec());
    assert_eq!(saved[0].origin_path, b"/somewhere".to_vec());
    assert_eq!(saved[0].completed_at, None);
    // The clock wrapper's stated bounds.
    assert!(saved[0].created_at.nanos < 2_000_000_000);
    assert!(saved[0].created_at.offset_secs > -86_400);
    assert!(saved[0].created_at.offset_secs < 86_400);
    // A machine running this decade reports a positive epoch time.
    assert!(saved[0].created_at.secs > 0);
}

#[test]
fn positions_are_relative_to_the_filtered_view() {
    // delete 1 under {/b} removes the first in-scope record, not the first
    // record of the store.
    let all = vec![rec(1, "/a", "a1"), rec(2, "/b", "b1"), rec(3, "/b", "b2")];
    let saved = match run_todo(
        all,
        &filters(&["/b"]),
        Command::DeleteItem { index: 1 },
        ts(9),
        b"/".to_vec(),
    )
    .unwrap()
    {
        RunOutcome::Save(v) => v,
        RunOutcome::Display(_) => panic!("delete must save"),
    };
    assert_eq!(saved.len(), 2);
    assert_eq!(saved[0].message, b"a1".to_vec());
    assert_eq!(saved[1].message, b"b2".to_vec());
}
