//! The mutator: applies one append, delete-at, or complete-at mutation to
//! the in-scope subset, using 1-based positions within that subset.

use vstd::prelude::*;

use crate::record::{Record, RecordView, Timestamp, TodoError, views};

verus! {

/// The one mutation an invocation performs; selecting none means listing.
///
/// Positions are 1-based and relative to the in-scope subset of the run.
pub enum Command {
    AddItem { message: Vec<u8> },
    DeleteItem { index: usize },
    CompleteItem { index: usize },
    ShowItems,
}

/// The record an add creates: fresh timestamp, the working directory as the
/// origin, the given message, not completed.
pub open spec fn new_record(now: Timestamp, cwd: Seq<u8>, message: Seq<u8>) -> RecordView {
    RecordView { created_at: now, origin_path: cwd, message: message, completed_at: None }
}

/// `r` with its completion time set to `now`.
pub open spec fn completed_record(r: RecordView, now: Timestamp) -> RecordView {
    RecordView { completed_at: Some(now), ..r }
}

/// Appends a fresh record to the in-scope subset.  Fails exactly when the
/// message is empty, leaving the subset untouched.
pub fn add_record(in_scope: &mut Vec<Record>, message: Vec<u8>, now: Timestamp, cwd: Vec<u8>) -> (r:
    Result<(), TodoError>)
    ensures
        match r {
            Ok(()) => message@.len() > 0 && views(final(in_scope)@) == views(old(in_scope)@).push(
                new_record(now, cwd@, message@),
            ),
            Err(e) => e == TodoError::EmptyMessage && message@.len() == 0 && final(in_scope)@
                == old(in_scope)@,
        },
{
    if message.len() == 0 {
        return Err(TodoError::EmptyMessage);
    }
    let ghost cwdv = cwd@;
    let ghost msgv = message@;
    let rec = Record { created_at: now, origin_path: cwd, message: message, completed_at: None };
    in_scope.push(rec);
    assert(views(in_scope@) =~= views(old(in_scope)@).push(new_record(now, cwdv, msgv)));
    Ok(())
}

/// Removes the record at the given 1-based position of the in-scope subset.
/// Fails exactly when the position is 0 or past the end, leaving the subset
/// untouched.
pub fn delete_record(in_scope: &mut Vec<Record>, index: usize) -> (r: Result<(), TodoError>)
    ensures
        match r {
            Ok(()) => 1 <= index <= old(in_scope)@.len() && views(final(in_scope)@) == views(
                old(in_scope)@,
            ).remove(index - 1),
            Err(e) => e == TodoError::IndexOutOfRange && (index == 0 || index > old(
                in_scope,
            )@.len()) && final(in_scope)@ == old(in_scope)@,
        },
{
    if index == 0 || index > in_scope.len() {
        return Err(TodoError::IndexOutOfRange);
    }
    in_scope.remove(index - 1);
    assert(views(in_scope@) =~= views(old(in_scope)@).remove(index - 1));
    Ok(())
}

/// Sets the completion time of the record at the given 1-based position of
/// the in-scope subset; an already-completed record simply gets the new
/// time.  Fails exactly when the position is 0 or past the end, leaving the
/// subset untouched.
pub fn complete_record(in_scope: &mut Vec<Record>, index: usize, now: Timestamp) -> (r: Result<
    (),
    TodoError,
>)
    ensures
        match r {
            Ok(()) => 1 <= index <= old(in_scope)@.len() && views(final(in_scope)@) == views(
                old(in_scope)@,
            ).update(index - 1, completed_record(old(in_scope)@[index - 1]@, now)),
            Err(e) => e == TodoError::IndexOutOfRange && (index == 0 || index > old(
                in_scope,
            )@.len()) && final(in_scope)@ == old(in_scope)@,
        },
{
    if index == 0 || index > in_scope.len() {
        return Err(TodoError::IndexOutOfRange);
    }
    let mut rec = in_scope.remove(index - 1);
    rec.completed_at = Some(now);
    in_scope.insert(index - 1, rec);
    assert(views(in_scope@) =~= views(old(in_scope)@).update(
        index - 1,
        completed_record(old(in_scope)@[index - 1]@, now),
    ));
    Ok(())
}

} // verus!
