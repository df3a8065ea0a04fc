//! The recombiner and the whole load-partition-mutate-recombine cycle.
//!
//! `recombine` merges the mutated in-scope subset with the untouched
//! out-of-scope subset and restores the canonical ascending order by
//! creation time.  `run_todo` strings one invocation together: partition,
//! one mutation, recombination; listing short-circuits without producing
//! anything to save.

use vstd::prelude::*;

use crate::mutate::{
    Command, add_record, complete_record, completed_record, delete_record, new_record,
};
use crate::record::{Record, RecordView, Timestamp, TodoError, sorted_by_created, ts_le, views};
use crate::scope::{
    byte_views, partition_records, record_in_scope, spec_in_scope, spec_out_scope,
};

verus! {

broadcast use vstd::seq_lib::group_to_multiset_ensures, vstd::multiset::group_multiset_axioms;

fn insert_sorted(out: &mut Vec<Record>, rec: Record)
    requires
        sorted_by_created(views(old(out)@)),
    ensures
        sorted_by_created(views(final(out)@)),
        views(final(out)@).to_multiset() == views(old(out)@).to_multiset().insert(rec@),
        final(out)@.len() == old(out)@.len() + 1,
{
    let ghost recv = rec@;
    let mut j: usize = 0;
    while j < out.len() && out[j].created_at.le(&rec.created_at)
        invariant
            j <= out@.len(),
            forall|k: int| 0 <= k < j ==> ts_le(out@[k].created_at, rec.created_at),
        decreases out@.len() - j,
    {
        j = j + 1;
    }
    let ghost pre = views(out@);
    out.insert(j, rec);
    proof {
        assert(views(out@) =~= pre.insert(j as int, recv));
        let w = views(out@);
        assert forall|a: int, b: int| 0 <= a < b < w.len() implies ts_le(
            w[a].created_at,
            w[b].created_at,
        ) by {
            assert(forall|k: int| 0 <= k < j ==> w[k] == pre[k]);
            assert(w[j as int] == recv);
            assert(forall|k: int| j < k < w.len() ==> w[k] == pre[k - 1]);
            if b == j {
                assert(ts_le(w[a].created_at, recv.created_at));
            } else if a == j {
                assert(!ts_le(pre[j as int].created_at, recv.created_at));
                assert(ts_le(recv.created_at, pre[j as int].created_at));
                assert(ts_le(pre[j as int].created_at, pre[b - 1].created_at));
            }
        }
    }
}

/// Concatenates the two halves and re-sorts ascending by creation time,
/// which re-establishes the canonical order the next invocation's positions
/// rely on.
pub fn recombine(in_scope: Vec<Record>, out_scope: Vec<Record>) -> (r: Vec<Record>)
    ensures
        sorted_by_created(views(r@)),
        views(r@).to_multiset() == (views(in_scope@) + views(out_scope@)).to_multiset(),
        r@.len() == in_scope@.len() + out_scope@.len(),
{
    let ghost a = views(in_scope@);
    let ghost b = views(out_scope@);
    let ghost total = a + b;
    let mut merged = in_scope;
    let mut tail = out_scope;
    merged.append(&mut tail);
    proof {
        assert(views(merged@) =~= total);
    }
    let mut sorted: Vec<Record> = Vec::new();
    proof {
        assert(views(sorted@) =~= Seq::<RecordView>::empty());
        assert(views(sorted@).to_multiset().add(views(merged@).to_multiset())
            =~= total.to_multiset());
    }
    while merged.len() > 0
        invariant
            sorted_by_created(views(sorted@)),
            views(sorted@).to_multiset().add(views(merged@).to_multiset()) == total.to_multiset(),
            sorted@.len() + merged@.len() == total.len(),
            total == a + b,
        decreases merged@.len(),
    {
        let ghost mpre = views(merged@);
        let rec = merged.remove(0);
        let ghost spre = views(sorted@);
        insert_sorted(&mut sorted, rec);
        proof {
            assert(views(merged@) =~= mpre.remove(0));
            assert(mpre.contains(rec@)) by {
                assert(mpre[0] == rec@);
            };
            assert(views(sorted@).to_multiset().add(views(merged@).to_multiset())
                =~= total.to_multiset());
        }
    }
    proof {
        assert(views(merged@) =~= Seq::<RecordView>::empty());
        assert(views(sorted@).to_multiset() =~= total.to_multiset());
    }
    sorted
}

/// What one invocation hands back: records to display (listing, no save) or
/// the full collection to persist.
#[derive(Clone, PartialEq, Eq, Debug)]
pub enum RunOutcome {
    Display(Vec<Record>),
    Save(Vec<Record>),
}

/// The saved collection is canonical: sorted ascending by creation time and
/// made of exactly the mutated in-scope records plus the untouched
/// out-of-scope records.
pub open spec fn saved_ok(new_in: Seq<RecordView>, outs: Seq<RecordView>, v: Vec<Record>) -> bool {
    &&& sorted_by_created(views(v@))
    &&& views(v@).to_multiset() == (new_in + outs).to_multiset()
    &&& v@.len() == new_in.len() + outs.len()
}

/// Full behaviour of one invocation, for every command.
pub open spec fn spec_run_matches(
    all: Seq<RecordView>,
    filters: Seq<Seq<u8>>,
    cmd: Command,
    now: Timestamp,
    cwd: Seq<u8>,
    r: Result<RunOutcome, TodoError>,
) -> bool {
    let ins = spec_in_scope(all, filters);
    let outs = spec_out_scope(all, filters);
    match cmd {
        Command::ShowItems => {
            &&& r is Ok
            &&& r->Ok_0 is Display
            &&& views(r->Ok_0->Display_0@) == ins
        },
        Command::AddItem { message } => {
            if message@.len() == 0 {
                r == Err::<RunOutcome, TodoError>(TodoError::EmptyMessage)
            } else {
                &&& r is Ok
                &&& r->Ok_0 is Save
                &&& saved_ok(ins.push(new_record(now, cwd, message@)), outs, r->Ok_0->Save_0)
            }
        },
        Command::DeleteItem { index } => {
            if index == 0 || index > ins.len() {
                r == Err::<RunOutcome, TodoError>(TodoError::IndexOutOfRange)
            } else {
                &&& r is Ok
                &&& r->Ok_0 is Save
                &&& saved_ok(ins.remove(index - 1), outs, r->Ok_0->Save_0)
            }
        },
        Command::CompleteItem { index } => {
            if index == 0 || index > ins.len() {
                r == Err::<RunOutcome, TodoError>(TodoError::IndexOutOfRange)
            } else {
                &&& r is Ok
                &&& r->Ok_0 is Save
                &&& saved_ok(
                    ins.update(index - 1, completed_record(ins[index - 1], now)),
                    outs,
                    r->Ok_0->Save_0,
                )
            }
        },
    }
}

/// One whole invocation minus the I/O: partition by the filters, apply the
/// command to the in-scope subset, recombine.  Listing only displays;
/// errors leave nothing to save.
pub fn run_todo(
    all: Vec<Record>,
    filters: &Vec<Vec<u8>>,
    cmd: Command,
    now: Timestamp,
    cwd: Vec<u8>,
) -> (r: Result<RunOutcome, TodoError>)
    ensures
        spec_run_matches(views(all@), byte_views(filters@), cmd, now, cwd@, r),
{
    let (mut ins, outs) = partition_records(all, filters);
    match cmd {
        Command::ShowItems => Ok(RunOutcome::Display(ins)),
        Command::AddItem { message } => {
            match add_record(&mut ins, message, now, cwd) {
                Err(e) => Err(e),
                Ok(()) => Ok(RunOutcome::Save(recombine(ins, outs))),
            }
        },
        Command::DeleteItem { index } => {
            match delete_record(&mut ins, index) {
                Err(e) => Err(e),
                Ok(()) => Ok(RunOutcome::Save(recombine(ins, outs))),
            }
        },
        Command::CompleteItem { index } => {
            match complete_record(&mut ins, index, now) {
                Err(e) => Err(e),
                Ok(()) => Ok(RunOutcome::Save(recombine(ins, outs))),
            }
        },
    }
}

/// A timestamp as the clock wrapper can produce it: chrono keeps the
/// sub-second part below two seconds (leap seconds ride on the nanosecond
/// field) and a fixed offset strictly within one day of UTC.
pub open spec fn plausible_now(t: Timestamp) -> bool {
    t.nanos < 2_000_000_000 && -86_400 < t.offset_secs < 86_400
}

/// Relies on `chrono::Local::now` for the current instant, read out through
/// `DateTime::timestamp`, `DateTime::timestamp_subsec_nanos` (below
/// 2_000_000_000, the leap-second headroom of chrono's `NaiveTime`) and
/// `FixedOffset::local_minus_utc` (strictly between -86_400 and 86_400).
/// Nothing more is assumed: the clock may return anything in those bounds.
#[verifier::external_body]
fn now_timestamp() -> (t: Timestamp)
    ensures
        plausible_now(t),
{
    let dt = chrono::Local::now();
    Timestamp {
        secs: dt.timestamp(),
        nanos: dt.timestamp_subsec_nanos(),
        offset_secs: dt.offset().local_minus_utc(),
    }
}

/// `run_todo` against the current wall-clock time: whatever instant the
/// clock returns, the run behaves as `spec_run_matches` for that instant.
pub fn run_todo_now(
    all: Vec<Record>,
    filters: &Vec<Vec<u8>>,
    cmd: Command,
    cwd: Vec<u8>,
) -> (r: Result<RunOutcome, TodoError>)
    ensures
        exists|now: Timestamp| #[trigger] plausible_now(now) && spec_run_matches(
            views(all@),
            byte_views(filters@),
            cmd,
            now,
            cwd@,
            r,
        ),
{
    let ghost allv = views(all@);
    let ghost fs = byte_views(filters@);
    let ghost cwdv = cwd@;
    let ghost cmd0 = cmd;
    let now = now_timestamp();
    let r = run_todo(all, filters, cmd, now, cwd);
    proof {
        assert(plausible_now(now) && spec_run_matches(allv, fs, cmd0, now, cwdv, r));
    }
    r
}

proof fn lemma_out_scope_contains(s: Seq<RecordView>, filters: Seq<Seq<u8>>, i: int)
    requires
        0 <= i < s.len(),
        !record_in_scope(s[i], filters),
    ensures
        spec_out_scope(s, filters).contains(s[i]),
    decreases s.len(),
{
    reveal(Seq::filter);
    if i == s.len() - 1 {
        assert(spec_out_scope(s, filters).last() == s[i]);
    } else {
        lemma_out_scope_contains(s.drop_last(), filters, i);
        let sub = spec_out_scope(s.drop_last(), filters);
        let k = choose|k: int| 0 <= k < sub.len() && sub[k] == s.drop_last()[i];
        assert(spec_out_scope(s, filters)[k] == s[i]);
    }
}

/// Out-of-scope immutability: a record that the active filters do not reach
/// is still present, with exactly its old content, in whatever collection a
/// mutating run saves.
pub proof fn lemma_out_of_scope_unchanged(
    all: Seq<RecordView>,
    filters: Seq<Seq<u8>>,
    cmd: Command,
    now: Timestamp,
    cwd: Seq<u8>,
    r: Result<RunOutcome, TodoError>,
    x: RecordView,
)
    requires
        spec_run_matches(all, filters, cmd, now, cwd, r),
        r is Ok,
        r->Ok_0 is Save,
        all.contains(x),
        !record_in_scope(x, filters),
    ensures
        views(r->Ok_0->Save_0@).contains(x),
{
    let outs = spec_out_scope(all, filters);
    let i = choose|i: int| 0 <= i < all.len() && all[i] == x;
    lemma_out_scope_contains(all, filters, i);
    let v = views(r->Ok_0->Save_0@);
    let saved = v.to_multiset();
    assert(outs.to_multiset().count(x) > 0);
    match cmd {
        Command::ShowItems => {
            assert(false);
        },
        Command::AddItem { message } => {
            let new_in = spec_in_scope(all, filters).push(
                new_record(now, cwd, message@),
            );
            vstd::seq_lib::lemma_multiset_commutative(new_in, outs);
            assert(saved.count(x) > 0);
        },
        Command::DeleteItem { index } => {
            let new_in = spec_in_scope(all, filters).remove(index - 1);
            vstd::seq_lib::lemma_multiset_commutative(new_in, outs);
            assert(saved.count(x) > 0);
        },
        Command::CompleteItem { index } => {
            let ins = spec_in_scope(all, filters);
            let new_in = ins.update(index - 1, completed_record(ins[index - 1], now));
            vstd::seq_lib::lemma_multiset_commutative(new_in, outs);
            assert(saved.count(x) > 0);
        },
    }
}

} // verus!
