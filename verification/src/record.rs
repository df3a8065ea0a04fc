//! The record data model: timestamps, records, and the error taxonomy.

use vstd::prelude::*;

verus! {

/// One instant in time, kept as plain integers.
///
/// `secs`/`nanos` locate the instant on the UTC time line (seconds since the
/// Unix epoch plus nanoseconds within that second); `offset_secs` remembers
/// the local offset from UTC that was current when the value was taken, and
/// only matters for display.  Ordering of timestamps goes by the instant
/// alone and ignores the offset.
#[derive(Clone, Copy, PartialEq, Eq, Structural, Debug)]
pub struct Timestamp {
    pub secs: i64,
    pub nanos: u32,
    pub offset_secs: i32,
}

/// `a` is no later than `b`: ordering by instant, ignoring the offset.
pub open spec fn ts_le(a: Timestamp, b: Timestamp) -> bool {
    a.secs < b.secs || (a.secs == b.secs && a.nanos <= b.nanos)
}

impl Timestamp {
    /// Executable comparison matching `ts_le`.
    pub fn le(&self, other: &Timestamp) -> (r: bool)
        ensures
            r == ts_le(*self, *other),
    {
        self.secs < other.secs || (self.secs == other.secs && self.nanos <= other.nanos)
    }
}

/// One stored task entry.
///
/// `origin_path` and `message` are held as UTF-8 bytes; the path is expected
/// to be absolute and canonicalized by the caller before a record is made.
#[derive(Clone, PartialEq, Eq, Debug)]
pub struct Record {
    pub created_at: Timestamp,
    pub origin_path: Vec<u8>,
    pub message: Vec<u8>,
    pub completed_at: Option<Timestamp>,
}

/// The mathematical image of a `Record`.
#[verifier::ext_equal]
pub ghost struct RecordView {
    pub created_at: Timestamp,
    pub origin_path: Seq<u8>,
    pub message: Seq<u8>,
    pub completed_at: Option<Timestamp>,
}

impl View for Record {
    type V = RecordView;

    open spec fn view(&self) -> RecordView {
        RecordView {
            created_at: self.created_at,
            origin_path: self.origin_path@,
            message: self.message@,
            completed_at: self.completed_at,
        }
    }
}

/// The views of a whole sequence of records.
pub open spec fn views(s: Seq<Record>) -> Seq<RecordView> {
    s.map_values(|r: Record| r@)
}

/// A sequence of records in canonical order: ascending by creation time.
pub open spec fn sorted_by_created(s: Seq<RecordView>) -> bool {
    forall|i: int, j: int|
        0 <= i < j < s.len() ==> ts_le(#[trigger] s[i].created_at, #[trigger] s[j].created_at)
}

/// Everything that can go fatally wrong in one run.
#[derive(Clone, Copy, PartialEq, Eq, Structural, Debug)]
pub enum TodoError {
    /// The storage directory or backing file cannot be reached.
    StorageAccess,
    /// The backing file exists but does not decode as a collection.
    CorruptStore,
    /// A filter path or the working directory cannot be canonicalized.
    PathResolution,
    /// A delete/complete position lies outside `[1, len]` of the in-scope subset.
    IndexOutOfRange,
    /// An add was requested with no message text.
    EmptyMessage,
}

} // verus!
