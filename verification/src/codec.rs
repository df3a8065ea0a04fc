//! The store codec: a deterministic text encoding of a record collection.
//!
//! The format is line-oriented and length-prefixed.  A collection is the
//! record count, a newline, then one line per record:
//!
//! `<secs> <nanos> <offset> <n|c secs nanos offset> <plen>:<path><mlen>:<message>\n`
//!
//! Numbers are decimal, negative ones with a leading `-`.  Path and message
//! are raw bytes preceded by their length, so no escaping is needed.  The
//! whole format is given by spec functions (`spec_ser_collection`,
//! `spec_parse_collection`); the executable encoder and parser are proved to
//! match them exactly, and `lemma_encode_decode_round_trip` shows that
//! parsing an encoded collection gives the collection back.

use vstd::prelude::*;

use crate::record::{Record, RecordView, Timestamp, TodoError, views};

verus! {

/// ASCII decimal digit.
pub open spec fn is_digit(b: u8) -> bool {
    48 <= b && b <= 57
}

/// Numeric value of a digit byte.
pub open spec fn digit_val(b: u8) -> int {
    b - 48
}

/// Digit byte of a value below ten.
pub open spec fn digit_byte(d: int) -> u8 {
    (d + 48) as u8
}

/// Decimal digits of `n`, most significant first, no leading zeros.
pub open spec fn spec_ser_nat(n: nat) -> Seq<u8>
    decreases n,
{
    if n < 10 {
        seq![digit_byte(n as int)]
    } else {
        spec_ser_nat(n / 10).push(digit_byte((n % 10) as int))
    }
}

/// Decimal digits of `v`, with a leading `-` when negative.
pub open spec fn spec_ser_int(v: int) -> Seq<u8> {
    if v < 0 {
        seq![45u8] + spec_ser_nat((-v) as nat)
    } else {
        spec_ser_nat(v as nat)
    }
}

/// Reads a digit run left to right, accumulating into `acc`; fails only when
/// the accumulated value would leave the unsigned 64-bit range.
pub open spec fn spec_parse_nat_from(s: Seq<u8>, i: int, acc: int) -> Option<(int, int)>
    decreases s.len() - i,
{
    if 0 <= i && i < s.len() && is_digit(s[i]) {
        let v: int = acc * 10 + digit_val(s[i]);
        if v > u64::MAX {
            None
        } else {
            spec_parse_nat_from(s, i + 1, v)
        }
    } else {
        Some((acc, i))
    }
}

/// Reads a non-empty digit run at `i`; the value must fit in 64 unsigned bits.
pub open spec fn spec_parse_nat(s: Seq<u8>, i: int) -> Option<(int, int)> {
    if 0 <= i && i < s.len() && is_digit(s[i]) {
        spec_parse_nat_from(s, i, 0)
    } else {
        None
    }
}

/// Reads an optionally `-`-signed number; the value must fit in a signed
/// 64-bit integer.
pub open spec fn spec_parse_int(s: Seq<u8>, i: int) -> Option<(int, int)> {
    if 0 <= i && i < s.len() && s[i] == 45u8 {
        match spec_parse_nat(s, i + 1) {
            Some((m, j)) => if m <= 0x8000_0000_0000_0000 {
                Some((-m, j))
            } else {
                None
            },
            None => None,
        }
    } else {
        match spec_parse_nat(s, i) {
            Some((m, j)) => if m <= i64::MAX {
                Some((m, j))
            } else {
                None
            },
            None => None,
        }
    }
}

/// `<secs> <nanos> <offset>`.
pub open spec fn spec_ser_ts(t: Timestamp) -> Seq<u8> {
    spec_ser_int(t.secs as int) + seq![32u8] + spec_ser_nat(t.nanos as nat) + seq![32u8]
        + spec_ser_int(t.offset_secs as int)
}

pub open spec fn spec_parse_ts(s: Seq<u8>, i: int) -> Option<(Timestamp, int)> {
    match spec_parse_int(s, i) {
        Some((secs, j)) => if j < s.len() && s[j] == 32u8 {
            match spec_parse_nat(s, j + 1) {
                Some((nanos, k)) => if nanos <= u32::MAX && k < s.len() && s[k] == 32u8 {
                    match spec_parse_int(s, k + 1) {
                        Some((off, l)) => if i32::MIN <= off && off <= i32::MAX {
                            Some(
                                (
                                    Timestamp {
                                        secs: secs as i64,
                                        nanos: nanos as u32,
                                        offset_secs: off as i32,
                                    },
                                    l,
                                ),
                            )
                        } else {
                            None
                        },
                        None => None,
                    }
                } else {
                    None
                },
                None => None,
            }
        } else {
            None
        },
        None => None,
    }
}

/// `<len>:<raw bytes>`.
pub open spec fn spec_ser_bytes(b: Seq<u8>) -> Seq<u8> {
    spec_ser_nat(b.len()) + seq![58u8] + b
}

pub open spec fn spec_parse_bytes(s: Seq<u8>, i: int) -> Option<(Seq<u8>, int)> {
    match spec_parse_nat(s, i) {
        Some((n, j)) => if j < s.len() && s[j] == 58u8 && j + 1 + n <= s.len() {
            Some((s.subrange(j + 1, j + 1 + n), j + 1 + n))
        } else {
            None
        },
        None => None,
    }
}

/// `n` for an open entry, `c ` and a timestamp for a completed one.
pub open spec fn spec_ser_completed(c: Option<Timestamp>) -> Seq<u8> {
    match c {
        None => seq![110u8],
        Some(t) => seq![99u8, 32u8] + spec_ser_ts(t),
    }
}

pub open spec fn spec_parse_completed(s: Seq<u8>, i: int) -> Option<(Option<Timestamp>, int)> {
    if 0 <= i && i < s.len() && s[i] == 110u8 {
        Some((None, i + 1))
    } else if 0 <= i && i < s.len() && s[i] == 99u8 && i + 1 < s.len() && s[i + 1] == 32u8 {
        match spec_parse_ts(s, i + 2) {
            Some((t, j)) => Some((Some(t), j)),
            None => None,
        }
    } else {
        None
    }
}

/// One record line.
pub open spec fn spec_ser_record(r: RecordView) -> Seq<u8> {
    spec_ser_ts(r.created_at) + seq![32u8] + spec_ser_completed(r.completed_at) + seq![32u8]
        + spec_ser_bytes(r.origin_path) + spec_ser_bytes(r.message) + seq![10u8]
}

pub open spec fn spec_parse_record(s: Seq<u8>, i: int) -> Option<(RecordView, int)> {
    match spec_parse_ts(s, i) {
        Some((created, j)) => if j < s.len() && s[j] == 32u8 {
            match spec_parse_completed(s, j + 1) {
                Some((comp, k)) => if k < s.len() && s[k] == 32u8 {
                    match spec_parse_bytes(s, k + 1) {
                        Some((path, l)) => match spec_parse_bytes(s, l) {
                            Some((msg, m)) => if m < s.len() && s[m] == 10u8 {
                                Some(
                                    (
                                        RecordView {
                                            created_at: created,
                                            origin_path: path,
                                            message: msg,
                                            completed_at: comp,
                                        },
                                        m + 1,
                                    ),
                                )
                            } else {
                                None
                            },
                            None => None,
                        },
                        None => None,
                    }
                } else {
                    None
                },
                None => None,
            }
        } else {
            None
        },
        None => None,
    }
}

pub open spec fn spec_ser_records(rs: Seq<RecordView>) -> Seq<u8>
    decreases rs.len(),
{
    if rs.len() == 0 {
        Seq::empty()
    } else {
        spec_ser_record(rs[0]) + spec_ser_records(rs.drop_first())
    }
}

/// The record count, a newline, then the record lines.
pub open spec fn spec_ser_collection(rs: Seq<RecordView>) -> Seq<u8> {
    spec_ser_nat(rs.len()) + seq![10u8] + spec_ser_records(rs)
}

pub open spec fn spec_parse_records(s: Seq<u8>, i: int, n: int) -> Option<(Seq<RecordView>, int)>
    decreases n,
{
    if n <= 0 {
        Some((Seq::empty(), i))
    } else {
        match spec_parse_record(s, i) {
            Some((r, j)) => match spec_parse_records(s, j, n - 1) {
                Some((rest, k)) => Some((seq![r] + rest, k)),
                None => None,
            },
            None => None,
        }
    }
}

/// A whole store: the count line, exactly that many records, nothing after.
pub open spec fn spec_parse_collection(s: Seq<u8>) -> Option<Seq<RecordView>> {
    match spec_parse_nat(s, 0) {
        Some((n, j)) => if j < s.len() && s[j] == 10u8 {
            match spec_parse_records(s, j + 1, n) {
                Some((rs, k)) => if k == s.len() {
                    Some(rs)
                } else {
                    None
                },
                None => None,
            }
        } else {
            None
        },
        None => None,
    }
}

fn push_nat(out: &mut Vec<u8>, n: u64)
    ensures
        final(out)@ == old(out)@ + spec_ser_nat(n as nat),
    decreases n,
{
    if n < 10 {
        out.push((n as u8) + 48);
        assert(out@ =~= old(out)@ + spec_ser_nat(n as nat));
    } else {
        push_nat(out, n / 10);
        out.push(((n % 10) as u8) + 48);
        assert(out@ =~= old(out)@ + spec_ser_nat(n as nat));
    }
}

fn push_int(out: &mut Vec<u8>, v: i64)
    ensures
        final(out)@ == old(out)@ + spec_ser_int(v as int),
{
    if v < 0 {
        out.push(45);
        let mag: u64 = if v == i64::MIN {
            9223372036854775808u64
        } else {
            (-v) as u64
        };
        assert(mag as int == -(v as int));
        push_nat(out, mag);
        assert(out@ =~= old(out)@ + spec_ser_int(v as int));
    } else {
        push_nat(out, v as u64);
    }
}

fn push_ts(out: &mut Vec<u8>, t: &Timestamp)
    ensures
        final(out)@ == old(out)@ + spec_ser_ts(*t),
{
    push_int(out, t.secs);
    out.push(32);
    push_nat(out, t.nanos as u64);
    out.push(32);
    push_int(out, t.offset_secs as i64);
    assert(out@ =~= old(out)@ + spec_ser_ts(*t));
}

fn push_bytes(out: &mut Vec<u8>, b: &Vec<u8>)
    ensures
        final(out)@ == old(out)@ + spec_ser_bytes(b@),
        b@.len() <= u64::MAX,
{
    push_nat(out, b.len() as u64);
    out.push(58);
    assert(out@ =~= old(out)@ + spec_ser_nat(b@.len()) + seq![58u8] + b@.take(0));
    let mut k: usize = 0;
    while k < b.len()
        invariant
            k <= b@.len(),
            out@ == old(out)@ + spec_ser_nat(b@.len()) + seq![58u8] + b@.take(k as int),
        decreases b@.len() - k,
    {
        out.push(b[k]);
        k = k + 1;
        assert(out@ =~= old(out)@ + spec_ser_nat(b@.len()) + seq![58u8] + b@.take(k as int));
    }
    assert(b@.take(b@.len() as int) =~= b@);
    assert(out@ =~= old(out)@ + spec_ser_bytes(b@));
}

fn push_record(out: &mut Vec<u8>, r: &Record)
    ensures
        final(out)@ == old(out)@ + spec_ser_record(r@),
        bounded_record(r@),
{
    push_ts(out, &r.created_at);
    out.push(32);
    match &r.completed_at {
        None => {
            out.push(110);
        },
        Some(t) => {
            out.push(99);
            out.push(32);
            push_ts(out, t);
        },
    }
    assert(out@ =~= old(out)@ + spec_ser_ts(r@.created_at) + seq![32u8] + spec_ser_completed(
        r@.completed_at,
    ));
    out.push(32);
    push_bytes(out, &r.origin_path);
    push_bytes(out, &r.message);
    out.push(10);
    assert(out@ =~= old(out)@ + spec_ser_record(r@));
}

proof fn lemma_ser_records_snoc(rs: Seq<RecordView>, r: RecordView)
    ensures
        spec_ser_records(rs.push(r)) == spec_ser_records(rs) + spec_ser_record(r),
    decreases rs.len(),
{
    if rs.len() == 0 {
        reveal_with_fuel(spec_ser_records, 2);
        assert(rs.push(r)[0] == r);
        assert(rs.push(r).drop_first() =~= Seq::<RecordView>::empty());
        assert(spec_ser_records(rs.push(r)) =~= spec_ser_records(rs) + spec_ser_record(r));
    } else {
        assert(rs.push(r).drop_first() =~= rs.drop_first().push(r));
        lemma_ser_records_snoc(rs.drop_first(), r);
        assert(rs.push(r)[0] == rs[0]);
        assert(spec_ser_records(rs.push(r)) =~= spec_ser_records(rs) + spec_ser_record(r));
    }
}

/// Encodes a collection; the result is exactly `spec_ser_collection` of the
/// records' views, and parsing it gives the collection back.
pub fn encode_collection(rs: &Vec<Record>) -> (out: Vec<u8>)
    ensures
        out@ == spec_ser_collection(views(rs@)),
        spec_parse_collection(out@) == Some(views(rs@)),
{
    let mut out: Vec<u8> = Vec::new();
    push_nat(&mut out, rs.len() as u64);
    out.push(10);
    assert(views(rs@).len() == rs@.len());
    assert(out@ =~= spec_ser_nat(views(rs@).len()) + seq![10u8] + spec_ser_records(
        views(rs@).take(0),
    ));
    let mut i: usize = 0;
    while i < rs.len()
        invariant
            i <= rs@.len(),
            out@ == spec_ser_nat(views(rs@).len()) + seq![10u8] + spec_ser_records(
                views(rs@).take(i as int),
            ),
            forall|k: int| 0 <= k < i ==> bounded_record(#[trigger] views(rs@)[k]),
        decreases rs@.len() - i,
    {
        push_record(&mut out, &rs[i]);
        i = i + 1;
        proof {
            let vs = views(rs@);
            assert(vs.take(i as int) =~= vs.take(i - 1).push(vs[i - 1]));
            lemma_ser_records_snoc(vs.take(i - 1), vs[i - 1]);
            assert(vs[i - 1] == rs@[i - 1]@);
            assert(out@ =~= spec_ser_nat(vs.len()) + seq![10u8] + spec_ser_records(
                vs.take(i as int),
            ));
        }
    }
    assert(views(rs@).take(rs@.len() as int) =~= views(rs@));
    proof {
        lemma_encode_decode_round_trip(views(rs@));
    }
    out
}

fn parse_nat_from(s: &Vec<u8>, i: usize, acc: u64) -> (r: Option<(u64, usize)>)
    requires
        i <= s@.len(),
    ensures
        ({
            let sp = spec_parse_nat_from(s@, i as int, acc as int);
            match r {
                Some((v, j)) => i <= j <= s@.len() && sp == Some((v as int, j as int)),
                None => sp is None,
            }
        }),
    decreases s@.len() - i,
{
    if i < s.len() {
        let b = s[i];
        if 48 <= b && b <= 57 {
            let d: u64 = (b - 48) as u64;
            proof {
                vstd::arithmetic::div_mod::lemma_fundamental_div_mod(
                    (u64::MAX - d) as int,
                    10,
                );
                vstd::arithmetic::div_mod::lemma_mod_bound((u64::MAX - d) as int, 10);
            }
            if acc > (u64::MAX - d) / 10 {
                assert((acc as int) * 10 + (d as int) > u64::MAX);
                None
            } else {
                assert((acc as int) * 10 + (d as int) <= u64::MAX);
                parse_nat_from(s, i + 1, acc * 10 + d)
            }
        } else {
            Some((acc, i))
        }
    } else {
        Some((acc, i))
    }
}

fn parse_nat(s: &Vec<u8>, i: usize) -> (r: Option<(u64, usize)>)
    requires
        i <= s@.len(),
    ensures
        ({
            let sp = spec_parse_nat(s@, i as int);
            match r {
                Some((v, j)) => i <= j <= s@.len() && sp == Some((v as int, j as int)),
                None => sp is None,
            }
        }),
{
    if i < s.len() {
        let b = s[i];
        if 48 <= b && b <= 57 {
            parse_nat_from(s, i, 0)
        } else {
            None
        }
    } else {
        None
    }
}

fn parse_int(s: &Vec<u8>, i: usize) -> (r: Option<(i64, usize)>)
    requires
        i <= s@.len(),
    ensures
        ({
            let sp = spec_parse_int(s@, i as int);
            match r {
                Some((v, j)) => i <= j <= s@.len() && sp == Some((v as int, j as int)),
                None => sp is None,
            }
        }),
{
    if i < s.len() && s[i] == 45 {
        match parse_nat(s, i + 1) {
            Some((m, j)) => {
                if m <= 9223372036854775807u64 {
                    Some((-(m as i64), j))
                } else if m == 9223372036854775808u64 {
                    Some((i64::MIN, j))
                } else {
                    None
                }
            },
            None => None,
        }
    } else {
        match parse_nat(s, i) {
            Some((m, j)) => {
                if m <= i64::MAX as u64 {
                    Some((m as i64, j))
                } else {
                    None
                }
            },
            None => None,
        }
    }
}

fn parse_ts(s: &Vec<u8>, i: usize) -> (r: Option<(Timestamp, usize)>)
    requires
        i <= s@.len(),
    ensures
        ({
            let sp = spec_parse_ts(s@, i as int);
            match r {
                Some((t, j)) => i <= j <= s@.len() && sp == Some((t, j as int)),
                None => sp is None,
            }
        }),
{
    match parse_int(s, i) {
        None => None,
        Some((secs, j)) => {
            if j < s.len() && s[j] == 32 {
                match parse_nat(s, j + 1) {
                    None => None,
                    Some((nanos, k)) => {
                        if nanos <= u32::MAX as u64 && k < s.len() && s[k] == 32 {
                            match parse_int(s, k + 1) {
                                None => None,
                                Some((off, l)) => {
                                    if i32::MIN as i64 <= off && off <= i32::MAX as i64 {
                                        Some(
                                            (
                                                Timestamp {
                                                    secs,
                                                    nanos: nanos as u32,
                                                    offset_secs: off as i32,
                                                },
                                                l,
                                            ),
                                        )
                                    } else {
                                        None
                                    }
                                },
                            }
                        } else {
                            None
                        }
                    },
                }
            } else {
                None
            }
        },
    }
}

fn parse_bytes(s: &Vec<u8>, i: usize) -> (r: Option<(Vec<u8>, usize)>)
    requires
        i <= s@.len(),
    ensures
        ({
            let sp = spec_parse_bytes(s@, i as int);
            match r {
                Some((b, j)) => i <= j <= s@.len() && sp is Some && sp->Some_0.0 == b@
                    && sp->Some_0.1 == j as int,
                None => sp is None,
            }
        }),
{
    match parse_nat(s, i) {
        None => None,
        Some((n, j)) => {
            if j < s.len() && s[j] == 58 {
                let rem: usize = s.len() - (j + 1);
                if n <= rem as u64 {
                    let ln: usize = n as usize;
                    let end: usize = j + 1 + ln;
                    let mut b: Vec<u8> = Vec::new();
                    assert(b@ =~= s@.subrange(j + 1, j + 1));
                    let mut k: usize = 0;
                    while k < ln
                        invariant
                            k <= ln,
                            end == j + 1 + ln,
                            end <= s@.len(),
                            b@ == s@.subrange(j + 1, j + 1 + k),
                        decreases ln - k,
                    {
                        b.push(s[j + 1 + k]);
                        k = k + 1;
                        assert(b@ =~= s@.subrange(j + 1, j + 1 + k));
                    }
                    Some((b, j + 1 + ln))
                } else {
                    None
                }
            } else {
                None
            }
        },
    }
}

fn parse_completed(s: &Vec<u8>, i: usize) -> (r: Option<(Option<Timestamp>, usize)>)
    requires
        i <= s@.len(),
    ensures
        ({
            let sp = spec_parse_completed(s@, i as int);
            match r {
                Some((c, j)) => i <= j <= s@.len() && sp == Some((c, j as int)),
                None => sp is None,
            }
        }),
{
    if i < s.len() {
        let b = s[i];
        if b == 110 {
            Some((None, i + 1))
        } else if b == 99 && i + 1 < s.len() && s[i + 1] == 32 {
            match parse_ts(s, i + 2) {
                Some((t, j)) => Some((Some(t), j)),
                None => None,
            }
        } else {
            None
        }
    } else {
        None
    }
}

fn parse_record(s: &Vec<u8>, i: usize) -> (r: Option<(Record, usize)>)
    requires
        i <= s@.len(),
    ensures
        ({
            let sp = spec_parse_record(s@, i as int);
            match r {
                Some((rec, j)) => i <= j <= s@.len() && sp is Some && sp->Some_0.0 == rec@
                    && sp->Some_0.1 == j as int,
                None => sp is None,
            }
        }),
{
    match parse_ts(s, i) {
        None => None,
        Some((created, j)) => {
            if j < s.len() && s[j] == 32 {
                match parse_completed(s, j + 1) {
                    None => None,
                    Some((comp, k)) => {
                        if k < s.len() && s[k] == 32 {
                            match parse_bytes(s, k + 1) {
                                None => None,
                                Some((path, l)) => {
                                    match parse_bytes(s, l) {
                                        None => None,
                                        Some((msg, m)) => {
                                            if m < s.len() && s[m] == 10 {
                                                let rec = Record {
                                                    created_at: created,
                                                    origin_path: path,
                                                    message: msg,
                                                    completed_at: comp,
                                                };
                                                assert(spec_parse_record(s@, i as int)
                                                    is Some);
                                                assert(spec_parse_record(
                                                    s@,
                                                    i as int,
                                                )->Some_0.0 =~= rec@);
                                                Some((rec, m + 1))
                                            } else {
                                                None
                                            }
                                        },
                                    }
                                },
                            }
                        } else {
                            None
                        }
                    },
                }
            } else {
                None
            }
        },
    }
}

fn parse_records(s: &Vec<u8>, i: usize, n: u64) -> (r: Option<(Vec<Record>, usize)>)
    requires
        i <= s@.len(),
    ensures
        ({
            let sp = spec_parse_records(s@, i as int, n as int);
            match r {
                Some((v, j)) => i <= j <= s@.len() && sp is Some && sp->Some_0.0 == views(v@)
                    && sp->Some_0.1 == j as int,
                None => sp is None,
            }
        }),
    decreases n,
{
    if n == 0 {
        let v: Vec<Record> = Vec::new();
        assert(views(v@) =~= Seq::<RecordView>::empty());
        Some((v, i))
    } else {
        match parse_record(s, i) {
            None => None,
            Some((rec, j)) => {
                match parse_records(s, j, n - 1) {
                    None => None,
                    Some((rest, k)) => {
                        let ghost prev = rest@;
                        let mut rest = rest;
                        rest.insert(0, rec);
                        assert(views(rest@) =~= seq![rec@] + views(prev)) by {
                            assert(rest@ =~= seq![rec] + prev);
                        };
                        Some((rest, k))
                    },
                }
            },
        }
    }
}

/// Decodes a stored collection.
///
/// An empty byte string is an empty collection (a missing or empty backing
/// file is not an error); any other content must parse completely, else the
/// store is corrupt and nothing is returned.
pub fn decode_collection(s: &Vec<u8>) -> (r: Result<Vec<Record>, TodoError>)
    ensures
        ({
            let sp = spec_parse_collection(s@);
            if s@.len() == 0 {
                r is Ok && views(r->Ok_0@) == Seq::<RecordView>::empty()
            } else {
                match r {
                    Ok(v) => sp == Some(views(v@)),
                    Err(e) => sp is None && e == TodoError::CorruptStore,
                }
            }
        }),
{
    if s.len() == 0 {
        let v: Vec<Record> = Vec::new();
        assert(views(v@) =~= Seq::<RecordView>::empty());
        return Ok(v);
    }
    match parse_nat(s, 0) {
        None => Err(TodoError::CorruptStore),
        Some((n, j)) => {
            if j < s.len() && s[j] == 10 {
                match parse_records(s, j + 1, n) {
                    None => Err(TodoError::CorruptStore),
                    Some((v, k)) => {
                        if k == s.len() {
                            Ok(v)
                        } else {
                            Err(TodoError::CorruptStore)
                        }
                    },
                }
            } else {
                Err(TodoError::CorruptStore)
            }
        },
    }
}

/// Ten to the `k`.
pub open spec fn pow10(k: nat) -> nat
    decreases k,
{
    if k == 0 {
        1
    } else {
        pow10((k - 1) as nat) * 10
    }
}

proof fn lemma_pow10_pos(k: nat)
    ensures
        pow10(k) >= 1,
    decreases k,
{
    if k > 0 {
        lemma_pow10_pos((k - 1) as nat);
    }
}

proof fn lemma_ser_nat_digits(n: nat)
    ensures
        spec_ser_nat(n).len() >= 1,
        forall|k: int|
            0 <= k < spec_ser_nat(n).len() ==> is_digit(#[trigger] spec_ser_nat(n)[k]),
    decreases n,
{
    if n >= 10 {
        lemma_ser_nat_digits(n / 10);
    }
}

/// Splitting a known subrange of `s` into its two concatenated halves.
proof fn lemma_subrange_split(s: Seq<u8>, a: int, p: Seq<u8>, q: Seq<u8>)
    requires
        0 <= a,
        a + p.len() + q.len() <= s.len(),
        s.subrange(a, a + p.len() + q.len()) == p + q,
    ensures
        s.subrange(a, a + p.len() as int) == p,
        s.subrange(a + p.len() as int, a + p.len() + q.len()) == q,
{
    let w = s.subrange(a, a + p.len() + q.len());
    assert(s.subrange(a, a + p.len() as int) =~= p) by {
        assert forall|k: int| 0 <= k < p.len() implies s.subrange(a, a + p.len() as int)[k]
            == p[k] by {
            assert(w[k] == (p + q)[k]);
        }
    };
    assert(s.subrange(a + p.len() as int, a + p.len() + q.len()) =~= q) by {
        assert forall|k: int| 0 <= k < q.len() implies s.subrange(
            a + p.len() as int,
            a + p.len() + q.len(),
        )[k] == q[k] by {
            assert(w[k + p.len()] == (p + q)[k + p.len()]);
        }
    };
}

/// Parsing walks over the digits of `n` and folds them onto `acc`.
proof fn lemma_parse_chain(s: Seq<u8>, i: int, acc: int, n: nat)
    requires
        0 <= i,
        0 <= acc,
        i + spec_ser_nat(n).len() <= s.len(),
        s.subrange(i, i + spec_ser_nat(n).len()) == spec_ser_nat(n),
        acc * pow10(spec_ser_nat(n).len()) + n <= u64::MAX,
    ensures
        spec_parse_nat_from(s, i, acc) == spec_parse_nat_from(
            s,
            i + spec_ser_nat(n).len(),
            acc * pow10(spec_ser_nat(n).len()) + n,
        ),
    decreases n,
{
    let ser = spec_ser_nat(n);
    let L = ser.len() as int;
    if n < 10 {
        assert(pow10(1) == pow10(0) * 10);
        assert(pow10(0) == 1);
        assert(s[i] == ser[0]) by {
            assert(s.subrange(i, i + L)[0] == ser[0]);
        };
        assert(s[i] == digit_byte(n as int));
        assert(is_digit(s[i]));
        assert(digit_val(s[i]) == n);
        let v: int = acc * 10 + n;
        assert(v <= u64::MAX);
        assert(spec_parse_nat_from(s, i, acc) == spec_parse_nat_from(s, i + 1, v));
    } else {
        let hi = n / 10;
        let lo = n % 10;
        vstd::arithmetic::div_mod::lemma_fundamental_div_mod(n as int, 10);
        vstd::arithmetic::div_mod::lemma_mod_bound(n as int, 10);
        let ser1 = spec_ser_nat(hi);
        let l1 = ser1.len() as int;
        assert(ser == ser1.push(digit_byte(lo as int)));
        assert(L == l1 + 1);
        assert(s.subrange(i, i + l1) =~= ser1) by {
            assert forall|k: int| 0 <= k < l1 implies s.subrange(i, i + l1)[k] == ser1[k] by {
                assert(s.subrange(i, i + L)[k] == ser[k]);
            }
        };
        assert(s[i + l1] == ser[l1]) by {
            assert(s.subrange(i, i + L)[l1] == ser[l1]);
        };
        assert(s[i + l1] == digit_byte(lo as int));
        let p1 = pow10(ser1.len());
        lemma_pow10_pos(ser1.len());
        let m: int = acc * p1 + hi;
        let f: int = acc * pow10(ser.len()) + n;
        assert(pow10(ser.len()) == p1 * 10);
        assert(acc * (p1 * 10) == (acc * p1) * 10) by (nonlinear_arith);
        assert(f == m * 10 + lo);
        assert(acc * p1 >= 0) by (nonlinear_arith)
            requires
                acc >= 0,
                p1 >= 1,
        ;
        assert(m * 10 >= m) by (nonlinear_arith)
            requires
                m >= 0,
        ;
        assert(m <= u64::MAX);
        lemma_parse_chain(s, i, acc, hi);
        assert(is_digit(s[i + l1]));
        assert(digit_val(s[i + l1]) == lo);
        assert(spec_parse_nat_from(s, i + l1, m) == spec_parse_nat_from(s, i + L, f));
    }
}

/// A serialized number parses back to itself when a non-digit (or the end)
/// follows it.
proof fn lemma_parse_nat_at(s: Seq<u8>, i: int, n: nat)
    requires
        0 <= i,
        n <= u64::MAX,
        i + spec_ser_nat(n).len() <= s.len(),
        s.subrange(i, i + spec_ser_nat(n).len()) == spec_ser_nat(n),
        i + spec_ser_nat(n).len() == s.len() || !is_digit(s[i + spec_ser_nat(n).len()]),
    ensures
        spec_parse_nat(s, i) == Some((n as int, i + spec_ser_nat(n).len())),
{
    let L = spec_ser_nat(n).len() as int;
    lemma_ser_nat_digits(n);
    assert(s[i] == spec_ser_nat(n)[0]) by {
        assert(s.subrange(i, i + L)[0] == spec_ser_nat(n)[0]);
    };
    assert(is_digit(s[i]));
    lemma_pow10_pos(spec_ser_nat(n).len());
    assert(0 * pow10(spec_ser_nat(n).len()) == 0) by (nonlinear_arith);
    lemma_parse_chain(s, i, 0, n);
    assert(spec_parse_nat_from(s, i + L, n as int) == Some((n as int, i + L)));
}

proof fn lemma_parse_int_at(s: Seq<u8>, i: int, v: int)
    requires
        0 <= i,
        i64::MIN <= v <= i64::MAX,
        i + spec_ser_int(v).len() <= s.len(),
        s.subrange(i, i + spec_ser_int(v).len()) == spec_ser_int(v),
        i + spec_ser_int(v).len() == s.len() || !is_digit(s[i + spec_ser_int(v).len()]),
    ensures
        spec_parse_int(s, i) == Some((v, i + spec_ser_int(v).len())),
{
    let ser = spec_ser_int(v);
    let L = ser.len() as int;
    if v < 0 {
        let mag = (-v) as nat;
        let sn = spec_ser_nat(mag);
        assert(ser == seq![45u8] + sn);
        lemma_subrange_split(s, i, seq![45u8], sn);
        assert(s[i] == 45u8) by {
            assert(s.subrange(i, i + 1)[0] == 45u8);
        };
        lemma_parse_nat_at(s, i + 1, mag);
        assert(spec_parse_int(s, i) == Some((-(mag as int), i + L)));
        assert(-(mag as int) == v);
    } else {
        assert(ser == spec_ser_nat(v as nat));
        lemma_ser_nat_digits(v as nat);
        assert(s[i] == ser[0]) by {
            assert(s.subrange(i, i + L)[0] == ser[0]);
        };
        assert(is_digit(s[i]));
        assert(s[i] != 45u8);
        lemma_parse_nat_at(s, i, v as nat);
    }
}

proof fn lemma_parse_ts_at(s: Seq<u8>, i: int, t: Timestamp)
    requires
        0 <= i,
        i + spec_ser_ts(t).len() <= s.len(),
        s.subrange(i, i + spec_ser_ts(t).len()) == spec_ser_ts(t),
        i + spec_ser_ts(t).len() == s.len() || !is_digit(s[i + spec_ser_ts(t).len()]),
    ensures
        spec_parse_ts(s, i) == Some((t, i + spec_ser_ts(t).len())),
{
    let t1 = spec_ser_int(t.secs as int);
    let t2 = spec_ser_nat(t.nanos as nat);
    let t3 = spec_ser_int(t.offset_secs as int);
    let w = spec_ser_ts(t);
    let r1 = seq![32u8] + t2 + seq![32u8] + t3;
    assert(w =~= t1 + r1);
    lemma_subrange_split(s, i, t1, r1);
    let i1 = i + t1.len() as int;
    let r2 = t2 + seq![32u8] + t3;
    assert(r1 =~= seq![32u8] + r2);
    lemma_subrange_split(s, i1, seq![32u8], r2);
    assert(s[i1] == 32u8) by {
        assert(s.subrange(i1, i1 + 1)[0] == 32u8);
    };
    let r3 = seq![32u8] + t3;
    assert(r2 =~= t2 + r3);
    lemma_subrange_split(s, i1 + 1, t2, r3);
    let i2 = i1 + 1 + t2.len() as int;
    lemma_subrange_split(s, i2, seq![32u8], t3);
    assert(s[i2] == 32u8) by {
        assert(s.subrange(i2, i2 + 1)[0] == 32u8);
    };
    assert(!is_digit(32u8));
    lemma_parse_int_at(s, i, t.secs as int);
    lemma_parse_nat_at(s, i1 + 1, t.nanos as nat);
    lemma_parse_int_at(s, i2 + 1, t.offset_secs as int);
    assert(spec_parse_ts(s, i) == Some((t, i + w.len())));
}

proof fn lemma_parse_bytes_at(s: Seq<u8>, i: int, b: Seq<u8>)
    requires
        0 <= i,
        b.len() <= u64::MAX,
        i + spec_ser_bytes(b).len() <= s.len(),
        s.subrange(i, i + spec_ser_bytes(b).len()) == spec_ser_bytes(b),
    ensures
        spec_parse_bytes(s, i) == Some((b, i + spec_ser_bytes(b).len())),
{
    let c = spec_ser_nat(b.len());
    let w = spec_ser_bytes(b);
    let r1 = seq![58u8] + b;
    assert(w =~= c + r1);
    lemma_subrange_split(s, i, c, r1);
    let j = i + c.len() as int;
    lemma_subrange_split(s, j, seq![58u8], b);
    assert(s[j] == 58u8) by {
        assert(s.subrange(j, j + 1)[0] == 58u8);
    };
    assert(!is_digit(58u8));
    lemma_parse_nat_at(s, i, b.len());
    assert(s.subrange(j + 1, j + 1 + b.len()) == b);
    assert(spec_parse_bytes(s, i) == Some((b, i + w.len())));
}

proof fn lemma_parse_completed_at(s: Seq<u8>, i: int, c: Option<Timestamp>)
    requires
        0 <= i,
        i + spec_ser_completed(c).len() <= s.len(),
        s.subrange(i, i + spec_ser_completed(c).len()) == spec_ser_completed(c),
        i + spec_ser_completed(c).len() == s.len() || !is_digit(
            s[i + spec_ser_completed(c).len()],
        ),
    ensures
        spec_parse_completed(s, i) == Some((c, i + spec_ser_completed(c).len())),
{
    let w = spec_ser_completed(c);
    match c {
        None => {
            assert(s[i] == 110u8) by {
                assert(s.subrange(i, i + 1)[0] == w[0]);
            };
        },
        Some(t) => {
            let ts = spec_ser_ts(t);
            assert(w =~= seq![99u8, 32u8] + ts);
            lemma_subrange_split(s, i, seq![99u8, 32u8], ts);
            assert(s[i] == 99u8 && s[i + 1] == 32u8) by {
                assert(s.subrange(i, i + 2)[0] == 99u8);
                assert(s.subrange(i, i + 2)[1] == 32u8);
            };
            lemma_parse_ts_at(s, i + 2, t);
            assert(spec_parse_completed(s, i) == Some((Some(t), i + w.len())));
        },
    }
}

proof fn lemma_parse_record_at(s: Seq<u8>, i: int, r: RecordView)
    requires
        0 <= i,
        bounded_record(r),
        i + spec_ser_record(r).len() <= s.len(),
        s.subrange(i, i + spec_ser_record(r).len()) == spec_ser_record(r),
    ensures
        spec_parse_record(s, i) == Some((r, i + spec_ser_record(r).len())),
{
    let ts = spec_ser_ts(r.created_at);
    let co = spec_ser_completed(r.completed_at);
    let pb = spec_ser_bytes(r.origin_path);
    let mb = spec_ser_bytes(r.message);
    let w = spec_ser_record(r);
    let r1 = seq![32u8] + co + seq![32u8] + pb + mb + seq![10u8];
    assert(w =~= ts + r1);
    lemma_subrange_split(s, i, ts, r1);
    let i1 = i + ts.len() as int;
    let r2 = co + seq![32u8] + pb + mb + seq![10u8];
    assert(r1 =~= seq![32u8] + r2);
    lemma_subrange_split(s, i1, seq![32u8], r2);
    assert(s[i1] == 32u8) by {
        assert(s.subrange(i1, i1 + 1)[0] == 32u8);
    };
    let r3 = seq![32u8] + pb + mb + seq![10u8];
    assert(r2 =~= co + r3);
    lemma_subrange_split(s, i1 + 1, co, r3);
    let i2 = i1 + 1 + co.len() as int;
    let r4 = pb + mb + seq![10u8];
    assert(r3 =~= seq![32u8] + r4);
    lemma_subrange_split(s, i2, seq![32u8], r4);
    assert(s[i2] == 32u8) by {
        assert(s.subrange(i2, i2 + 1)[0] == 32u8);
    };
    let r5 = mb + seq![10u8];
    assert(r4 =~= pb + r5);
    lemma_subrange_split(s, i2 + 1, pb, r5);
    let i3 = i2 + 1 + pb.len() as int;
    lemma_subrange_split(s, i3, mb, seq![10u8]);
    let i4 = i3 + mb.len() as int;
    assert(s[i4] == 10u8) by {
        assert(s.subrange(i4, i4 + 1)[0] == 10u8);
    };
    assert(!is_digit(32u8) && !is_digit(10u8));
    lemma_parse_ts_at(s, i, r.created_at);
    lemma_parse_completed_at(s, i1 + 1, r.completed_at);
    lemma_parse_bytes_at(s, i2 + 1, r.origin_path);
    lemma_parse_bytes_at(s, i3, r.message);
    assert(spec_parse_record(s, i) is Some);
    assert(spec_parse_record(s, i)->Some_0.0 =~= r);
    assert(spec_parse_record(s, i)->Some_0.1 == i + w.len());
}

/// Every record small enough that its byte fields can be length-prefixed.
pub open spec fn bounded_record(r: RecordView) -> bool {
    r.origin_path.len() <= u64::MAX && r.message.len() <= u64::MAX
}

proof fn lemma_parse_records_at(s: Seq<u8>, i: int, rs: Seq<RecordView>)
    requires
        0 <= i,
        forall|k: int| 0 <= k < rs.len() ==> bounded_record(#[trigger] rs[k]),
        i + spec_ser_records(rs).len() <= s.len(),
        s.subrange(i, i + spec_ser_records(rs).len()) == spec_ser_records(rs),
    ensures
        spec_parse_records(s, i, rs.len() as int) == Some((rs, i + spec_ser_records(rs).len())),
    decreases rs.len(),
{
    if rs.len() == 0 {
        assert(rs =~= Seq::<RecordView>::empty());
        assert(spec_parse_records(s, i, 0) == Some((Seq::<RecordView>::empty(), i)));
    } else {
        let h = spec_ser_record(rs[0]);
        let rest = spec_ser_records(rs.drop_first());
        assert(spec_ser_records(rs) == h + rest);
        lemma_subrange_split(s, i, h, rest);
        lemma_parse_record_at(s, i, rs[0]);
        let j = i + h.len() as int;
        assert(forall|k: int|
            0 <= k < rs.drop_first().len() ==> bounded_record(#[trigger] rs.drop_first()[k]));
        lemma_parse_records_at(s, j, rs.drop_first());
        assert(seq![rs[0]] + rs.drop_first() =~= rs);
        assert(spec_parse_records(s, i, rs.len() as int) is Some);
        assert(spec_parse_records(s, i, rs.len() as int)->Some_0.0 =~= rs);
    }
}

/// Round trip: parsing an encoded collection yields exactly that collection,
/// for any sequence of records, the empty one included.
pub proof fn lemma_encode_decode_round_trip(rs: Seq<RecordView>)
    requires
        rs.len() <= u64::MAX,
        forall|k: int| 0 <= k < rs.len() ==> bounded_record(#[trigger] rs[k]),
    ensures
        spec_parse_collection(spec_ser_collection(rs)) == Some(rs),
{
    let s = spec_ser_collection(rs);
    let c = spec_ser_nat(rs.len());
    let body = spec_ser_records(rs);
    let r1 = seq![10u8] + body;
    assert(s.subrange(0, s.len() as int) =~= s);
    assert(s =~= c + r1);
    lemma_subrange_split(s, 0, c, r1);
    let j = c.len() as int;
    lemma_subrange_split(s, j, seq![10u8], body);
    assert(s[j] == 10u8) by {
        assert(s.subrange(j, j + 1)[0] == 10u8);
    };
    assert(!is_digit(10u8));
    lemma_parse_nat_at(s, 0, rs.len());
    lemma_parse_records_at(s, j + 1, rs);
    assert(spec_parse_collection(s) == Some(rs));
}

} // verus!
