//! The scope partitioner: splits a collection into the records that fall
//! under the active filter paths and the records that do not, keeping the
//! relative order of both halves.

use vstd::prelude::*;

use crate::record::{Record, RecordView, sorted_by_created, ts_le, views};

verus! {

/// Byte views of a sequence of byte vectors.
pub open spec fn byte_views(s: Seq<Vec<u8>>) -> Seq<Seq<u8>> {
    s.map_values(|v: Vec<u8>| v@)
}

/// Path-prefix containment on canonicalized, `/`-separated absolute paths:
/// `path` lies under `filter` when the two are equal, when `filter` ends in a
/// separator and is a prefix of `path`, or when `filter` is a proper prefix
/// of `path` with a separator right after it.
pub open spec fn path_in_scope(path: Seq<u8>, filter: Seq<u8>) -> bool {
    ||| path == filter
    ||| (filter.len() > 0 && filter.last() == 47u8 && filter.len() <= path.len()
        && path.subrange(0, filter.len() as int) == filter)
    ||| (filter.len() < path.len() && path.subrange(0, filter.len() as int) == filter
        && path[filter.len() as int] == 47u8)
}

/// Union semantics: with no filters every record is in scope, otherwise a
/// record is in scope when any one filter path contains its origin path.
pub open spec fn record_in_scope(r: RecordView, filters: Seq<Seq<u8>>) -> bool {
    filters.len() == 0 || exists|k: int|
        0 <= k < filters.len() && path_in_scope(r.origin_path, #[trigger] filters[k])
}

/// The in-scope subset, in the order of the source collection.
pub open spec fn spec_in_scope(s: Seq<RecordView>, filters: Seq<Seq<u8>>) -> Seq<RecordView> {
    s.filter(|r: RecordView| record_in_scope(r, filters))
}

/// The out-of-scope subset, in the order of the source collection.
pub open spec fn spec_out_scope(s: Seq<RecordView>, filters: Seq<Seq<u8>>) -> Seq<RecordView> {
    s.filter(|r: RecordView| !record_in_scope(r, filters))
}

fn is_prefix(p: &Vec<u8>, q: &Vec<u8>) -> (r: bool)
    ensures
        r == (p@.len() <= q@.len() && q@.subrange(0, p@.len() as int) == p@),
{
    if p.len() > q.len() {
        return false;
    }
    let mut i: usize = 0;
    while i < p.len()
        invariant
            i <= p@.len(),
            p@.len() <= q@.len(),
            forall|j: int| 0 <= j < i ==> p@[j] == q@[j],
        decreases p@.len() - i,
    {
        if p[i] != q[i] {
            assert(q@.subrange(0, p@.len() as int)[i as int] == q@[i as int]);
            return false;
        }
        i = i + 1;
    }
    assert(q@.subrange(0, p@.len() as int) =~= p@);
    true
}

/// Executable containment check matching `path_in_scope`.
pub fn path_matches(path: &Vec<u8>, filter: &Vec<u8>) -> (r: bool)
    ensures
        r == path_in_scope(path@, filter@),
{
    if filter.len() == path.len() {
        let eq = is_prefix(filter, path);
        proof {
            assert(path@.subrange(0, path@.len() as int) =~= path@);
            if eq {
                assert(path@ =~= filter@);
            }
        }
        eq
    } else if filter.len() < path.len() {
        if !is_prefix(filter, path) {
            false
        } else if filter.len() == 0 {
            assert(path@.subrange(0, 0) =~= filter@);
            path[0] == 47
        } else {
            filter[filter.len() - 1] == 47 || path[filter.len()] == 47
        }
    } else {
        false
    }
}

/// Executable check matching `record_in_scope`.
pub fn record_matches(r: &Record, filters: &Vec<Vec<u8>>) -> (b: bool)
    ensures
        b == record_in_scope(r@, byte_views(filters@)),
{
    if filters.len() == 0 {
        return true;
    }
    let mut k: usize = 0;
    while k < filters.len()
        invariant
            k <= filters@.len(),
            forall|j: int|
                0 <= j < k ==> !path_in_scope(r@.origin_path, #[trigger] byte_views(filters@)[j]),
        decreases filters@.len() - k,
    {
        if path_matches(&r.origin_path, &filters[k]) {
            assert(byte_views(filters@)[k as int] == filters@[k as int]@);
            return true;
        }
        assert(byte_views(filters@)[k as int] == filters@[k as int]@);
        k = k + 1;
    }
    false
}

/// Appending one element to the source filters it into exactly one half.
proof fn lemma_filter_push(s: Seq<RecordView>, x: RecordView, p: spec_fn(RecordView) -> bool)
    ensures
        s.push(x).filter(p) == if p(x) {
            s.filter(p).push(x)
        } else {
            s.filter(p)
        },
{
    reveal(Seq::filter);
    assert(s.push(x).drop_last() =~= s);
    assert(s.push(x).last() == x);
}

/// Splits `all` into the in-scope and out-of-scope subsets, both in source
/// order.
pub fn partition_records(all: Vec<Record>, filters: &Vec<Vec<u8>>) -> (r: (Vec<Record>, Vec<Record>))
    ensures
        views(r.0@) == spec_in_scope(views(all@), byte_views(filters@)),
        views(r.1@) == spec_out_scope(views(all@), byte_views(filters@)),
{
    let ghost orig = all@;
    let ghost fs = byte_views(filters@);
    let ghost pin = |rv: RecordView| record_in_scope(rv, fs);
    let ghost pout = |rv: RecordView| !record_in_scope(rv, fs);
    let mut rest = all;
    let mut ins: Vec<Record> = Vec::new();
    let mut outs: Vec<Record> = Vec::new();
    proof {
        reveal(Seq::filter);
        assert(views(orig.take(0)) =~= Seq::<RecordView>::empty());
        assert(views(ins@) =~= views(orig.take(0)).filter(pin));
        assert(views(outs@) =~= views(orig.take(0)).filter(pout));
        assert(rest@ =~= orig.skip(0));
    }
    while rest.len() > 0
        invariant
            rest@.len() <= orig.len(),
            rest@ == orig.skip(orig.len() - rest@.len()),
            fs == byte_views(filters@),
            views(ins@) == views(orig.take(orig.len() - rest@.len())).filter(pin),
            views(outs@) == views(orig.take(orig.len() - rest@.len())).filter(pout),
            pin == (|rv: RecordView| record_in_scope(rv, fs)),
            pout == (|rv: RecordView| !record_in_scope(rv, fs)),
        decreases rest@.len(),
    {
        let ghost i = orig.len() - rest@.len();
        let rec = rest.remove(0);
        proof {
            assert(rec == orig[i]);
            assert(rest@ =~= orig.skip(i + 1));
            assert(views(orig.take(i + 1)) =~= views(orig.take(i)).push(orig[i]@));
            lemma_filter_push(views(orig.take(i)), orig[i]@, pin);
            lemma_filter_push(views(orig.take(i)), orig[i]@, pout);
        }
        if record_matches(&rec, filters) {
            ins.push(rec);
            assert(views(ins@) =~= views(orig.take(i + 1)).filter(pin));
            assert(views(outs@) =~= views(orig.take(i + 1)).filter(pout));
        } else {
            outs.push(rec);
            assert(views(ins@) =~= views(orig.take(i + 1)).filter(pin));
            assert(views(outs@) =~= views(orig.take(i + 1)).filter(pout));
        }
    }
    proof {
        assert(orig.take(orig.len() as int) =~= orig);
    }
    (ins, outs)
}

/// With an empty filter set, everything is in scope and nothing is out.
pub proof fn lemma_empty_filters(s: Seq<RecordView>)
    ensures
        spec_in_scope(s, Seq::<Seq<u8>>::empty()) == s,
        spec_out_scope(s, Seq::<Seq<u8>>::empty()) == Seq::<RecordView>::empty(),
    decreases s.len(),
{
    reveal(Seq::filter);
    if s.len() == 0 {
        assert(spec_in_scope(s, Seq::<Seq<u8>>::empty()) =~= s);
        assert(spec_out_scope(s, Seq::<Seq<u8>>::empty()) =~= Seq::<RecordView>::empty());
    } else {
        lemma_empty_filters(s.drop_last());
        assert(spec_in_scope(s, Seq::<Seq<u8>>::empty()) =~= s);
        assert(spec_out_scope(s, Seq::<Seq<u8>>::empty()) =~= Seq::<RecordView>::empty());
    }
}

proof fn lemma_filter_elem_contained(s: Seq<RecordView>, p: spec_fn(RecordView) -> bool, i: int)
    requires
        0 <= i < s.filter(p).len(),
    ensures
        s.contains(s.filter(p)[i]),
    decreases s.len(),
{
    reveal(Seq::filter);
    let f = s.drop_last().filter(p);
    if i < f.len() {
        lemma_filter_elem_contained(s.drop_last(), p, i);
        let j = choose|j: int| 0 <= j < s.drop_last().len() && s.drop_last()[j] == f[i];
        assert(s[j] == s.filter(p)[i]);
    } else {
        assert(s[s.len() - 1] == s.filter(p)[i]);
    }
}

proof fn lemma_filter_keeps_sorted(s: Seq<RecordView>, p: spec_fn(RecordView) -> bool)
    requires
        sorted_by_created(s),
    ensures
        sorted_by_created(s.filter(p)),
    decreases s.len(),
{
    reveal(Seq::filter);
    if s.len() > 0 {
        let t = s.drop_last();
        assert(sorted_by_created(t)) by {
            assert(forall|i: int| 0 <= i < t.len() ==> t[i] == s[i]);
        };
        lemma_filter_keeps_sorted(t, p);
        if p(s.last()) {
            let f = s.filter(p);
            assert forall|a: int, b: int| 0 <= a < b < f.len() implies ts_le(
                f[a].created_at,
                f[b].created_at,
            ) by {
                if b == f.len() - 1 {
                    assert(f[b] == s.last());
                    assert(f[a] == t.filter(p)[a]);
                    lemma_filter_elem_contained(t, p, a);
                    let j = choose|j: int| 0 <= j < t.len() && t[j] == f[a];
                    assert(ts_le(s[j].created_at, s.last().created_at));
                } else {
                    assert(f[a] == t.filter(p)[a] && f[b] == t.filter(p)[b]);
                }
            }
        }
    }
}

/// The partitioner does not reorder: when the collection is in canonical
/// order, so are both halves, which is what makes 1-based positions within
/// the in-scope listing meaningful.
pub proof fn lemma_partition_keeps_canonical_order(s: Seq<RecordView>, filters: Seq<Seq<u8>>)
    requires
        sorted_by_created(s),
    ensures
        sorted_by_created(spec_in_scope(s, filters)),
        sorted_by_created(spec_out_scope(s, filters)),
{
    lemma_filter_keeps_sorted(s, |r: RecordView| record_in_scope(r, filters));
    lemma_filter_keeps_sorted(s, |r: RecordView| !record_in_scope(r, filters));
}

/// Every record lands in exactly one of the two halves.
pub proof fn lemma_partition_sizes(s: Seq<RecordView>, filters: Seq<Seq<u8>>)
    ensures
        spec_in_scope(s, filters).len() + spec_out_scope(s, filters).len() == s.len(),
    decreases s.len(),
{
    reveal(Seq::filter);
    if s.len() > 0 {
        lemma_partition_sizes(s.drop_last(), filters);
    }
}

} // verus!
