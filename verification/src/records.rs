//! Sets of vector records, keyed by id.
//!
//! A neighbor set holds at most one record per id. Its model is a map from
//! id to record; in memory it is a list of records whose ids are pairwise
//! distinct.

use vstd::prelude::*;
use std::sync::Arc;
use crate::vector::HVector;

verus! {

/// A shared, immutable vector record.
pub type Record<D> = Arc<HVector<D>>;

/// A set of records, as a map from id to the record held for that id.
pub type RecordSet<D> = Map<u128, Arc<HVector<D>>>;

/// `s` holds a record with the given id.
pub open spec fn has_id<D>(s: Seq<Record<D>>, id: u128) -> bool {
    exists|i: int| 0 <= i < s.len() && (#[trigger] s[i]).id() == id
}

/// The ids of `s` are pairwise distinct.
pub open spec fn distinct_ids<D>(s: Seq<Record<D>>) -> bool {
    forall|i: int, j: int| 0 <= i < j < s.len() ==> (#[trigger] s[i]).id() != (#[trigger] s[j]).id()
}

/// Every record of `m` is filed under its own id.
pub open spec fn keyed_by_id<D>(m: RecordSet<D>) -> bool {
    forall|id: u128| m.contains_key(id) ==> (#[trigger] m[id]).id() == id
}

/// Union-merge: the records of `s` join `m` one after the other, and a record
/// whose id is already present is left out.
pub open spec fn merge_records<D>(m: RecordSet<D>, s: Seq<Record<D>>) -> RecordSet<D>
    decreases s.len(),
{
    if s.len() == 0 {
        m
    } else {
        let merged = merge_records(m, s.drop_last());
        let r = s.last();
        if merged.contains_key(r.id()) {
            merged
        } else {
            merged.insert(r.id(), r)
        }
    }
}

/// The set that a list of records stands for: for each id, the first record
/// of the list that carries it.
pub open spec fn records_by_id<D>(s: Seq<Record<D>>) -> RecordSet<D> {
    merge_records(Map::empty(), s)
}

/// `s` lists the records of `m`, each exactly once and in some order.
pub open spec fn lists<D>(s: Seq<Record<D>>, m: RecordSet<D>) -> bool {
    &&& distinct_ids(s)
    &&& forall|i: int|
        0 <= i < s.len() ==> m.contains_key((#[trigger] s[i]).id()) && m[s[i].id()] == s[i]
    &&& forall|id: u128| #[trigger] m.contains_key(id) ==> has_id(s, id)
}

/// What a merge holds: the ids of both sides, the records of `m` unchanged.
pub proof fn lemma_merge_records<D>(m: RecordSet<D>, s: Seq<Record<D>>)
    ensures
        forall|id: u128| #[trigger]
            merge_records(m, s).contains_key(id) <==> m.contains_key(id) || has_id(s, id),
        forall|id: u128| m.contains_key(id) ==> #[trigger] merge_records(m, s)[id] == m[id],
        keyed_by_id(m) ==> keyed_by_id(merge_records(m, s)),
        m.dom().finite() ==> merge_records(m, s).dom().finite(),
    decreases s.len(),
{
    if s.len() > 0 {
        let t = s.drop_last();
        let r = s.last();
        lemma_merge_records(m, t);
        let merged = merge_records(m, t);
        assert forall|id: u128| #[trigger]
            merge_records(m, s).contains_key(id) <==> m.contains_key(id) || has_id(s, id) by {
            if has_id(t, id) {
                let i = choose|i: int| 0 <= i < t.len() && (#[trigger] t[i]).id() == id;
                assert(s[i].id() == id);
            }
            if id == r.id() {
                assert(s[s.len() - 1].id() == id);
            }
            if has_id(s, id) {
                let i = choose|i: int| 0 <= i < s.len() && (#[trigger] s[i]).id() == id;
                if i < t.len() {
                    assert(t[i].id() == id);
                }
            }
        }
    }
}

/// A list with distinct ids lists the set it stands for.
pub proof fn lemma_distinct_lists<D>(s: Seq<Record<D>>)
    requires
        distinct_ids(s),
    ensures
        lists(s, records_by_id(s)),
    decreases s.len(),
{
    let m = records_by_id(s);
    lemma_merge_records(Map::empty(), s);
    if s.len() > 0 {
        let t = s.drop_last();
        let r = s.last();
        lemma_distinct_lists(t);
        lemma_merge_records(Map::empty(), t);
        let mt = records_by_id(t);
        if has_id(t, r.id()) {
            let i = choose|i: int| 0 <= i < t.len() && (#[trigger] t[i]).id() == r.id();
            assert(s[i].id() == s[s.len() - 1].id());
        }
        assert(m == mt.insert(r.id(), r));
        assert forall|i: int| 0 <= i < s.len() implies m.contains_key((#[trigger] s[i]).id())
            && m[s[i].id()] == s[i] by {
            if i < t.len() {
                assert(t[i] == s[i]);
                assert(s[i].id() != s[s.len() - 1].id());
            }
        }
    }
}

/// A set has one listing up to order: two sets listed by the same list are
/// the same set.
pub proof fn lemma_lists_unique<D>(s: Seq<Record<D>>, m1: RecordSet<D>, m2: RecordSet<D>)
    requires
        lists(s, m1),
        lists(s, m2),
    ensures
        m1 == m2,
{
    assert forall|id: u128| m1.contains_key(id) <==> m2.contains_key(id) by {
        if m1.contains_key(id) {
            let i = choose|i: int| 0 <= i < s.len() && (#[trigger] s[i]).id() == id;
            assert(m2.contains_key(s[i].id()));
        }
        if m2.contains_key(id) {
            let i = choose|i: int| 0 <= i < s.len() && (#[trigger] s[i]).id() == id;
            assert(m1.contains_key(s[i].id()));
        }
    }
    assert forall|id: u128| m1.contains_key(id) implies m1[id] == m2[id] by {
        let i = choose|i: int| 0 <= i < s.len() && (#[trigger] s[i]).id() == id;
        assert(m1[s[i].id()] == s[i]);
        assert(m2[s[i].id()] == s[i]);
    }
    assert(m1 =~= m2);
}

/// Taking one record out of a list with distinct ids takes its id out of the
/// set.
pub proof fn lemma_remove_record<D>(s: Seq<Record<D>>, i: int)
    requires
        distinct_ids(s),
        0 <= i < s.len(),
    ensures
        distinct_ids(s.remove(i)),
        records_by_id(s.remove(i)) == records_by_id(s).remove(s[i].id()),
{
    let t = s.remove(i);
    let m = records_by_id(s).remove(s[i].id());
    lemma_distinct_lists(s);
    assert forall|a: int, b: int| 0 <= a < b < t.len() implies (#[trigger] t[a]).id() != (
    #[trigger] t[b]).id() by {
        let a2 = if a < i { a } else { a + 1 };
        let b2 = if b < i { b } else { b + 1 };
        assert(t[a] == s[a2] && t[b] == s[b2]);
    }
    assert forall|a: int| 0 <= a < t.len() implies m.contains_key((#[trigger] t[a]).id())
        && m[t[a].id()] == t[a] by {
        let a2 = if a < i { a } else { a + 1 };
        assert(t[a] == s[a2]);
        if a2 < i {
            assert(s[a2].id() != s[i].id());
        } else {
            assert(s[i].id() != s[a2].id());
        }
    }
    assert forall|id: u128| #[trigger] m.contains_key(id) implies has_id(t, id) by {
        let a = choose|a: int| 0 <= a < s.len() && (#[trigger] s[a]).id() == id;
        let a2 = if a < i { a } else { a - 1 };
        assert(t[a2] == s[a]);
    }
    lemma_distinct_lists(t);
    lemma_lists_unique(t, records_by_id(t), m);
}

/// Adding a record with a new id to a list adds it to the set.
pub proof fn lemma_push_record<D>(s: Seq<Record<D>>, r: Record<D>)
    requires
        distinct_ids(s),
        !has_id(s, r.id()),
    ensures
        distinct_ids(s.push(r)),
        records_by_id(s.push(r)) == records_by_id(s).insert(r.id(), r),
{
    let t = s.push(r);
    assert(t.drop_last() =~= s);
    lemma_merge_records(Map::empty(), s);
    assert forall|a: int, b: int| 0 <= a < b < t.len() implies (#[trigger] t[a]).id() != (
    #[trigger] t[b]).id() by {
        if b == s.len() {
            assert(s[a].id() != r.id());
        } else {
            assert(t[a] == s[a] && t[b] == s[b]);
        }
    }
}

/// Where the first record with the given id stands in `list`, if it holds
/// one.
pub fn position<D>(list: &Vec<Record<D>>, id: u128) -> (r: Option<usize>)
    ensures
        match r {
            Some(i) => i < list.len() && list[i as int].id() == id && forall|j: int|
                0 <= j < i ==> (#[trigger] list@[j]).id() != id,
            None => !has_id(list@, id),
        },
{
    let mut i: usize = 0;
    while i < list.len()
        invariant
            i <= list.len(),
            forall|j: int| 0 <= j < i ==> (#[trigger] list@[j]).id() != id,
        decreases list.len() - i,
    {
        if list[i].get_id() == id {
            return Some(i);
        }
        i += 1;
    }
    None
}

/// A second handle on each record of `list`, in the same order.
pub fn share_all<D>(list: &Vec<Record<D>>) -> (r: Vec<Record<D>>)
    ensures
        r@ == list@,
{
    let mut out: Vec<Record<D>> = Vec::with_capacity(list.len());
    let mut i: usize = 0;
    while i < list.len()
        invariant
            i <= list.len(),
            out@ == list@.take(i as int),
        decreases list.len() - i,
    {
        out.push(Arc::clone(&list[i]));
        assert(out@ =~= list@.take(i + 1));
        i += 1;
    }
    assert(out@ =~= list@);
    out
}

/// Merges `extra` into the set that `cur` lists, leaving out the id `skip`
/// and every id that is already present.
pub fn merge_into<D>(cur: &mut Vec<Record<D>>, extra: &Vec<Record<D>>, skip: u128)
    requires
        distinct_ids(old(cur)@),
        !has_id(old(cur)@, skip),
    ensures
        distinct_ids(final(cur)@),
        !has_id(final(cur)@, skip),
        records_by_id(final(cur)@) == merge_records(records_by_id(old(cur)@), extra@).remove(skip),
        old(cur)@.is_prefix_of(final(cur)@),
{
    let ghost start = records_by_id(cur@);
    proof {
        lemma_merge_records(Map::empty(), cur@);
        assert(extra@.take(0) =~= Seq::empty());
        assert(start.remove(skip) =~= start);
    }
    let mut i: usize = 0;
    while i < extra.len()
        invariant
            i <= extra.len(),
            distinct_ids(cur@),
            !has_id(cur@, skip),
            records_by_id(cur@) == merge_records(start, extra@.take(i as int)).remove(skip),
            old(cur)@.is_prefix_of(cur@),
        decreases extra.len() - i,
    {
        let r = &extra[i];
        let rid = r.get_id();
        let ghost before = merge_records(start, extra@.take(i as int));
        let ghost after = merge_records(start, extra@.take(i + 1));
        proof {
            assert(extra@.take(i + 1).drop_last() =~= extra@.take(i as int));
            lemma_merge_records(Map::empty(), cur@);
        }
        if rid == skip {
            assert(after.remove(skip) =~= before.remove(skip));
        } else {
            match position(cur, rid) {
                Some(p) => {
                    assert(cur@[p as int].id() == rid);
                    assert(has_id(cur@, rid));
                    assert(records_by_id(cur@).contains_key(rid));
                    assert(before.contains_key(rid));
                    assert(extra@.take(i + 1).last() == *r);
                    assert(after == before);
                },
                None => {
                    proof {
                        lemma_push_record(cur@, *r);
                        assert(after.remove(skip) =~= before.remove(skip).insert(rid, *r));
                        assert forall|j: int| 0 <= j < cur@.push(*r).len() implies (
                        #[trigger] cur@.push(*r)[j]).id() != skip by {
                            if j < cur@.len() {
                                assert(cur@[j].id() != skip);
                            }
                        }
                    }
                    cur.push(Arc::clone(r));
                },
            }
        }
        i += 1;
    }
    assert(extra@.take(extra.len() as int) =~= extra@);
}

} // verus!
