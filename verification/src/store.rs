//! The neighbor store: the in-memory overlay of pending neighbor sets.
//!
//! The store keeps one entry per `(vector id, level)` pair that a transaction
//! has touched, in a list that only grows, and finds an entry through an
//! index from vector id to the places of its entries in that list.

use vstd::prelude::*;
use std::collections::HashMap;
use std::sync::Arc;
use crate::edge_key::{encode, key_views, law_key_canonicity, spec_encode};
use crate::overlay::{
    add_backrefs, chosen_neighbors, edge_in, edge_keys, insert_neighbors_spec,
    law_set_neighbors_symmetric, neighbors_of, overlay_wf, set_neighbors_spec, strip_backrefs,
    symmetric, with_record, Overlay,
};
use crate::records::{
    distinct_ids, has_id, keyed_by_id, lemma_distinct_lists, lemma_merge_records,
    lemma_push_record, lemma_remove_record, lists, merge_into, position, records_by_id,
    share_all, Record, RecordSet,
};

verus! {

broadcast use vstd::std_specs::hash::group_hash_axioms;

/// The pending neighbors of one vector at one level.
struct Entry<D> {
    id: u128,
    level: usize,
    neighbors: Vec<Record<D>>,
}

/// The entries of a store and the index into them: for each vector id, the
/// level and the place of each entry of that vector.
struct Slots<D> {
    entries: Vec<Entry<D>>,
    index: HashMap<u128, Vec<(usize, usize)>>,
}

/// The in-memory overlay of one transaction: for each `(vector id, level)`
/// pair touched so far, the neighbor set that is pending for it.
///
/// At all times there is at most one entry per pair, no set holds two
/// records with the same id, and no vector is among its own neighbors.
pub struct NeighborStore<D> {
    slots: Slots<D>,
}

spec fn entry_key<D>(e: Entry<D>) -> (u128, usize) {
    (e.id, e.level)
}

spec fn has_key<D>(es: Seq<Entry<D>>, k: (u128, usize)) -> bool {
    exists|i: int| 0 <= i < es.len() && entry_key(#[trigger] es[i]) == k
}

spec fn distinct_keys<D>(es: Seq<Entry<D>>) -> bool {
    forall|i: int, j: int|
        0 <= i < j < es.len() ==> entry_key(#[trigger] es[i]) != entry_key(#[trigger] es[j])
}

spec fn entries_wf<D>(es: Seq<Entry<D>>) -> bool {
    &&& distinct_keys(es)
    &&& forall|i: int|
        0 <= i < es.len() ==> distinct_ids((#[trigger] es[i]).neighbors@) && !has_id(
            es[i].neighbors@,
            es[i].id,
        )
}

spec fn entries_map<D>(es: Seq<Entry<D>>) -> Overlay<D>
    decreases es.len(),
{
    if es.len() == 0 {
        Map::empty()
    } else {
        entries_map(es.drop_last()).insert(
            entry_key(es.last()),
            records_by_id(es.last().neighbors@),
        )
    }
}

/// `m` has exactly the entries of `es`, each with the set its list stands for.
spec fn describes<D>(es: Seq<Entry<D>>, m: Overlay<D>) -> bool {
    &&& forall|i: int|
        0 <= i < es.len() ==> m.contains_key(entry_key(#[trigger] es[i])) && m[entry_key(es[i])]
            == records_by_id(es[i].neighbors@)
    &&& forall|k: (u128, usize)| #[trigger] m.contains_key(k) ==> has_key(es, k)
}

proof fn lemma_entries_map<D>(es: Seq<Entry<D>>)
    requires
        distinct_keys(es),
    ensures
        describes(es, entries_map(es)),
        entries_map(es).dom().finite(),
    decreases es.len(),
{
    if es.len() > 0 {
        let t = es.drop_last();
        let e = es.last();
        let m = entries_map(es);
        let mt = entries_map(t);
        lemma_entries_map(t);
        assert forall|i: int| 0 <= i < es.len() implies m.contains_key(entry_key(#[trigger] es[i]))
            && m[entry_key(es[i])] == records_by_id(es[i].neighbors@) by {
            if i < t.len() {
                assert(t[i] == es[i]);
                assert(entry_key(es[i]) != entry_key(es[es.len() - 1]));
            }
        }
        assert forall|k: (u128, usize)| #[trigger] m.contains_key(k) implies has_key(es, k) by {
            if k == entry_key(e) {
                assert(entry_key(es[es.len() - 1]) == k);
            } else {
                assert(mt.contains_key(k));
                let i = choose|i: int| 0 <= i < t.len() && entry_key(#[trigger] t[i]) == k;
                assert(entry_key(es[i]) == k);
            }
        }
    }
}

proof fn lemma_describes_unique<D>(es: Seq<Entry<D>>, m1: Overlay<D>, m2: Overlay<D>)
    requires
        describes(es, m1),
        describes(es, m2),
    ensures
        m1 == m2,
{
    assert forall|k: (u128, usize)| m1.contains_key(k) <==> m2.contains_key(k) by {
        if m1.contains_key(k) {
            let i = choose|i: int| 0 <= i < es.len() && entry_key(#[trigger] es[i]) == k;
            assert(m2.contains_key(entry_key(es[i])));
        }
        if m2.contains_key(k) {
            let i = choose|i: int| 0 <= i < es.len() && entry_key(#[trigger] es[i]) == k;
            assert(m1.contains_key(entry_key(es[i])));
        }
    }
    assert forall|k: (u128, usize)| m1.contains_key(k) implies m1[k] == m2[k] by {
        let i = choose|i: int| 0 <= i < es.len() && entry_key(#[trigger] es[i]) == k;
        assert(m1[entry_key(es[i])] == records_by_id(es[i].neighbors@));
        assert(m2[entry_key(es[i])] == records_by_id(es[i].neighbors@));
    }
    assert(m1 =~= m2);
}

/// Well-formed entries stand for a well-formed overlay.
proof fn lemma_entries_overlay_wf<D>(es: Seq<Entry<D>>)
    requires
        entries_wf(es),
    ensures
        overlay_wf(entries_map(es)),
{
    let m = entries_map(es);
    lemma_entries_map(es);
    assert forall|k: (u128, usize)| #[trigger] m.contains_key(k) implies m[k].dom().finite()
        && keyed_by_id(m[k]) && !m[k].contains_key(k.0) by {
        let i = choose|i: int| 0 <= i < es.len() && entry_key(#[trigger] es[i]) == k;
        assert(m[entry_key(es[i])] == records_by_id(es[i].neighbors@));
        lemma_merge_records(Map::empty(), es[i].neighbors@);
    }
}

/// Replacing the list of one entry replaces its set in the overlay.
proof fn lemma_update_entry<D>(es: Seq<Entry<D>>, i: int, e: Entry<D>)
    requires
        entries_wf(es),
        0 <= i < es.len(),
        entry_key(e) == entry_key(es[i]),
        distinct_ids(e.neighbors@),
        !has_id(e.neighbors@, e.id),
    ensures
        entries_wf(es.update(i, e)),
        entries_map(es.update(i, e)) == entries_map(es).insert(
            entry_key(e),
            records_by_id(e.neighbors@),
        ),
{
    let es2 = es.update(i, e);
    let m = entries_map(es);
    let m2 = m.insert(entry_key(e), records_by_id(e.neighbors@));
    lemma_entries_map(es);
    assert forall|a: int, b: int| 0 <= a < b < es2.len() implies entry_key(#[trigger] es2[a])
        != entry_key(#[trigger] es2[b]) by {
        assert(entry_key(es2[a]) == entry_key(es[a]));
        assert(entry_key(es2[b]) == entry_key(es[b]));
    }
    assert forall|a: int| 0 <= a < es2.len() implies distinct_ids((#[trigger] es2[a]).neighbors@)
        && !has_id(es2[a].neighbors@, es2[a].id) by {
        if a != i {
            assert(es2[a] == es[a]);
        }
    }
    assert forall|a: int| 0 <= a < es2.len() implies m2.contains_key(entry_key(#[trigger] es2[a]))
        && m2[entry_key(es2[a])] == records_by_id(es2[a].neighbors@) by {
        if a != i {
            assert(es2[a] == es[a]);
            if a < i {
                assert(entry_key(es[a]) != entry_key(es[i]));
            } else {
                assert(entry_key(es[i]) != entry_key(es[a]));
            }
        }
    }
    assert forall|k: (u128, usize)| #[trigger] m2.contains_key(k) implies has_key(es2, k) by {
        if k == entry_key(e) {
            assert(entry_key(es2[i]) == k);
        } else {
            let a = choose|a: int| 0 <= a < es.len() && entry_key(#[trigger] es[a]) == k;
            assert(entry_key(es2[a]) == k);
        }
    }
    lemma_entries_map(es2);
    lemma_describes_unique(es2, entries_map(es2), m2);
}

/// Adding an entry for a pair that has none adds its set to the overlay.
proof fn lemma_push_entry<D>(es: Seq<Entry<D>>, e: Entry<D>)
    requires
        entries_wf(es),
        !has_key(es, entry_key(e)),
        distinct_ids(e.neighbors@),
        !has_id(e.neighbors@, e.id),
    ensures
        entries_wf(es.push(e)),
        entries_map(es.push(e)) == entries_map(es).insert(
            entry_key(e),
            records_by_id(e.neighbors@),
        ),
{
    let es2 = es.push(e);
    assert(es2.drop_last() =~= es);
    assert forall|a: int, b: int| 0 <= a < b < es2.len() implies entry_key(#[trigger] es2[a])
        != entry_key(#[trigger] es2[b]) by {
        if b == es.len() {
            assert(entry_key(es[a]) != entry_key(e));
        } else {
            assert(es2[a] == es[a] && es2[b] == es[b]);
        }
    }
    assert forall|a: int| 0 <= a < es2.len() implies distinct_ids((#[trigger] es2[a]).neighbors@)
        && !has_id(es2[a].neighbors@, es2[a].id) by {
        if a < es.len() {
            assert(es2[a] == es[a]);
        }
    }
}

/// The index item `item` of the vector `id` names an entry of that vector at
/// the level it says.
spec fn indexed_at<D>(es: Seq<Entry<D>>, id: u128, item: (usize, usize)) -> bool {
    item.1 < es.len() && es[item.1 as int].id == id && es[item.1 as int].level == item.0
}

/// The index names every entry under the id of its vector, and nothing
/// else.
spec fn index_wf<D>(es: Seq<Entry<D>>, ix: Map<u128, Vec<(usize, usize)>>) -> bool {
    &&& forall|id: u128, t: int|
        ix.contains_key(id) && 0 <= t < ix[id]@.len() ==> indexed_at(es, id, #[trigger] ix[id]@[t])
    &&& forall|p: int|
        0 <= p < es.len() ==> ix.contains_key((#[trigger] es[p]).id) && ix[es[p].id]@.contains(
            (es[p].level, p as usize),
        )
}

spec fn slots_wf<D>(slots: Slots<D>) -> bool {
    entries_wf(slots.entries@) && index_wf(slots.entries@, slots.index@)
}

/// The index stays right while the entries keep their places and their
/// vectors and levels.
proof fn lemma_index_keeps<D>(
    es: Seq<Entry<D>>,
    es2: Seq<Entry<D>>,
    ix: Map<u128, Vec<(usize, usize)>>,
)
    requires
        index_wf(es, ix),
        es2.len() == es.len(),
        forall|p: int| 0 <= p < es.len() ==> entry_key(#[trigger] es2[p]) == entry_key(es[p]),
    ensures
        index_wf(es2, ix),
{
    assert forall|id: u128, t: int| ix.contains_key(id) && 0 <= t < ix[id]@.len() implies indexed_at(
        es2,
        id,
        #[trigger] ix[id]@[t],
    ) by {
        let item = ix[id]@[t];
        assert(indexed_at(es, id, item));
        assert(entry_key(es2[item.1 as int]) == entry_key(es[item.1 as int]));
    }
    assert forall|p: int| 0 <= p < es2.len() implies ix.contains_key((#[trigger] es2[p]).id)
        && ix[es2[p].id]@.contains((es2[p].level, p as usize)) by {
        assert(entry_key(es2[p]) == entry_key(es[p]));
        assert(ix.contains_key(es[p].id));
    }
}

/// Where the entry of `(id, level)` stands, if there is one.
fn find_entry<D>(slots: &Slots<D>, id: u128, level: usize) -> (r: Option<usize>)
    requires
        index_wf(slots.entries@, slots.index@),
    ensures
        match r {
            Some(i) => i < slots.entries.len() && entry_key(slots.entries[i as int]) == (id, level),
            None => !has_key(slots.entries@, (id, level)),
        },
{
    match slots.index.get(&id) {
        Some(list) => {
            assert(slots.index@.contains_key(id) && slots.index@[id] == *list);
            let mut t: usize = 0;
            while t < list.len()
                invariant
                    t <= list.len(),
                    slots.index@.contains_key(id),
                    slots.index@[id] == *list,
                    index_wf(slots.entries@, slots.index@),
                    forall|u: int| 0 <= u < t ==> (#[trigger] list@[u]).0 != level,
                decreases list.len() - t,
            {
                if list[t].0 == level {
                    assert(indexed_at(slots.entries@, id, slots.index@[id]@[t as int]));
                    return Some(list[t].1);
                }
                t += 1;
            }
            proof {
                if has_key(slots.entries@, (id, level)) {
                    let p = choose|p: int|
                        0 <= p < slots.entries@.len() && entry_key(#[trigger] slots.entries@[p]) == (
                            id,
                            level,
                        );
                    assert(slots.index@[slots.entries@[p].id]@.contains((level, p as usize)));
                    let u = choose|u: int| 0 <= u < list@.len() && list@[u] == (level, p as usize);
                    assert(list@[u].0 == level);
                }
            }
            None
        },
        None => {
            proof {
                if has_key(slots.entries@, (id, level)) {
                    let p = choose|p: int|
                        0 <= p < slots.entries@.len() && entry_key(#[trigger] slots.entries@[p]) == (
                            id,
                            level,
                        );
                    assert(slots.index@.contains_key(slots.entries@[p].id));
                }
            }
            None
        },
    }
}

/// Appends an entry for a pair that has none, and enters it in the index.
fn push_slot<D>(slots: &mut Slots<D>, e: Entry<D>)
    requires
        slots_wf(*old(slots)),
        !has_key(old(slots).entries@, entry_key(e)),
        distinct_ids(e.neighbors@),
        !has_id(e.neighbors@, e.id),
    ensures
        slots_wf(*final(slots)),
        final(slots).entries@ == old(slots).entries@.push(e),
{
    let id = e.id;
    let level = e.level;
    let place = slots.entries.len();
    let ghost es = slots.entries@;
    let ghost ix = slots.index@;
    let mut list: Vec<(usize, usize)> = match slots.index.remove(&id) {
        Some(known) => known,
        None => Vec::new(),
    };
    let ghost known = list@;
    assert(ix.contains_key(id) ==> ix[id]@ == known);
    assert(!ix.contains_key(id) ==> known.len() == 0);
    list.push((level, place));
    let ghost grown = list;
    slots.index.insert(id, list);
    slots.entries.push(e);
    proof {
        let es2 = slots.entries@;
        let ix2 = slots.index@;
        lemma_push_entry(es, e);
        assert(ix2 == ix.remove(id).insert(id, grown));
        assert(grown@ == known.push((level, place)));
        assert forall|other: u128, t: int|
            ix2.contains_key(other) && 0 <= t < ix2[other]@.len() implies indexed_at(
            es2,
            other,
            #[trigger] ix2[other]@[t],
        ) by {
            if other == id {
                if t < known.len() {
                    assert(ix.contains_key(id));
                    assert(grown@[t] == ix[id]@[t]);
                    assert(indexed_at(es, id, ix[id]@[t]));
                    assert(es2[ix[id]@[t].1 as int] == es[ix[id]@[t].1 as int]);
                }
            } else {
                assert(ix.contains_key(other));
                assert(ix2[other] == ix[other]);
                assert(indexed_at(es, other, ix[other]@[t]));
                assert(es2[ix[other]@[t].1 as int] == es[ix[other]@[t].1 as int]);
            }
        }
        assert forall|p: int| 0 <= p < es2.len() implies ix2.contains_key((#[trigger] es2[p]).id)
            && ix2[es2[p].id]@.contains((es2[p].level, p as usize)) by {
            if p < es.len() {
                assert(es2[p] == es[p]);
                assert(ix.contains_key(es[p].id));
                let item = (es[p].level, p as usize);
                let t = choose|t: int| 0 <= t < ix[es[p].id]@.len() && ix[es[p].id]@[t] == item;
                if es[p].id == id {
                    assert(grown@[t] == item);
                } else {
                    assert(ix2[es[p].id] == ix[es[p].id]);
                }
            } else {
                assert(grown@[known.len() as int] == (level, place));
            }
        }
    }
}

/// Takes `vid` out of the entry of `(u, level)`, if that entry exists.
fn strip_from<D>(slots: &mut Slots<D>, u: u128, level: usize, vid: u128)
    requires
        slots_wf(*old(slots)),
    ensures
        slots_wf(*final(slots)),
        entries_map(final(slots).entries@) == if entries_map(old(slots).entries@).contains_key((u, level)) {
            entries_map(old(slots).entries@).insert(
                (u, level),
                entries_map(old(slots).entries@)[(u, level)].remove(vid),
            )
        } else {
            entries_map(old(slots).entries@)
        },
{
    proof {
        lemma_entries_map(slots.entries@);
    }
    match find_entry(slots, u, level) {
        Some(i) => {
            let ghost before = slots.entries@;
            let ghost set = records_by_id(before[i as int].neighbors@);
            assert(entries_map(before)[entry_key(before[i as int])] == set);
            match position(&slots.entries[i].neighbors, vid) {
                Some(p) => {
                    proof {
                        lemma_remove_record(before[i as int].neighbors@, p as int);
                    }
                    slots.entries[i].neighbors.remove(p);
                    proof {
                        let e = slots.entries@[i as int];
                        assert(slots.entries@ =~= before.update(i as int, e));
                        assert forall|j: int| 0 <= j < e.neighbors@.len() implies (
                        #[trigger] e.neighbors@[j]).id() != e.id by {
                            let j2 = if j < p { j } else { j + 1 };
                            assert(e.neighbors@[j] == before[i as int].neighbors@[j2]);
                        }
                        lemma_update_entry(before, i as int, e);
                lemma_index_keeps(before, slots.entries@, slots.index@);
                    }
                },
                None => {
                    proof {
                        lemma_merge_records(Map::empty(), before[i as int].neighbors@);
                        assert(set.remove(vid) =~= set);
                        assert(entries_map(before).insert((u, level), set) =~= entries_map(before));
                    }
                },
            }
        },
        None => {
            assert(!entries_map(slots.entries@).contains_key((u, level)));
        },
    }
}

/// Adds `v` to the entry of `(u, level)` unless a record with its id is
/// there already; creates the entry if there is none.
fn add_to<D>(slots: &mut Slots<D>, u: u128, level: usize, v: &Record<D>)
    requires
        slots_wf(*old(slots)),
        u != v.id(),
    ensures
        slots_wf(*final(slots)),
        entries_map(final(slots).entries@) == entries_map(old(slots).entries@).insert(
            (u, level),
            with_record(neighbors_of(entries_map(old(slots).entries@), u, level), *v),
        ),
{
    proof {
        lemma_entries_map(slots.entries@);
    }
    let ghost before = slots.entries@;
    match find_entry(slots, u, level) {
        Some(i) => {
            let ghost set = records_by_id(before[i as int].neighbors@);
            assert(entries_map(before)[entry_key(before[i as int])] == set);
            proof {
                lemma_merge_records(Map::empty(), before[i as int].neighbors@);
            }
            match position(&slots.entries[i].neighbors, v.get_id()) {
                Some(p) => {
                    proof {
                        assert(before[i as int].neighbors@[p as int].id() == v.id());
                        assert(set.contains_key(v.id()));
                        assert(entries_map(before).insert((u, level), set) =~= entries_map(before));
                    }
                },
                None => {
                    proof {
                        lemma_push_record(before[i as int].neighbors@, *v);
                    }
                    slots.entries[i].neighbors.push(Arc::clone(v));
                    proof {
                        let e = slots.entries@[i as int];
                        assert(slots.entries@ =~= before.update(i as int, e));
                        assert forall|j: int| 0 <= j < e.neighbors@.len() implies (
                        #[trigger] e.neighbors@[j]).id() != e.id by {
                            if j < before[i as int].neighbors@.len() {
                                assert(e.neighbors@[j] == before[i as int].neighbors@[j]);
                            }
                        }
                        lemma_update_entry(before, i as int, e);
                lemma_index_keeps(before, slots.entries@, slots.index@);
                    }
                },
            }
        },
        None => {
            let mut list: Vec<Record<D>> = Vec::new();
            list.push(Arc::clone(v));
            let e = Entry { id: u, level, neighbors: list };
            proof {
                assert(!entries_map(before).contains_key((u, level)));
                lemma_push_record(Seq::<Record<D>>::empty(), *v);
                assert(e.neighbors@ =~= Seq::<Record<D>>::empty().push(*v));
                assert(records_by_id(Seq::<Record<D>>::empty()) == Map::<u128, Record<D>>::empty());
                assert forall|j: int| 0 <= j < e.neighbors@.len() implies (
                #[trigger] e.neighbors@[j]).id() != e.id by {}
                lemma_push_entry(before, e);
            }
            push_slot(slots, e);
        },
    }
}

/// Makes `list` the set of `(id, level)`, whether or not the pair has an
/// entry yet.
fn put_entry<D>(slots: &mut Slots<D>, id: u128, level: usize, list: Vec<Record<D>>)
    requires
        slots_wf(*old(slots)),
        distinct_ids(list@),
        !has_id(list@, id),
    ensures
        slots_wf(*final(slots)),
        entries_map(final(slots).entries@) == entries_map(old(slots).entries@).insert(
            (id, level),
            records_by_id(list@),
        ),
{
    let ghost before = slots.entries@;
    match find_entry(slots, id, level) {
        Some(i) => {
            slots.entries[i].neighbors = list;
            proof {
                let e = slots.entries@[i as int];
                assert(slots.entries@ =~= before.update(i as int, e));
                lemma_update_entry(before, i as int, e);
                lemma_index_keeps(before, slots.entries@, slots.index@);
            }
        },
        None => {
            let e = Entry { id, level, neighbors: list };
            proof {
                lemma_push_entry(before, e);
            }
            push_slot(slots, e);
        },
    }
}

impl<D> View for NeighborStore<D> {
    type V = Overlay<D>;

    /// The overlay that the store holds.
    closed spec fn view(&self) -> Overlay<D> {
        entries_map(self.slots.entries@)
    }
}

impl<D> NeighborStore<D> {
    #[verifier::type_invariant]
    spec fn well_formed(&self) -> bool {
        slots_wf(self.slots)
    }

    /// An empty store with room for `capacity` entries.
    pub fn with_capacity(capacity: usize) -> (store: Self)
        ensures
            store@ == Map::<(u128, usize), RecordSet<D>>::empty(),
            overlay_wf(store@),
            symmetric(store@),
    {
        NeighborStore {
            slots: Slots {
                entries: Vec::with_capacity(capacity),
                index: HashMap::with_capacity(capacity),
            },
        }
    }

    /// The number of `(vector id, level)` pairs that have an entry.
    pub fn len(&self) -> (n: usize)
        ensures
            n == self@.dom().len(),
            overlay_wf(self@),
    {
        proof {
            use_type_invariant(self);
            lemma_entries_overlay_wf(self.slots.entries@);
            lemma_entries_count(self.slots.entries@);
        }
        self.slots.entries.len()
    }

    /// Replaces the pending neighbor set of `curr_vec` at `level` by
    /// `neighbors`, and keeps the other entries of that level in step: the
    /// vector leaves the entry of each neighbor it no longer has and joins
    /// the entry of each neighbor it gains, which is created if missing.
    /// `curr_vec` itself and repeated ids in `neighbors` are left out.
    pub fn set_neighbors(&mut self, curr_vec: Record<D>, level: usize, neighbors: &Vec<Record<D>>)
        ensures
            final(self)@ == set_neighbors_spec(old(self)@, curr_vec, level, neighbors@),
            overlay_wf(final(self)@),
            symmetric(old(self)@) ==> symmetric(final(self)@),
    {
        proof {
            use_type_invariant(&*self);
            if symmetric(self@) {
                law_set_neighbors_symmetric(self@, curr_vec, level, neighbors@);
            }
        }
        let mut slots = Slots { entries: Vec::new(), index: HashMap::new() };
        std::mem::swap(&mut slots, &mut self.slots);
        let vid = curr_vec.get_id();
        let ghost start = entries_map(slots.entries@);
        let ghost new_set = chosen_neighbors(curr_vec, neighbors@);

        let mut new_list: Vec<Record<D>> = Vec::new();
        proof {
            assert(records_by_id(new_list@) == Map::<u128, Record<D>>::empty());
        }
        merge_into(&mut new_list, neighbors, vid);
        assert(records_by_id(new_list@) == new_set);

        let old_list: Vec<Record<D>> = match find_entry(&slots, vid, level) {
            Some(i) => share_all(&slots.entries[i].neighbors),
            None => Vec::new(),
        };
        let ghost old_set = neighbors_of(start, vid, level);
        proof {
            lemma_entries_map(slots.entries@);
            assert(records_by_id(Seq::<Record<D>>::empty()) == Map::<u128, Record<D>>::empty());
            assert(records_by_id(old_list@) == old_set);
            assert(distinct_ids(old_list@));
        }

        // the vector leaves the entries of the neighbors it drops
        let mut i: usize = 0;
        proof {
            assert(old_list@.take(0) =~= Seq::<Record<D>>::empty());
            assert(entries_map(slots.entries@) =~= strip_backrefs(
                start,
                vid,
                level,
                dropped(old_list@.take(0), new_set),
            ));
        }
        while i < old_list.len()
            invariant
                i <= old_list.len(),
                slots_wf(slots),
                records_by_id(new_list@) == new_set,
                entries_map(slots.entries@) == strip_backrefs(
                    start,
                    vid,
                    level,
                    dropped(old_list@.take(i as int), new_set),
                ),
            decreases old_list.len() - i,
        {
            let u = old_list[i].get_id();
            let ghost seen = old_list@.take(i as int);
            let ghost seen_next = old_list@.take(i + 1);
            let ghost before = entries_map(slots.entries@);
            proof {
                assert(seen_next.drop_last() =~= seen);
                assert(seen_next.last() == old_list@[i as int]);
                lemma_merge_records(Map::empty(), new_list@);
                lemma_merge_records(Map::empty(), seen);
                lemma_merge_records(Map::empty(), seen_next);
            }
            match position(&new_list, u) {
                Some(p) => {
                    proof {
                        assert(new_list@[p as int].id() == u);
                        assert(new_set.contains_key(u));
                        assert(dropped(seen_next, new_set) =~= dropped(seen, new_set));
                    }
                },
                None => {
                    strip_from(&mut slots, u, level, vid);
                    proof {
                        assert(!new_set.contains_key(u));
                        assert(dropped(seen_next, new_set) =~= dropped(seen, new_set).insert(u));
                        assert(entries_map(slots.entries@) =~~= strip_backrefs(
                            start,
                            vid,
                            level,
                            dropped(seen_next, new_set),
                        ));
                    }
                },
            }
            i += 1;
        }
        let ghost gone = old_set.dom().difference(new_set.dom());
        let ghost stripped = strip_backrefs(start, vid, level, gone);
        proof {
            assert(old_list@.take(old_list.len() as int) =~= old_list@);
            assert(dropped(old_list@, new_set) =~= gone);
        }

        // and joins the entries of the neighbors it gains
        let mut j: usize = 0;
        proof {
            assert(new_list@.take(0) =~= Seq::<Record<D>>::empty());
            assert(entries_map(slots.entries@) =~= add_backrefs(
                stripped,
                curr_vec,
                level,
                dropped(new_list@.take(0), old_set),
            ));
        }
        while j < new_list.len()
            invariant
                j <= new_list.len(),
                slots_wf(slots),
                vid == curr_vec.id(),
                !has_id(new_list@, vid),
                records_by_id(old_list@) == old_set,
                entries_map(slots.entries@) == add_backrefs(
                    stripped,
                    curr_vec,
                    level,
                    dropped(new_list@.take(j as int), old_set),
                ),
            decreases new_list.len() - j,
        {
            let u = new_list[j].get_id();
            let ghost seen = new_list@.take(j as int);
            let ghost seen_next = new_list@.take(j + 1);
            proof {
                assert(seen_next.drop_last() =~= seen);
                assert(seen_next.last() == new_list@[j as int]);
                lemma_merge_records(Map::empty(), old_list@);
                lemma_merge_records(Map::empty(), seen);
                lemma_merge_records(Map::empty(), seen_next);
                assert(new_list@[j as int].id() != vid);
            }
            match position(&old_list, u) {
                Some(p) => {
                    proof {
                        assert(old_list@[p as int].id() == u);
                        assert(old_set.contains_key(u));
                        assert(dropped(seen_next, old_set) =~= dropped(seen, old_set));
                    }
                },
                None => {
                    add_to(&mut slots, u, level, &curr_vec);
                    proof {
                        assert(!old_set.contains_key(u));
                        assert(dropped(seen_next, old_set) =~= dropped(seen, old_set).insert(u));
                        assert(entries_map(slots.entries@) =~= add_backrefs(
                            stripped,
                            curr_vec,
                            level,
                            dropped(seen_next, old_set),
                        ));
                    }
                },
            }
            j += 1;
        }
        proof {
            assert(new_list@.take(new_list.len() as int) =~= new_list@);
            assert(dropped(new_list@, old_set) =~= new_set.dom().difference(old_set.dom()));
        }

        put_entry(&mut slots, vid, level, new_list);
        proof {
            lemma_entries_overlay_wf(slots.entries@);
        }
        self.slots = slots;
    }

    /// The pending neighbors of `id` at `level`, each once and in no stated
    /// order; `None` where the pair has no entry. The store is left as it is.
    pub fn get_neighbors(&self, id: u128, level: usize) -> (found: Option<Vec<Record<D>>>)
        ensures
            match found {
                Some(list) => self@.contains_key((id, level)) && lists(list@, self@[(id, level)]),
                None => !self@.contains_key((id, level)),
            },
            overlay_wf(self@),
    {
        proof {
            use_type_invariant(self);
            lemma_entries_map(self.slots.entries@);
            lemma_entries_overlay_wf(self.slots.entries@);
        }
        match find_entry(&self.slots, id, level) {
            Some(i) => {
                let list = share_all(&self.slots.entries[i].neighbors);
                proof {
                    lemma_distinct_lists(list@);
                    assert(self@[entry_key(self.slots.entries@[i as int])] == records_by_id(list@));
                }
                Some(list)
            },
            None => None,
        }
    }

    /// Merges `neighbors` into the pending set of `id` at `level`, creating
    /// the entry if there is none. Nothing is removed, a record whose id is
    /// already pending is left out, and so is `id` itself. No other entry is
    /// touched: the reverse edges are the caller's to add.
    pub fn insert_neighbors(&mut self, id: u128, level: usize, neighbors: &Vec<Record<D>>)
        ensures
            final(self)@ == insert_neighbors_spec(old(self)@, id, level, neighbors@),
            overlay_wf(final(self)@),
    {
        proof {
            use_type_invariant(&*self);
            lemma_entries_map(self.slots.entries@);
        }
        let mut slots = Slots { entries: Vec::new(), index: HashMap::new() };
        std::mem::swap(&mut slots, &mut self.slots);
        let ghost start = entries_map(slots.entries@);
        let mut list: Vec<Record<D>> = match find_entry(&slots, id, level) {
            Some(i) => share_all(&slots.entries[i].neighbors),
            None => Vec::new(),
        };
        proof {
            assert(records_by_id(Seq::<Record<D>>::empty()) == Map::<u128, Record<D>>::empty());
            assert(records_by_id(list@) == neighbors_of(start, id, level));
        }
        merge_into(&mut list, neighbors, id);
        put_entry(&mut slots, id, level, list);
        proof {
            lemma_entries_overlay_wf(slots.entries@);
        }
        self.slots = slots;
    }

    /// The keys that a commit of this store writes, each once: for every
    /// pending edge, its own key and the key of its reverse. A neighbor with
    /// the id of its own entry is passed over, and so is an edge whose
    /// reverse an earlier entry holds: that entry has written both keys.
    pub fn materialize(&self) -> (keys: Vec<Vec<u8>>)
        ensures
            key_views(keys@).no_duplicates(),
            key_views(keys@).to_set() == edge_keys(self@),
            overlay_wf(self@),
    {
        proof {
            use_type_invariant(self);
            lemma_entries_overlay_wf(self.slots.entries@);
            lemma_emit_start(self.slots.entries@);
        }
        let mut keys: Vec<Vec<u8>> = Vec::new();
        assert(key_views(keys@) =~= Seq::<Seq<u8>>::empty());
        assert(key_views(keys@).to_set() =~= Set::<Seq<u8>>::empty());
        let mut i: usize = 0;
        while i < self.slots.entries.len()
            invariant
                i <= self.slots.entries.len(),
                slots_wf(self.slots),
                key_views(keys@).no_duplicates(),
                key_views(keys@).to_set() == emitted_upto(self.slots.entries@, i as int, 0),
            decreases self.slots.entries.len() - i,
        {
            let entry = &self.slots.entries[i];
            let mut j: usize = 0;
            while j < entry.neighbors.len()
                invariant
                    i < self.slots.entries.len(),
                    *entry == self.slots.entries@[i as int],
                    j <= entry.neighbors.len(),
                    slots_wf(self.slots),
                    key_views(keys@).no_duplicates(),
                    key_views(keys@).to_set() == emitted_upto(
                        self.slots.entries@,
                        i as int,
                        j as int,
                    ),
                decreases entry.neighbors.len() - j,
            {
                let nid = entry.neighbors[j].get_id();
                if nid != entry.id {
                    let written = match find_entry(&self.slots, nid, entry.level) {
                        Some(p) => p < i && position(&self.slots.entries[p].neighbors, entry.id).is_some(),
                        None => false,
                    };
                    proof {
                        lemma_reverse_is_earlier(self.slots.entries@, i as int, j as int);
                        assert(written == reverse_is_earlier(self.slots.entries@, i as int, j as int));
                        lemma_emit_step(self.slots.entries@, i as int, j as int);
                    }
                    if !written {
                        let out_key = encode(entry.id, entry.level, nid);
                        let in_key = encode(nid, entry.level, entry.id);
                        proof {
                            law_key_canonicity(entry.id, entry.level, nid, nid, entry.level, entry.id);
                            lemma_push_key(key_views(keys@), out_key@);
                            lemma_push_key(key_views(keys@).push(out_key@), in_key@);
                        }
                        let ghost before = keys@;
                        keys.push(out_key);
                        keys.push(in_key);
                        assert(key_views(keys@) =~= key_views(before).push(out_key@).push(in_key@));
                    }
                } else {
                    proof {
                        lemma_emit_step(self.slots.entries@, i as int, j as int);
                    }
                }
                j += 1;
            }
            proof {
                lemma_emit_next_entry(self.slots.entries@, i as int);
            }
            i += 1;
        }
        proof {
            lemma_emit_all(self.slots.entries@);
        }
        keys
    }
}

/// The neighbor at index `b` of the entry at index `a` makes a commit write
/// `key`.
spec fn emits<D>(es: Seq<Entry<D>>, a: int, b: int, key: Seq<u8>) -> bool {
    &&& 0 <= a < es.len()
    &&& 0 <= b < es[a].neighbors@.len()
    &&& es[a].neighbors@[b].id() != es[a].id
    &&& (key == spec_encode(es[a].id, es[a].level, es[a].neighbors@[b].id()) || key
        == spec_encode(es[a].neighbors@[b].id(), es[a].level, es[a].id))
}

/// The entry at index `c` holds the reverse of the edge that the neighbor at
/// index `b` of the entry at index `a` stands for.
spec fn holds_reverse<D>(es: Seq<Entry<D>>, a: int, b: int, c: int) -> bool {
    &&& 0 <= c < es.len()
    &&& entry_key(es[c]) == (es[a].neighbors@[b].id(), es[a].level)
    &&& has_id(es[c].neighbors@, es[a].id)
}

/// An entry before the one at index `a` holds the reverse of the edge at
/// `(a, b)`, and so has written its keys.
spec fn reverse_is_earlier<D>(es: Seq<Entry<D>>, a: int, b: int) -> bool {
    exists|c: int| 0 <= c < a && #[trigger] holds_reverse(es, a, b, c)
}

/// The keys written for the entries before index `i` and for the first `j`
/// neighbors of the entry at index `i`.
spec fn emitted_upto<D>(es: Seq<Entry<D>>, i: int, j: int) -> Set<Seq<u8>> {
    Set::new(
        |key: Seq<u8>|
            exists|a: int, b: int| #[trigger]
                emits(es, a, b, key) && !reverse_is_earlier(es, a, b) && (a < i || (a == i && b
                    < j)),
    )
}

/// Appending a key that is not there yet keeps the keys distinct and adds
/// it to their set.
proof fn lemma_push_key(keys: Seq<Seq<u8>>, key: Seq<u8>)
    requires
        keys.no_duplicates(),
        !keys.to_set().contains(key),
    ensures
        keys.push(key).no_duplicates(),
        keys.push(key).to_set() == keys.to_set().insert(key),
{
    let grown = keys.push(key);
    assert forall|a: int, b: int| 0 <= a < grown.len() && 0 <= b < grown.len() && a != b implies grown[a]
        != grown[b] by {
        if a < keys.len() {
            assert(keys.to_set().contains(keys[a]));
        }
        if b < keys.len() {
            assert(keys.to_set().contains(keys[b]));
        }
    }
    assert forall|k: Seq<u8>| grown.to_set().contains(k) implies keys.to_set().insert(key).contains(
        k,
    ) by {
        let i = choose|i: int| 0 <= i < grown.len() && grown[i] == k;
        if i < keys.len() {
            assert(keys[i] == k);
        }
    }
    assert forall|k: Seq<u8>| keys.to_set().insert(key).contains(k) implies grown.to_set().contains(
        k,
    ) by {
        if k == key {
            assert(grown[keys.len() as int] == k);
        } else {
            let i = choose|i: int| 0 <= i < keys.len() && keys[i] == k;
            assert(grown[i] == k);
        }
    }
    assert(grown.to_set() =~= keys.to_set().insert(key));
}

/// Where the reverse of an edge is held, if anywhere: in the one entry of
/// the neighbor at the same level.
proof fn lemma_reverse_is_earlier<D>(es: Seq<Entry<D>>, a: int, b: int)
    requires
        entries_wf(es),
        0 <= a < es.len(),
        0 <= b < es[a].neighbors@.len(),
    ensures
        forall|c: int|
            0 <= c < es.len() && entry_key(#[trigger] es[c]) == (
                es[a].neighbors@[b].id(),
                es[a].level,
            ) ==> (reverse_is_earlier(es, a, b) <==> c < a && has_id(es[c].neighbors@, es[a].id)),
        !has_key(es, (es[a].neighbors@[b].id(), es[a].level)) ==> !reverse_is_earlier(es, a, b),
{
    let target = (es[a].neighbors@[b].id(), es[a].level);
    assert forall|c: int| 0 <= c < es.len() && entry_key(#[trigger] es[c]) == target implies (
        reverse_is_earlier(es, a, b) <==> c < a && has_id(es[c].neighbors@, es[a].id)) by {
        if reverse_is_earlier(es, a, b) {
            let d = choose|d: int| 0 <= d < a && #[trigger] holds_reverse(es, a, b, d);
            if d < c {
                assert(entry_key(es[d]) != entry_key(es[c]));
            }
            if c < d {
                assert(entry_key(es[c]) != entry_key(es[d]));
            }
        }
        if c < a && has_id(es[c].neighbors@, es[a].id) {
            assert(holds_reverse(es, a, b, c));
        }
    }
    if reverse_is_earlier(es, a, b) {
        let d = choose|d: int| 0 <= d < a && #[trigger] holds_reverse(es, a, b, d);
        assert(entry_key(es[d]) == target);
    }
}

proof fn lemma_emit_start<D>(es: Seq<Entry<D>>)
    ensures
        emitted_upto(es, 0, 0) == Set::<Seq<u8>>::empty(),
{
    assert(emitted_upto(es, 0, 0) =~= Set::<Seq<u8>>::empty());
}

/// What one more neighbor adds to the keys written: nothing if it is the
/// vector itself or its reverse edge was written before, else its two keys,
/// which are new and differ.
proof fn lemma_emit_step<D>(es: Seq<Entry<D>>, i: int, j: int)
    requires
        entries_wf(es),
        0 <= i < es.len(),
        0 <= j < es[i].neighbors@.len(),
    ensures
        emitted_upto(es, i, j + 1) == if es[i].neighbors@[j].id() != es[i].id
            && !reverse_is_earlier(es, i, j) {
            emitted_upto(es, i, j).insert(
                spec_encode(es[i].id, es[i].level, es[i].neighbors@[j].id()),
            ).insert(spec_encode(es[i].neighbors@[j].id(), es[i].level, es[i].id))
        } else {
            emitted_upto(es, i, j)
        },
        es[i].neighbors@[j].id() != es[i].id && !reverse_is_earlier(es, i, j) ==> !emitted_upto(
            es,
            i,
            j,
        ).contains(spec_encode(es[i].id, es[i].level, es[i].neighbors@[j].id()))
            && !emitted_upto(es, i, j).contains(
            spec_encode(es[i].neighbors@[j].id(), es[i].level, es[i].id),
        ),
{
    let id = es[i].id;
    let level = es[i].level;
    let nid = es[i].neighbors@[j].id();
    let out_key = spec_encode(id, level, nid);
    let in_key = spec_encode(nid, level, id);
    let fresh = nid != id && !reverse_is_earlier(es, i, j);
    let next = emitted_upto(es, i, j + 1);
    let target = if fresh {
        emitted_upto(es, i, j).insert(out_key).insert(in_key)
    } else {
        emitted_upto(es, i, j)
    };
    assert forall|key: Seq<u8>| next.contains(key) implies target.contains(key) by {
        let (a, b) = choose|a: int, b: int| #[trigger]
            emits(es, a, b, key) && !reverse_is_earlier(es, a, b) && (a < i || (a == i && b < j
                + 1));
        if a < i || b < j {
            assert(emits(es, a, b, key) && !reverse_is_earlier(es, a, b) && (a < i || (a == i && b
                < j)));
        }
    }
    assert forall|key: Seq<u8>| target.contains(key) implies next.contains(key) by {
        if emitted_upto(es, i, j).contains(key) {
            let (a, b) = choose|a: int, b: int| #[trigger]
                emits(es, a, b, key) && !reverse_is_earlier(es, a, b) && (a < i || (a == i && b
                    < j));
            assert(emits(es, a, b, key) && !reverse_is_earlier(es, a, b) && (a < i || (a == i && b
                < j + 1)));
        } else {
            assert(emits(es, i, j, key) && !reverse_is_earlier(es, i, j) && (i < i || (i == i && j
                < j + 1)));
        }
    }
    assert(next =~= target);
    if fresh {
        assert forall|key: Seq<u8>| key == out_key || key == in_key implies !emitted_upto(
            es,
            i,
            j,
        ).contains(key) by {
            if emitted_upto(es, i, j).contains(key) {
                let (a, b) = choose|a: int, b: int| #[trigger]
                    emits(es, a, b, key) && !reverse_is_earlier(es, a, b) && (a < i || (a == i && b
                        < j));
                let other = es[a].neighbors@[b].id();
                law_key_canonicity(id, level, nid, es[a].id, es[a].level, other);
                law_key_canonicity(id, level, nid, other, es[a].level, es[a].id);
                law_key_canonicity(nid, level, id, es[a].id, es[a].level, other);
                law_key_canonicity(nid, level, id, other, es[a].level, es[a].id);
                if es[a].id == id {
                    // the same entry and the same neighbor
                    if a < i {
                        assert(entry_key(es[a]) != entry_key(es[i]));
                    }
                    if b < j {
                        assert(es[i].neighbors@[b].id() != es[i].neighbors@[j].id());
                    }
                } else {
                    // the entry of the neighbor, which holds this vector
                    assert(es[a].id == nid && other == id && es[a].level == level);
                    assert(a < i);
                    assert(has_id(es[a].neighbors@, id));
                    assert(holds_reverse(es, i, j, a));
                }
            }
        }
    }
}

proof fn lemma_emit_next_entry<D>(es: Seq<Entry<D>>, i: int)
    requires
        0 <= i < es.len(),
    ensures
        emitted_upto(es, i, es[i].neighbors@.len() as int) == emitted_upto(es, i + 1, 0),
{
    let n = es[i].neighbors@.len() as int;
    assert forall|key: Seq<u8>| emitted_upto(es, i, n).contains(key) implies emitted_upto(
        es,
        i + 1,
        0,
    ).contains(key) by {
        let (a, b) = choose|a: int, b: int| #[trigger]
            emits(es, a, b, key) && !reverse_is_earlier(es, a, b) && (a < i || (a == i && b < n));
        assert(emits(es, a, b, key) && !reverse_is_earlier(es, a, b) && (a < i + 1 || (a == i + 1
            && b < 0)));
    }
    assert forall|key: Seq<u8>| emitted_upto(es, i + 1, 0).contains(key) implies emitted_upto(
        es,
        i,
        n,
    ).contains(key) by {
        let (a, b) = choose|a: int, b: int| #[trigger]
            emits(es, a, b, key) && !reverse_is_earlier(es, a, b) && (a < i + 1 || (a == i + 1 && b
                < 0));
        assert(emits(es, a, b, key) && !reverse_is_earlier(es, a, b) && (a < i || (a == i && b
            < n)));
    }
    assert(emitted_upto(es, i, n) =~= emitted_upto(es, i + 1, 0));
}

/// Once every entry is done, the keys written are the keys of the overlay:
/// an edge that was passed over has its keys from the earlier entry that
/// holds its reverse, and that entry was not passed over in turn.
proof fn lemma_emit_all<D>(es: Seq<Entry<D>>)
    requires
        entries_wf(es),
    ensures
        emitted_upto(es, es.len() as int, 0) == edge_keys(entries_map(es)),
{
    let m = entries_map(es);
    let all = emitted_upto(es, es.len() as int, 0);
    lemma_entries_map(es);
    assert forall|key: Seq<u8>| all.contains(key) implies edge_keys(m).contains(key) by {
        let (a, b) = choose|a: int, b: int| #[trigger]
            emits(es, a, b, key) && !reverse_is_earlier(es, a, b) && (a < es.len() || (a
                == es.len() && b < 0));
        let nid = es[a].neighbors@[b].id();
        assert(m[entry_key(es[a])] == records_by_id(es[a].neighbors@));
        lemma_merge_records(Map::empty(), es[a].neighbors@);
        assert(has_id(es[a].neighbors@, nid));
        assert(edge_in(m, es[a].id, es[a].level, nid));
    }
    assert forall|key: Seq<u8>| edge_keys(m).contains(key) implies all.contains(key) by {
        let (x, level, y) = choose|x: u128, level: usize, y: u128| #[trigger]
            edge_in(m, x, level, y) && (key == spec_encode(x, level, y) || key == spec_encode(
                y,
                level,
                x,
            ));
        let a = choose|a: int| 0 <= a < es.len() && entry_key(#[trigger] es[a]) == (x, level);
        assert(m[entry_key(es[a])] == records_by_id(es[a].neighbors@));
        lemma_merge_records(Map::empty(), es[a].neighbors@);
        let b = choose|b: int|
            0 <= b < es[a].neighbors@.len() && (#[trigger] es[a].neighbors@[b]).id() == y;
        assert(emits(es, a, b, key));
        if reverse_is_earlier(es, a, b) {
            let c = choose|c: int| 0 <= c < a && #[trigger] holds_reverse(es, a, b, c);
            let d = choose|d: int|
                0 <= d < es[c].neighbors@.len() && (#[trigger] es[c].neighbors@[d]).id() == x;
            assert(emits(es, c, d, key));
            if reverse_is_earlier(es, c, d) {
                let f = choose|f: int| 0 <= f < c && #[trigger] holds_reverse(es, c, d, f);
                assert(entry_key(es[f]) == entry_key(es[a]));
                assert(entry_key(es[f]) != entry_key(es[a]));
            }
            assert(emits(es, c, d, key) && !reverse_is_earlier(es, c, d) && (c < es.len() || (c
                == es.len() && d < 0)));
        } else {
            assert(emits(es, a, b, key) && !reverse_is_earlier(es, a, b) && (a < es.len() || (a
                == es.len() && b < 0)));
        }
    }
    assert(all =~= edge_keys(m));
}

/// The ids of the records of `seen` that `other` does not hold.
spec fn dropped<D>(seen: Seq<Record<D>>, other: RecordSet<D>) -> Set<u128> {
    Set::new(|u: u128| records_by_id(seen).contains_key(u) && !other.contains_key(u))
}

/// There are as many entries in the overlay as in the list.
proof fn lemma_entries_count<D>(es: Seq<Entry<D>>)
    requires
        distinct_keys(es),
    ensures
        entries_map(es).dom().finite(),
        entries_map(es).dom().len() == es.len(),
    decreases es.len(),
{
    lemma_entries_map(es);
    if es.len() > 0 {
        let t = es.drop_last();
        lemma_entries_count(t);
        lemma_entries_map(t);
        if entries_map(t).contains_key(entry_key(es.last())) {
            let i = choose|i: int| 0 <= i < t.len() && entry_key(#[trigger] t[i]) == entry_key(es.last());
            assert(entry_key(es[i]) == entry_key(es[es.len() - 1]));
        }
    }
}

} // verus!
