//! The model of the neighbor overlay and the laws of its operations.
//!
//! The overlay maps a `(vector id, level)` pair to the set of neighbors that
//! is pending for it. The functions here say, on that map alone, what each
//! operation of the store does and which keys a commit writes; the store
//! itself is proved against them.

use vstd::prelude::*;
use crate::edge_key::{law_key_canonicity, spec_encode};
use crate::records::{keyed_by_id, lemma_merge_records, merge_records, records_by_id, Record, RecordSet};

verus! {

/// The pending neighbor sets, by vector id and level.
pub type Overlay<D> = Map<(u128, usize), RecordSet<D>>;

/// The pending neighbors of `id` at `level`; the empty set where there is no
/// entry.
pub open spec fn neighbors_of<D>(s: Overlay<D>, id: u128, level: usize) -> RecordSet<D> {
    if s.contains_key((id, level)) {
        s[(id, level)]
    } else {
        Map::empty()
    }
}

/// `b` is a pending neighbor of `a` at `level`, and not `a` itself.
pub open spec fn edge_in<D>(s: Overlay<D>, a: u128, level: usize, b: u128) -> bool {
    s.contains_key((a, level)) && s[(a, level)].contains_key(b) && a != b
}

/// What holds of every overlay a store can be in: finitely many entries,
/// each a finite set of records filed under their own ids, and no vector
/// among its own neighbors.
pub open spec fn overlay_wf<D>(s: Overlay<D>) -> bool {
    &&& s.dom().finite()
    &&& forall|k: (u128, usize)| #[trigger]
        s.contains_key(k) ==> s[k].dom().finite() && keyed_by_id(s[k]) && !s[k].contains_key(k.0)
}

/// Every pending edge has its reverse pending too.
pub open spec fn symmetric<D>(s: Overlay<D>) -> bool {
    forall|a: u128, level: usize, b: u128|
        s.contains_key((a, level)) && #[trigger] s[(a, level)].contains_key(b) ==> s.contains_key(
            (b, level),
        ) && s[(b, level)].contains_key(a)
}

/// The overlay with `vid` taken out of the entries of the vectors in `gone`
/// at `level`.
pub open spec fn strip_backrefs<D>(s: Overlay<D>, vid: u128, level: usize, gone: Set<u128>) -> Overlay<
    D,
> {
    Map::new(
        |k: (u128, usize)| s.contains_key(k),
        |k: (u128, usize)|
            if k.1 == level && gone.contains(k.0) {
                s[k].remove(vid)
            } else {
                s[k]
            },
    )
}

/// A neighbor set with `v` added, unless a record with its id is there
/// already.
pub open spec fn with_record<D>(m: RecordSet<D>, v: Record<D>) -> RecordSet<D> {
    if m.contains_key(v.id()) {
        m
    } else {
        m.insert(v.id(), v)
    }
}

/// The overlay with `v` added to the entries of the vectors in `fresh` at
/// `level`; an entry that is missing is created.
pub open spec fn add_backrefs<D>(s: Overlay<D>, v: Record<D>, level: usize, fresh: Set<u128>) -> Overlay<
    D,
> {
    Map::new(
        |k: (u128, usize)| s.contains_key(k) || (k.1 == level && fresh.contains(k.0)),
        |k: (u128, usize)|
            if k.1 == level && fresh.contains(k.0) {
                with_record(neighbors_of(s, k.0, level), v)
            } else {
                s[k]
            },
    )
}

/// The set that `set_neighbors` stores for `v`: the given records by id,
/// without `v` itself.
pub open spec fn chosen_neighbors<D>(v: Record<D>, neighbors: Seq<Record<D>>) -> RecordSet<D> {
    records_by_id(neighbors).remove(v.id())
}

/// The overlay after the pending neighbors of `v` at `level` are replaced by
/// `neighbors`: `v` leaves the entries of the neighbors it drops, joins those
/// of the neighbors it gains, and its own entry becomes the new set.
pub open spec fn set_neighbors_spec<D>(
    s: Overlay<D>,
    v: Record<D>,
    level: usize,
    neighbors: Seq<Record<D>>,
) -> Overlay<D> {
    let old_set = neighbors_of(s, v.id(), level);
    let new_set = chosen_neighbors(v, neighbors);
    let gone = old_set.dom().difference(new_set.dom());
    let fresh = new_set.dom().difference(old_set.dom());
    add_backrefs(strip_backrefs(s, v.id(), level, gone), v, level, fresh).insert(
        (v.id(), level),
        new_set,
    )
}

/// `set_neighbors_spec` applied `k` times in a row with the same arguments.
pub open spec fn set_neighbors_times<D>(
    s: Overlay<D>,
    v: Record<D>,
    level: usize,
    neighbors: Seq<Record<D>>,
    k: nat,
) -> Overlay<D>
    decreases k,
{
    if k == 0 {
        s
    } else {
        set_neighbors_spec(set_neighbors_times(s, v, level, neighbors, (k - 1) as nat), v, level, neighbors)
    }
}

/// The overlay after `extra` is merged into the pending neighbors of `id` at
/// `level`. Nothing leaves the set, no other entry changes, and `id` itself
/// is not taken in.
pub open spec fn insert_neighbors_spec<D>(
    s: Overlay<D>,
    id: u128,
    level: usize,
    extra: Seq<Record<D>>,
) -> Overlay<D> {
    s.insert((id, level), merge_records(neighbors_of(s, id, level), extra).remove(id))
}

/// The keys that a commit of the overlay writes: for every pending edge, its
/// own key and the key of its reverse.
pub open spec fn edge_keys<D>(s: Overlay<D>) -> Set<Seq<u8>> {
    Set::new(
        |key: Seq<u8>|
            exists|a: u128, level: usize, b: u128| #[trigger]
                edge_in(s, a, level, b) && (key == spec_encode(a, level, b) || key == spec_encode(
                    b,
                    level,
                    a,
                )),
    )
}

/// The empty overlay is well-formed and symmetric, and commits no key.
pub proof fn law_empty_overlay<D>()
    ensures
        overlay_wf(Map::<(u128, usize), RecordSet<D>>::empty()),
        symmetric(Map::<(u128, usize), RecordSet<D>>::empty()),
        edge_keys(Map::<(u128, usize), RecordSet<D>>::empty()) == Set::<Seq<u8>>::empty(),
{
    assert(edge_keys(Map::<(u128, usize), RecordSet<D>>::empty()) =~= Set::<Seq<u8>>::empty());
}

/// After `set_neighbors`, the entry of `v` at `level` is the chosen set, and
/// `v` is not in it.
pub proof fn law_set_neighbors_entry<D>(
    s: Overlay<D>,
    v: Record<D>,
    level: usize,
    neighbors: Seq<Record<D>>,
)
    ensures
        set_neighbors_spec(s, v, level, neighbors).contains_key((v.id(), level)),
        set_neighbors_spec(s, v, level, neighbors)[(v.id(), level)] == chosen_neighbors(
            v,
            neighbors,
        ),
        !chosen_neighbors(v, neighbors).contains_key(v.id()),
{
}

/// Levels are independent: `set_neighbors` at one level leaves every entry
/// of every other level as it was.
pub proof fn law_set_neighbors_levels<D>(
    s: Overlay<D>,
    v: Record<D>,
    level: usize,
    neighbors: Seq<Record<D>>,
    id: u128,
    other: usize,
)
    requires
        other != level,
    ensures
        set_neighbors_spec(s, v, level, neighbors).contains_key((id, other)) == s.contains_key(
            (id, other),
        ),
        neighbors_of(set_neighbors_spec(s, v, level, neighbors), id, other) == neighbors_of(
            s,
            id,
            other,
        ),
{
}

/// `set_neighbors` touches the level it is given and nothing else there
/// than the entry of `v` and the entries of the neighbors it drops or gains:
/// every other entry is as it was, no entry goes away, and the only entries
/// that come into being are those of `v` and of the neighbors it gains.
pub proof fn law_set_neighbors_touches<D>(
    s: Overlay<D>,
    v: Record<D>,
    level: usize,
    neighbors: Seq<Record<D>>,
    id: u128,
)
    ensures
        s.contains_key((id, level)) ==> set_neighbors_spec(s, v, level, neighbors).contains_key(
            (id, level),
        ),
        set_neighbors_spec(s, v, level, neighbors).contains_key((id, level)) && !s.contains_key(
            (id, level),
        ) ==> id == v.id() || chosen_neighbors(v, neighbors).contains_key(id),
        id != v.id() && !neighbors_of(s, v.id(), level).contains_key(id) && !chosen_neighbors(
            v,
            neighbors,
        ).contains_key(id) ==> neighbors_of(set_neighbors_spec(s, v, level, neighbors), id, level)
            == neighbors_of(s, id, level),
        id != v.id() ==> forall|u: u128|
            u != v.id() ==> (#[trigger] neighbors_of(
                set_neighbors_spec(s, v, level, neighbors),
                id,
                level,
            ).contains_key(u) <==> neighbors_of(s, id, level).contains_key(u)),
{
}

/// Replacing a neighbor set by the set that is already pending changes
/// nothing.
pub proof fn law_set_neighbors_same_set<D>(
    s: Overlay<D>,
    v: Record<D>,
    level: usize,
    neighbors: Seq<Record<D>>,
)
    requires
        s.contains_key((v.id(), level)),
        s[(v.id(), level)] == chosen_neighbors(v, neighbors),
    ensures
        set_neighbors_spec(s, v, level, neighbors) == s,
{
    let new_set = chosen_neighbors(v, neighbors);
    assert(new_set.dom().difference(new_set.dom()) =~= Set::<u128>::empty());
    assert(set_neighbors_spec(s, v, level, neighbors) =~= s);
}

/// `set_neighbors` keeps an overlay well-formed.
pub proof fn law_set_neighbors_wf<D>(
    s: Overlay<D>,
    v: Record<D>,
    level: usize,
    neighbors: Seq<Record<D>>,
)
    requires
        overlay_wf(s),
    ensures
        overlay_wf(set_neighbors_spec(s, v, level, neighbors)),
{
    let vid = v.id();
    let old_set = neighbors_of(s, vid, level);
    let new_set = chosen_neighbors(v, neighbors);
    let gone = old_set.dom().difference(new_set.dom());
    let fresh = new_set.dom().difference(old_set.dom());
    let stripped = strip_backrefs(s, vid, level, gone);
    let joined = add_backrefs(stripped, v, level, fresh);
    let after = set_neighbors_spec(s, v, level, neighbors);
    lemma_merge_records(Map::empty(), neighbors);
    assert(records_by_id(neighbors).dom().finite());
    assert(new_set.dom() =~= records_by_id(neighbors).dom().remove(vid));
    assert(new_set.dom().finite());
    assert(fresh.finite());
    // the entries of after are those of s, the entry of v, and one for each fresh neighbor
    let added = fresh.map(|u: u128| (u, level));
    fresh.lemma_map_finite(|u: u128| (u, level));
    assert(after.dom() =~= s.dom().union(added).insert((vid, level))) by {
        assert forall|k: (u128, usize)| after.dom().contains(k) implies s.dom().union(added).insert(
            (vid, level),
        ).contains(k) by {
            if k != (vid, level) && !s.contains_key(k) {
                assert(fresh.contains(k.0));
                assert(added.contains((k.0, level)));
            }
        }
        assert forall|k: (u128, usize)|
            s.dom().union(added).insert((vid, level)).contains(k) implies after.dom().contains(k) by {
            if added.contains(k) {
                let u = choose|u: u128| fresh.contains(u) && k == (u, level);
                assert(joined.contains_key(k));
            }
        }
    }
    assert forall|k: (u128, usize)| #[trigger] after.contains_key(k) implies after[k].dom().finite()
        && keyed_by_id(after[k]) && !after[k].contains_key(k.0) by {
        if k == (vid, level) {
        } else if k.1 == level && fresh.contains(k.0) {
            let cur = neighbors_of(stripped, k.0, level);
            if s.contains_key(k) {
                assert(stripped[k] == if gone.contains(k.0) {
                    s[k].remove(vid)
                } else {
                    s[k]
                });
            }
            assert(cur.dom().finite());
            assert(keyed_by_id(cur));
            assert(k.0 != vid);
        } else {
            assert(s.contains_key(k));
            assert(joined[k] == stripped[k]);
        }
    }
}

/// `insert_neighbors` keeps an overlay well-formed.
pub proof fn law_insert_neighbors_wf<D>(s: Overlay<D>, id: u128, level: usize, extra: Seq<Record<D>>)
    requires
        overlay_wf(s),
    ensures
        overlay_wf(insert_neighbors_spec(s, id, level, extra)),
{
    let cur = neighbors_of(s, id, level);
    lemma_merge_records(cur, extra);
    let merged = merge_records(cur, extra);
    assert(merged.remove(id).dom() =~= merged.dom().remove(id));
}

/// `insert_neighbors` removes nothing: every record that was pending for
/// `id` at `level` still is, and every other entry is as it was.
pub proof fn law_insert_neighbors_keeps<D>(
    s: Overlay<D>,
    id: u128,
    level: usize,
    extra: Seq<Record<D>>,
)
    requires
        overlay_wf(s),
    ensures
        forall|u: u128| #[trigger]
            neighbors_of(s, id, level).contains_key(u) ==> insert_neighbors_spec(
                s,
                id,
                level,
                extra,
            )[(id, level)].contains_key(u) && insert_neighbors_spec(s, id, level, extra)[(
                id,
                level,
            )][u] == neighbors_of(s, id, level)[u],
        forall|k: (u128, usize)|
            k != (id, level) ==> insert_neighbors_spec(s, id, level, extra).contains_key(k)
                == s.contains_key(k) && (#[trigger] insert_neighbors_spec(s, id, level, extra)[k])
                == s[k],
{
    lemma_merge_records(neighbors_of(s, id, level), extra);
}

/// Symmetry within the overlay is kept by `set_neighbors`: where every
/// pending edge had its reverse before the call, every pending edge has it
/// after.
pub proof fn law_set_neighbors_symmetric<D>(
    s: Overlay<D>,
    v: Record<D>,
    level: usize,
    neighbors: Seq<Record<D>>,
)
    requires
        symmetric(s),
    ensures
        symmetric(set_neighbors_spec(s, v, level, neighbors)),
{
    let vid = v.id();
    let old_set = neighbors_of(s, vid, level);
    let new_set = chosen_neighbors(v, neighbors);
    let gone = old_set.dom().difference(new_set.dom());
    let fresh = new_set.dom().difference(old_set.dom());
    let stripped = strip_backrefs(s, vid, level, gone);
    let joined = add_backrefs(stripped, v, level, fresh);
    let after = set_neighbors_spec(s, v, level, neighbors);
    assert forall|a: u128, lv: usize, b: u128|
        after.contains_key((a, lv)) && #[trigger] after[(a, lv)].contains_key(b) implies after.contains_key(
        (b, lv),
    ) && after[(b, lv)].contains_key(a) by {
        let ka = (a, lv);
        let kb = (b, lv);
        if lv != level {
            assert(after[ka] == s[ka]);
            assert(s[ka].contains_key(b));
        } else if a == vid {
            // b is a chosen neighbor
            if old_set.contains_key(b) {
                assert(s[(vid, level)].contains_key(b));
                assert(s.contains_key(kb) && s[kb].contains_key(vid));
                assert(after[kb] == s[kb]);
            } else {
                assert(fresh.contains(b));
            }
        } else if b == vid {
            // a holds v: a must be a chosen neighbor
            if fresh.contains(a) {
            } else {
                assert(s.contains_key(ka));
                if gone.contains(a) {
                    assert(after[ka] == s[ka].remove(vid));
                } else {
                    assert(after[ka] == s[ka]);
                    assert(s[ka].contains_key(vid));
                    assert(s.contains_key((vid, level)) && s[(vid, level)].contains_key(a));
                    assert(new_set.contains_key(a));
                }
            }
        } else {
            // neither end is v
            assert(s.contains_key(ka) && s[ka].contains_key(b)) by {
                if fresh.contains(a) {
                    if s.contains_key(ka) {
                    }
                }
            }
            assert(s.contains_key(kb) && s[kb].contains_key(a));
            assert(after.contains_key(kb));
            assert(after[kb].contains_key(a));
        }
    }
}

/// Calling `set_neighbors` again with the same arguments changes nothing:
/// any number of calls in a row leaves the overlay as the first call did.
pub proof fn law_set_neighbors_idempotent<D>(
    s: Overlay<D>,
    v: Record<D>,
    level: usize,
    neighbors: Seq<Record<D>>,
    k: nat,
)
    requires
        k >= 1,
    ensures
        set_neighbors_times(s, v, level, neighbors, k) == set_neighbors_spec(s, v, level, neighbors),
    decreases k,
{
    if k > 1 {
        law_set_neighbors_idempotent(s, v, level, neighbors, (k - 1) as nat);
        let once = set_neighbors_spec(s, v, level, neighbors);
        let twice = set_neighbors_spec(once, v, level, neighbors);
        let new_set = chosen_neighbors(v, neighbors);
        assert(neighbors_of(once, v.id(), level) == new_set);
        assert(new_set.dom().difference(new_set.dom()) =~= Set::<u128>::empty());
        assert(twice =~= once);
    } else {
        assert(set_neighbors_times(s, v, level, neighbors, 0) == s);
    }
}

/// A neighbor list that names only `v` itself is the empty list: the self
/// reference is filtered out.
pub proof fn law_self_is_filtered<D>(s: Overlay<D>, v: Record<D>, level: usize, w: Record<D>)
    requires
        w.id() == v.id(),
    ensures
        set_neighbors_spec(s, v, level, seq![w]) == set_neighbors_spec(
            s,
            v,
            level,
            Seq::<Record<D>>::empty(),
        ),
        set_neighbors_spec(s, v, level, seq![w])[(v.id(), level)] == Map::<u128, Record<D>>::empty(),
{
    let one = seq![w];
    assert(one.drop_last() =~= Seq::<Record<D>>::empty());
    assert(one.last() == w);
    assert(records_by_id(one.drop_last()) == Map::<u128, Record<D>>::empty());
    assert(records_by_id(one) == Map::<u128, Record<D>>::empty().insert(w.id(), w));
    assert(chosen_neighbors(v, one) =~= Map::<u128, Record<D>>::empty());
    assert(chosen_neighbors(v, Seq::<Record<D>>::empty()) =~= Map::<u128, Record<D>>::empty());
}

/// Replacing a neighbor set by the empty one strips every back-reference
/// that the old set had in the overlay. Where the overlay was symmetric, no
/// entry of that level holds `v` any more, and a commit writes no key from
/// or to `v` at that level.
pub proof fn law_clearing_strips_backrefs<D>(s: Overlay<D>, v: Record<D>, level: usize)
    ensures
        ({
            let after = set_neighbors_spec(s, v, level, Seq::<Record<D>>::empty());
            &&& after[(v.id(), level)] == Map::<u128, Record<D>>::empty()
            &&& forall|u: u128| #[trigger]
                neighbors_of(s, v.id(), level).contains_key(u) ==> !neighbors_of(
                    after,
                    u,
                    level,
                ).contains_key(v.id())
            &&& symmetric(s) ==> forall|u: u128|
                !(#[trigger] neighbors_of(after, u, level)).contains_key(v.id())
            &&& symmetric(s) ==> forall|x: u128|
                !edge_keys(after).contains(#[trigger] spec_encode(v.id(), level, x))
            &&& symmetric(s) ==> forall|x: u128|
                !edge_keys(after).contains(#[trigger] spec_encode(x, level, v.id()))
        }),
{
    let vid = v.id();
    let none = Seq::<Record<D>>::empty();
    let after = set_neighbors_spec(s, v, level, none);
    let old_set = neighbors_of(s, vid, level);
    let new_set = chosen_neighbors(v, none);
    assert(new_set =~= Map::<u128, Record<D>>::empty());
    let gone = old_set.dom().difference(new_set.dom());
    let fresh = new_set.dom().difference(old_set.dom());
    assert(gone =~= old_set.dom());
    assert(fresh =~= Set::<u128>::empty());
    assert(after[(vid, level)] == new_set);
    assert forall|u: u128| #[trigger] neighbors_of(s, vid, level).contains_key(u) implies !neighbors_of(
        after,
        u,
        level,
    ).contains_key(vid) by {
        if u != vid && after.contains_key((u, level)) {
            assert(gone.contains(u));
            assert(s.contains_key((u, level)));
            assert(after[(u, level)] == s[(u, level)].remove(vid));
        }
    }
    if symmetric(s) {
        assert forall|u: u128| !(#[trigger] neighbors_of(after, u, level)).contains_key(vid) by {
            if after.contains_key((u, level)) && after[(u, level)].contains_key(vid) {
                assert(u != vid);
                assert(s.contains_key((u, level)));
                if !old_set.contains_key(u) {
                    assert(s[(u, level)].contains_key(vid));
                    assert(s[(vid, level)].contains_key(u));
                }
            }
        }
        assert forall|x: u128|
            !edge_keys(after).contains(#[trigger] spec_encode(vid, level, x)) by {
            let k1 = spec_encode(vid, level, x);
            if edge_keys(after).contains(k1) {
                let (a, lv, b) = choose|a: u128, lv: usize, b: u128| #[trigger]
                    edge_in(after, a, lv, b) && (k1 == spec_encode(a, lv, b) || k1 == spec_encode(
                        b,
                        lv,
                        a,
                    ));
                law_key_canonicity(vid, level, x, a, lv, b);
                law_key_canonicity(vid, level, x, b, lv, a);
                assert(neighbors_of(after, a, level) == after[(a, level)]);
                assert(neighbors_of(after, vid, level) == after[(vid, level)]);
            }
        }
        assert forall|x: u128|
            !edge_keys(after).contains(#[trigger] spec_encode(x, level, vid)) by {
            let k2 = spec_encode(x, level, vid);
            if edge_keys(after).contains(k2) {
                let (a, lv, b) = choose|a: u128, lv: usize, b: u128| #[trigger]
                    edge_in(after, a, lv, b) && (k2 == spec_encode(a, lv, b) || k2 == spec_encode(
                        b,
                        lv,
                        a,
                    ));
                law_key_canonicity(x, level, vid, a, lv, b);
                law_key_canonicity(x, level, vid, b, lv, a);
                assert(neighbors_of(after, a, level) == after[(a, level)]);
                assert(neighbors_of(after, vid, level) == after[(vid, level)]);
            }
        }
    }
}

/// Both directions of every pending edge are committed: for each neighbor
/// `u` pending for `id` at `level`, the key from `id` to `u` and the key
/// from `u` to `id` are among the keys written.
pub proof fn law_commit_is_symmetric<D>(s: Overlay<D>, id: u128, level: usize, u: u128)
    requires
        overlay_wf(s),
        s.contains_key((id, level)),
        s[(id, level)].contains_key(u),
    ensures
        edge_keys(s).contains(spec_encode(id, level, u)),
        edge_keys(s).contains(spec_encode(u, level, id)),
{
    assert(edge_in(s, id, level, u));
}

/// No commit writes a key from a vector to itself, whatever the overlay
/// holds.
pub proof fn law_commit_has_no_self_edge<D>(s: Overlay<D>, x: u128, level: usize)
    ensures
        !edge_keys(s).contains(spec_encode(x, level, x)),
{
    let key = spec_encode(x, level, x);
    if edge_keys(s).contains(key) {
        let (a, lv, b) = choose|a: u128, lv: usize, b: u128| #[trigger]
            edge_in(s, a, lv, b) && (key == spec_encode(a, lv, b) || key == spec_encode(b, lv, a));
        law_key_canonicity(x, level, x, a, lv, b);
        law_key_canonicity(x, level, x, b, lv, a);
    }
}

/// The keys of a commit are closed under reversal: with the key of an edge,
/// the key of the reverse edge is written too.
pub proof fn law_commit_keys_reverse<D>(s: Overlay<D>, a: u128, level: usize, b: u128)
    requires
        edge_keys(s).contains(spec_encode(a, level, b)),
    ensures
        edge_keys(s).contains(spec_encode(b, level, a)),
{
    let key = spec_encode(a, level, b);
    let (x, lv, y) = choose|x: u128, lv: usize, y: u128| #[trigger]
        edge_in(s, x, lv, y) && (key == spec_encode(x, lv, y) || key == spec_encode(y, lv, x));
    law_key_canonicity(a, level, b, x, lv, y);
    law_key_canonicity(a, level, b, y, lv, x);
    assert(edge_in(s, x, lv, y));
}

} // verus!
