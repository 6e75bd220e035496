//! Canonical byte keys for directed neighbor edges.
//!
//! A key is the source id (16 bytes, big-endian), the level (8 bytes,
//! big-endian) and the destination id (16 bytes, big-endian). The first 24
//! bytes are the scan prefix of all out-edges of one `(source, level)` pair.

use vstd::prelude::*;

verus! {

/// Width in bytes of an encoded vector id.
pub const ID_BYTES: usize = 16;

/// Width in bytes of an encoded level.
pub const LEVEL_BYTES: usize = 8;

/// Width in bytes of a scan prefix: source id and level.
pub const PREFIX_BYTES: usize = 24;

/// Width in bytes of a full edge key.
pub const KEY_BYTES: usize = 40;

/// The `n` low-order base-256 digits of `x`, most significant first.
pub open spec fn be_bytes(x: nat, n: nat) -> Seq<u8>
    decreases n,
{
    if n == 0 {
        Seq::empty()
    } else {
        be_bytes(x / 256, (n - 1) as nat).push((x % 256) as u8)
    }
}

/// What is left of `x` once its `n` low-order bytes are dropped.
pub open spec fn high_part(x: nat, n: nat) -> nat
    decreases n,
{
    if n == 0 {
        x
    } else {
        high_part(x / 256, (n - 1) as nat)
    }
}

/// The scan prefix shared by every out-edge of `src` at `level`.
pub open spec fn spec_prefix(src: u128, level: usize) -> Seq<u8> {
    be_bytes(src as nat, 16) + be_bytes(level as nat, 8)
}

/// The key of the directed edge from `src` to `dst` at `level`.
pub open spec fn spec_encode(src: u128, level: usize, dst: u128) -> Seq<u8> {
    spec_prefix(src, level) + be_bytes(dst as nat, 16)
}

/// `be_bytes(x, n)` has exactly `n` bytes.
pub proof fn lemma_be_bytes_len(x: nat, n: nat)
    ensures
        be_bytes(x, n).len() == n,
    decreases n,
{
    if n > 0 {
        lemma_be_bytes_len(x / 256, (n - 1) as nat);
    }
}

/// Two numbers with the same `n` low-order bytes and the same remainder above
/// them are the same number.
pub proof fn lemma_be_bytes_injective(x: nat, y: nat, n: nat)
    requires
        be_bytes(x, n) == be_bytes(y, n),
        high_part(x, n) == high_part(y, n),
    ensures
        x == y,
    decreases n,
{
    if n > 0 {
        let bx = be_bytes(x / 256, (n - 1) as nat);
        let by = be_bytes(y / 256, (n - 1) as nat);
        let dx = (x % 256) as u8;
        let dy = (y % 256) as u8;
        assert(bx.push(dx).last() == by.push(dy).last());
        assert(bx.push(dx).drop_last() =~= bx);
        assert(by.push(dy).drop_last() =~= by);
        lemma_be_bytes_injective(x / 256, y / 256, (n - 1) as nat);
    }
}

/// A 128-bit number has nothing above its 16 low-order bytes.
pub proof fn lemma_high_part_u128(x: u128)
    ensures
        high_part(x as nat, 16) == 0,
{
    reveal_with_fuel(high_part, 17);
}

/// A level has nothing above its 8 low-order bytes.
pub proof fn lemma_high_part_level(level: usize)
    ensures
        high_part(level as nat, 8) == 0,
{
    reveal_with_fuel(high_part, 9);
}

/// Appends the `n` low-order bytes of `x` to `out`, most significant first.
fn push_be_bytes(out: &mut Vec<u8>, x: u128, n: usize)
    ensures
        final(out)@ == old(out)@ + be_bytes(x as nat, n as nat),
    decreases n,
{
    if n > 0 {
        push_be_bytes(out, x / 256, n - 1);
        out.push((x % 256) as u8);
        assert(out@ =~= old(out)@ + be_bytes(x as nat, n as nat));
    } else {
        assert(out@ =~= old(out)@ + be_bytes(x as nat, n as nat));
    }
}

/// The scan prefix of `(src, level)`: every key that `encode` builds for the
/// same source and level begins with it.
pub fn prefix(src: u128, level: usize) -> (key: Vec<u8>)
    ensures
        key@ == spec_prefix(src, level),
{
    let mut key: Vec<u8> = Vec::with_capacity(PREFIX_BYTES);
    push_be_bytes(&mut key, src, ID_BYTES);
    push_be_bytes(&mut key, level as u128, LEVEL_BYTES);
    assert(key@ =~= spec_prefix(src, level));
    key
}

/// The canonical key of the directed edge from `src` to `dst` at `level`.
pub fn encode(src: u128, level: usize, dst: u128) -> (key: Vec<u8>)
    ensures
        key@ == spec_encode(src, level, dst),
{
    let mut key: Vec<u8> = Vec::with_capacity(KEY_BYTES);
    push_be_bytes(&mut key, src, ID_BYTES);
    push_be_bytes(&mut key, level as u128, LEVEL_BYTES);
    push_be_bytes(&mut key, dst, ID_BYTES);
    assert(key@ =~= spec_encode(src, level, dst));
    key
}

/// The key of one out-edge when the sink is given, the scan prefix of all
/// out-edges of `source_id` at `level` when it is not.
pub fn out_edges_key(source_id: u128, level: usize, sink_id: Option<u128>) -> (key: Vec<u8>)
    ensures
        key@ == match sink_id {
            Some(sink) => spec_encode(source_id, level, sink),
            None => spec_prefix(source_id, level),
        },
{
    match sink_id {
        Some(sink) => encode(source_id, level, sink),
        None => prefix(source_id, level),
    }
}

/// Prefixes are 24 bytes long and full keys 40.
pub proof fn lemma_key_lengths(src: u128, level: usize, dst: u128)
    ensures
        spec_prefix(src, level).len() == 24,
        spec_encode(src, level, dst).len() == 40,
{
    lemma_be_bytes_len(src as nat, 16);
    lemma_be_bytes_len(level as nat, 8);
    lemma_be_bytes_len(dst as nat, 16);
}

/// Every key begins with the prefix of its source and level, and is strictly
/// longer than it.
pub proof fn law_prefix_containment(src: u128, level: usize, dst: u128)
    ensures
        spec_prefix(src, level).is_prefix_of(spec_encode(src, level, dst)),
        spec_prefix(src, level).len() < spec_encode(src, level, dst).len(),
{
    lemma_key_lengths(src, level, dst);
    let p = spec_prefix(src, level);
    let k = spec_encode(src, level, dst);
    assert(k.subrange(0, p.len() as int) =~= p);
}

/// Two prefixes are the same bytes only for the same source and level.
pub proof fn law_prefix_injective(sa: u128, la: usize, sb: u128, lb: usize)
    requires
        spec_prefix(sa, la) == spec_prefix(sb, lb),
    ensures
        sa == sb,
        la == lb,
{
    let ia = be_bytes(sa as nat, 16);
    let ib = be_bytes(sb as nat, 16);
    let va = be_bytes(la as nat, 8);
    let vb = be_bytes(lb as nat, 8);
    lemma_be_bytes_len(sa as nat, 16);
    lemma_be_bytes_len(sb as nat, 16);
    lemma_be_bytes_len(la as nat, 8);
    lemma_be_bytes_len(lb as nat, 8);
    assert((ia + va).subrange(0, 16) =~= ia);
    assert((ib + vb).subrange(0, 16) =~= ib);
    assert((ia + va).subrange(16, 24) =~= va);
    assert((ib + vb).subrange(16, 24) =~= vb);
    lemma_high_part_u128(sa);
    lemma_high_part_u128(sb);
    lemma_high_part_level(la);
    lemma_high_part_level(lb);
    lemma_be_bytes_injective(sa as nat, sb as nat, 16);
    lemma_be_bytes_injective(la as nat, lb as nat, 8);
}

/// The encoding is canonical: equal inputs give equal keys, and two keys are
/// the same bytes only for the same source, level and destination.
pub proof fn law_key_canonicity(sa: u128, la: usize, da: u128, sb: u128, lb: usize, db: u128)
    ensures
        (sa == sb && la == lb && da == db) <==> spec_encode(sa, la, da) == spec_encode(sb, lb, db),
{
    if spec_encode(sa, la, da) == spec_encode(sb, lb, db) {
        let pa = spec_prefix(sa, la);
        let pb = spec_prefix(sb, lb);
        let ta = be_bytes(da as nat, 16);
        let tb = be_bytes(db as nat, 16);
        lemma_key_lengths(sa, la, da);
        lemma_key_lengths(sb, lb, db);
        lemma_be_bytes_len(da as nat, 16);
        lemma_be_bytes_len(db as nat, 16);
        assert((pa + ta).subrange(0, 24) =~= pa);
        assert((pb + tb).subrange(0, 24) =~= pb);
        assert((pa + ta).subrange(24, 40) =~= ta);
        assert((pb + tb).subrange(24, 40) =~= tb);
        law_prefix_injective(sa, la, sb, lb);
        lemma_high_part_u128(da);
        lemma_high_part_u128(db);
        lemma_be_bytes_injective(da as nat, db as nat, 16);
    }
}

/// A prefix scan finds the out-edges of its own source and level and no
/// others.
pub proof fn law_prefix_selects(src: u128, level: usize, sb: u128, lb: usize, db: u128)
    ensures
        spec_prefix(src, level).is_prefix_of(spec_encode(sb, lb, db)) <==> (src == sb && level
            == lb),
{
    lemma_key_lengths(src, level, db);
    lemma_key_lengths(sb, lb, db);
    law_prefix_containment(sb, lb, db);
    if spec_prefix(src, level).is_prefix_of(spec_encode(sb, lb, db)) {
        let p = spec_prefix(src, level);
        let pb = spec_prefix(sb, lb);
        let k = spec_encode(sb, lb, db);
        assert(k.subrange(0, 24) =~= p);
        assert(k.subrange(0, 24) =~= pb);
        law_prefix_injective(src, level, sb, lb);
    }
}

/// `a` comes before `b` in the byte-wise order in which an ordered store
/// keeps its keys: they agree up to some position, where `a` ends or has the
/// smaller byte.
pub open spec fn lex_lt(a: Seq<u8>, b: Seq<u8>) -> bool {
    exists|i: int| #[trigger] differ_at(a, b, i)
}

/// `a` and `b` agree on their first `i` bytes, and at position `i` either
/// `a` ends while `b` goes on, or `a` has the smaller byte.
pub open spec fn differ_at(a: Seq<u8>, b: Seq<u8>, i: int) -> bool {
    &&& 0 <= i <= a.len()
    &&& i < b.len()
    &&& a.subrange(0, i) == b.subrange(0, i)
    &&& i == a.len() || a[i] < b[i]
}

/// `a` is `b` or comes before it.
pub open spec fn lex_le(a: Seq<u8>, b: Seq<u8>) -> bool {
    a == b || lex_lt(a, b)
}

/// In an ordered store the out-edges of one source at one level lie
/// together: whatever is kept between two keys of the same prefix has that
/// prefix too.
pub proof fn law_prefix_groups_keys(src: u128, level: usize, da: u128, db: u128, between: Seq<u8>)
    requires
        lex_le(spec_encode(src, level, da), between),
        lex_le(between, spec_encode(src, level, db)),
    ensures
        spec_prefix(src, level).is_prefix_of(between),
{
    let p = spec_prefix(src, level);
    let a = spec_encode(src, level, da);
    let c = spec_encode(src, level, db);
    lemma_key_lengths(src, level, da);
    lemma_key_lengths(src, level, db);
    law_prefix_containment(src, level, da);
    law_prefix_containment(src, level, db);
    assert(a.subrange(0, 24) =~= p);
    assert(c.subrange(0, 24) =~= p);
    if a != between && between != c {
        let i = choose|i: int| #[trigger] differ_at(a, between, i);
        let k = choose|k: int| #[trigger] differ_at(between, c, k);
        if i >= 24 {
            assert(between.subrange(0, 24) =~= a.subrange(0, i).subrange(0, 24));
            assert(a.subrange(0, i).subrange(0, 24) =~= p);
        } else if k >= 24 {
            assert(between.subrange(0, 24) =~= c.subrange(0, k).subrange(0, 24));
            assert(c.subrange(0, k).subrange(0, 24) =~= p);
        } else {
            // both differences lie within the prefix, where the two keys agree
            assert(a[i] == p[i]) by {
                assert(a.subrange(0, 24)[i] == a[i]);
            }
            assert(a[i] < between[i]);
            if k > i {
                assert(between.subrange(0, k)[i] == c.subrange(0, k)[i]);
                assert(c.subrange(0, 24)[i] == c[i]);
            } else if k == i {
                assert(between[k] < c[k]);
                assert(c.subrange(0, 24)[k] == c[k]);
            } else {
                assert(a.subrange(0, i)[k] == between.subrange(0, i)[k]);
                assert(between[k] < c[k]);
                assert(a.subrange(0, 24)[k] == a[k]);
                assert(c.subrange(0, 24)[k] == c[k]);
            }
        }
    }
}

/// The byte strings that a list of keys holds, in the same order.
pub open spec fn key_views(keys: Seq<Vec<u8>>) -> Seq<Seq<u8>> {
    keys.map_values(|k: Vec<u8>| k@)
}

} // verus!
