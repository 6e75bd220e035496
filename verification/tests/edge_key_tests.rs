use helix_db::edge_key::{
    encode, out_edges_key, prefix, ID_BYTES, KEY_BYTES, LEVEL_BYTES, PREFIX_BYTES,
};

fn be16(x: u128) -> Vec<u8> {
    x.to_be_bytes().to_vec()
}

fn be8(x: u64) -> Vec<u8> {
    x.to_be_bytes().to_vec()
}

#[test]
fn widths_add_up() {
    assert_eq!(ID_BYTES, 16);
    assert_eq!(LEVEL_BYTES, 8);
    assert_eq!(PREFIX_BYTES, ID_BYTES + LEVEL_BYTES);
    assert_eq!(KEY_BYTES, PREFIX_BYTES + ID_BYTES);
}

#[test]
fn encode_small_ids_gives_exact_bytes() {
    let mut expected = vec![0u8; 40];
    expected[15] = 1;
    expected[39] = 2;
    assert_eq!(encode(1, 0, 2), expected);
}

#[test]
fn encode_is_big_endian_in_every_field() {
    let src: u128 = 0x0102_0304_0506_0708_090a_0b0c_0d0e_0f10;
    let dst: u128 = 0xf1f2_f3f4_f5f6_f7f8_f9fa_fbfc_fdfe_ff00;
    let level: usize = 0x0a0b;
    let key = encode(src, level, dst);
    let mut expected = be16(src);
    expected.extend(be8(level as u64));
    expected.extend(be16(dst));
    assert_eq!(key, expected);
    assert_eq!(key[0], 0x01);
    assert_eq!(key[15], 0x10);
    assert_eq!(key[22], 0x0a);
    assert_eq!(key[23], 0x0b);
    assert_eq!(key[24], 0xf1);
    assert_eq!(key[39], 0x00);
}

#[test]
fn encode_extreme_values() {
    let key = encode(u128::MAX, usize::MAX, 0);
    assert_eq!(key.len(), 40);
    assert!(key[..16].iter().all(|b| *b == 0xff));
    assert_eq!(&key[16..24], &be8(usize::MAX as u64)[..]);
    assert!(key[24..].iter().all(|b| *b == 0));
    let zero = encode(0, 0, 0);
    assert_eq!(zero, vec![0u8; 40]);
}

#[test]
fn prefix_gives_exact_bytes() {
    let mut expected = vec![0u8; 24];
    expected[15] = 7;
    expected[23] = 3;
    assert_eq!(prefix(7, 3), expected);
}

#[test]
fn encode_starts_with_prefix() {
    let cases: [(u128, usize, u128); 4] =
        [(1, 0, 2), (u128::MAX, 9, 0), (0, usize::MAX, u128::MAX), (1 << 100, 1 << 20, 1 << 64)];
    for (s, l, d) in cases {
        let key = encode(s, l, d);
        let scan = prefix(s, l);
        assert_eq!(key.len(), 40);
        assert_eq!(scan.len(), 24);
        assert!(key.starts_with(&scan));
        assert_eq!(&key[24..], &be16(d)[..]);
    }
}

#[test]
fn prefix_of_other_source_or_level_does_not_match() {
    let key = encode(1, 0, 2);
    assert!(!key.starts_with(&prefix(2, 0)));
    assert!(!key.starts_with(&prefix(1, 1)));
    assert!(!key.starts_with(&prefix(256, 0)));
}

#[test]
fn encode_is_deterministic() {
    assert_eq!(encode(11, 4, 12), encode(11, 4, 12));
    assert_eq!(prefix(11, 4), prefix(11, 4));
}

#[test]
fn different_inputs_give_different_keys() {
    let base = encode(1, 0, 2);
    assert_ne!(base, encode(2, 0, 1));
    assert_ne!(base, encode(1, 1, 2));
    assert_ne!(base, encode(1, 0, 3));
    assert_ne!(base, encode(1 << 8, 0, 2));
    assert_ne!(encode(0, 1, 0), encode(0, 0, 1u128 << 127));
}

#[test]
fn sorted_keys_group_by_source_and_level() {
    let mut keys = vec![
        encode(2, 0, 9),
        encode(1, 1, 5),
        encode(1, 0, 7),
        encode(2, 0, 1),
        encode(1, 0, 3),
        encode(1, 1, 4),
    ];
    keys.sort();
    let groups: Vec<Vec<u8>> = keys.iter().map(|k| k[..24].to_vec()).collect();
    assert_eq!(
        groups,
        vec![prefix(1, 0), prefix(1, 0), prefix(1, 1), prefix(1, 1), prefix(2, 0), prefix(2, 0)]
    );
}

#[test]
fn out_edges_key_with_and_without_sink() {
    assert_eq!(out_edges_key(5, 2, Some(6)), encode(5, 2, 6));
    assert_eq!(out_edges_key(5, 2, None), prefix(5, 2));
}
