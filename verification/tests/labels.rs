use scip_jack::graph::algorithms::dijkstra_steiner::{pack, LabelHasher};

#[test]
fn pack_puts_the_mask_above_the_vertex() {
    assert_eq!(pack(0, 0), 0);
    assert_eq!(pack(1, 7), (1u64 << 32) + 7);
    let k = pack(0xDEAD_BEEF, 0x1234_5678);
    assert_eq!((k >> 32) as u32, 0xDEAD_BEEF);
    assert_eq!((k & 0xFFFF_FFFF) as u32, 0x1234_5678);
}

#[test]
fn label_hasher_mixes_integers() {
    let mut h = LabelHasher::default();
    assert_eq!(h.finish(), 0);
    h.write_u64(1);
    assert_eq!(h.finish(), 0x9E37_79B9_7F4A_7C15 ^ (0x9E37_79B9_7F4A_7C15u64 >> 29));
    let mut g = LabelHasher::default();
    g.write_u32(1);
    assert_eq!(g.finish(), h.finish());
    let mut b = LabelHasher(0);
    b.write(&[1, 2]);
    let step = |s: u64, x: u8| (s ^ x as u64).wrapping_mul(0x0000_0100_0000_01b3);
    assert_eq!(b.finish(), step(step(0, 1), 2));
}
