use cubic_bitfields::util::{gen_alternating_value, gen_rand_packed};
use cubic_bitfields::{
    Bitfield, CmpFlag, SetFlag, TrackedBitfield, CMP_EQ, CMP_GT, CMP_LT, CMP_NE, SET_AND,
    SET_ASSIGN, SET_OR, SET_XOR,
};

fn bit(words: &[u32; 1024], n: usize) -> bool {
    (words[n / 32] >> (n % 32)) & 1 == 1
}

fn set_bits(words: &[u32; 1024]) -> Vec<usize> {
    (0..32768).filter(|&n| bit(words, n)).collect()
}

fn sample_bitfield(seed: u32) -> Bitfield {
    let mut b = Bitfield::new(0);
    for i in 0..1024 {
        b.as_mut_slice()[i] = (i as u32).wrapping_mul(2654435761).wrapping_add(seed).rotate_left(i as u32 % 32);
    }
    b
}

#[test]
fn new_and_fill_set_every_word() {
    let mut b = Bitfield::new(7);
    assert!(b.as_array().iter().all(|&w| w == 7));
    b.fill(0xdead_beef);
    assert!(b.as_slice().iter().all(|&w| w == 0xdead_beef));
    assert_eq!(b.to_array()[1023], 0xdead_beef);
}

#[test]
fn word_operations() {
    let a = sample_bitfield(1);
    let b = sample_bitfield(99);
    let mut and = a;
    and &= b;
    let mut or = a;
    or |= b;
    let mut xor = a;
    xor ^= b;
    let andnot = a.andnot(&b);
    for i in 0..1024 {
        let (x, y) = (a.as_array()[i], b.as_array()[i]);
        assert_eq!(and.as_array()[i], x & y);
        assert_eq!(or.as_array()[i], x | y);
        assert_eq!(xor.as_array()[i], x ^ y);
        assert_eq!(andnot.as_array()[i], x & !y);
    }
    let mut c = a;
    c.andnot_assign(&b);
    assert_eq!(c, andnot);
}

#[test]
fn binary_operators_start_from_zero() {
    let a = sample_bitfield(3);
    let b = sample_bitfield(4);
    assert_eq!(a | b, b);
    assert_eq!(a ^ b, b);
    assert_eq!(a & b, Bitfield::new(0));
}

#[test]
fn shifts_count_low_five_bits() {
    let a = sample_bitfield(5);
    let left = a << 3;
    let right = a >> 3;
    for i in 0..1024 {
        assert_eq!(left.as_array()[i], a.as_array()[i] << 3);
        assert_eq!(right.as_array()[i], a.as_array()[i] >> 3);
    }
    assert_eq!(a << 35, a << 3);
    assert_eq!(a >> 32, a);
    let mut b = a;
    b <<= 31;
    assert_eq!(b, a << 31);
}

#[test]
fn cull_keeps_run_ends() {
    let mut b = Bitfield::new(0b0111_0110_0000_1000);
    b.cull_most_sig_bits();
    assert_eq!(b.as_array()[5], 0b0001_0010_0000_1000);
    let mut c = Bitfield::new(0b0111_0110_0000_1000);
    c.cull_least_sig_bits();
    assert_eq!(c.as_array()[5], 0b0100_0100_0000_1000);
}

#[test]
fn to_array_64_joins_halves() {
    let a = sample_bitfield(6);
    let wide = a.to_array_64();
    for k in 0..512 {
        assert_eq!(wide[k], a.as_array()[2 * k] as u64 | ((a.as_array()[2 * k + 1] as u64) << 32));
    }
}

#[test]
fn outer_transpose_moves_words() {
    let a = sample_bitfield(7);
    let mut b = a;
    b.outer_transpose();
    for r in 0..32 {
        for c in 0..32 {
            assert_eq!(b.as_array()[32 * r + c], a.as_array()[32 * c + r]);
        }
    }
    b.outer_transpose_scalar();
    assert_eq!(b, a);
}

#[test]
fn inner_transpose_moves_bits() {
    let a = sample_bitfield(8);
    let mut b = a;
    b.inner_transpose();
    for s in 0..32 {
        for i in 0..32 {
            for j in 0..32 {
                let moved = (b.as_array()[32 * s + j] >> i) & 1;
                let orig = (a.as_array()[32 * s + i] >> j) & 1;
                assert_eq!(moved, orig);
            }
        }
    }
    b.inner_transpose_scalar();
    assert_eq!(b, a);
}

#[test]
fn transposes_rotate_the_cube() {
    let a = sample_bitfield(9);
    let mut b = a;
    b.outer_transpose().inner_transpose();
    for x in 0..32 {
        for y in 0..32 {
            for z in 0..32 {
                assert_eq!(bit(b.as_array(), 1024 * y + 32 * z + x), bit(a.as_array(), 1024 * x + 32 * y + z));
            }
        }
    }
}

#[test]
fn outer_slice_rows_read_one_bit_plane() {
    let a = sample_bitfield(10);
    let rows = a.outer_slice_rows(5);
    for i in 0..32 {
        for j in 0..32 {
            assert_eq!((rows[i] >> j) & 1, (a.as_array()[32 * i + j] >> 5) & 1);
        }
    }
}

#[test]
fn loaders_compare_and_merge() {
    let data: [u64; 4096] = std::array::from_fn(|i| 0x0706_0504_0302_0100u64.wrapping_add(i as u64));
    let element = |n: usize| ((data[n / 8] >> (8 * (n % 8))) & 0xff) as u8;

    let mut gt = Bitfield::new(0);
    gt.load_packed_u8_into::<SET_ASSIGN, CMP_GT>(&data, 4);
    let mut lt = Bitfield::new(0);
    lt.load_packed_u8_into::<SET_ASSIGN, CMP_LT>(&data, 4);
    let mut ne = Bitfield::new(0);
    ne.load_packed_u8_into::<SET_ASSIGN, CMP_NE>(&data, 4);
    for n in 0..32768 {
        assert_eq!(bit(gt.as_array(), n), element(n) > 4);
        assert_eq!(bit(lt.as_array(), n), element(n) < 4);
        assert_eq!(bit(ne.as_array(), n), element(n) != 4);
    }

    let start = sample_bitfield(11);
    let mut xor = start;
    xor.load_packed_u8_into::<SET_XOR, CMP_EQ>(&data, 4);
    let mut and = start;
    and.load_packed_u8_into::<SET_AND, CMP_EQ>(&data, 4);
    let mut or = start;
    or.load_packed_u8_into::<SET_OR, CMP_EQ>(&data, 4);
    for n in 0..32768 {
        let old = bit(start.as_array(), n);
        let m = element(n) == 4;
        assert_eq!(bit(xor.as_array(), n), old != m);
        assert_eq!(bit(and.as_array(), n), old && m);
        assert_eq!(bit(or.as_array(), n), old || m);
    }
}

#[test]
fn u4_value_above_fifteen_compares_high_nibble_as_byte() {
    // Every byte is 0x1f: low nibble 15, high nibble 1.
    let data = [0x1f1f_1f1f_1f1f_1f1fu64; 2048];
    let mut b = Bitfield::new(0);
    b.load_packed_u4_into::<SET_ASSIGN, CMP_EQ>(&data, 17);
    // Low nibbles never equal 17; a high nibble 1 reads as 0x10, which is 17 << 4
    // truncated to a byte.
    assert!(b.as_array().iter().all(|&w| w == 0xaaaa_aaaa));
}

#[test]
fn u2_values_and_sparse_slices() {
    // Every element is 2.
    let data = [0xaaaa_aaaa_aaaa_aaaau64; 1024];
    let mut all = Bitfield::new(0);
    all.load_packed_u2_into::<SET_ASSIGN, CMP_EQ>(&data, 2);
    assert!(all.as_array().iter().all(|&w| w == u32::MAX));

    let mut yz = Bitfield::new(0);
    yz.load_yz_packed_u2_into::<SET_ASSIGN, CMP_EQ>(&data, 3, 2);
    let mut xz = Bitfield::new(0);
    xz.load_xz_packed_u2_into::<SET_ASSIGN, CMP_EQ>(&data, 5, 2);
    for w in 0..1024 {
        assert_eq!(yz.as_array()[w] == u32::MAX, w / 32 == 3);
        assert_eq!(xz.as_array()[w] == u32::MAX, w % 32 == 5);
    }
    let mut none = Bitfield::new(0);
    none.load_yz_packed_u2_into::<SET_ASSIGN, CMP_EQ>(&data, 40, 2);
    assert_eq!(none, Bitfield::new(0));
}

#[test]
fn xz_from_a_later_word() {
    let data = [u64::MAX; 8192];
    let mut b = Bitfield::new(0);
    b.load_xz_packed_u16_into::<SET_ASSIGN, CMP_EQ>(&data, 100, 0xffff);
    for w in 0..1024 {
        assert_eq!(b.as_array()[w] == u32::MAX, w >= 100 && w % 32 == 100 % 32);
    }
}

#[test]
fn generators() {
    let r = gen_rand_packed::<3>();
    assert_eq!(r, [0xd67411c46c86742d, 0x1e84daa4172a3585, 0xc4ccb560b5d4a61d]);
    let a = gen_alternating_value::<5>(1, 2);
    assert_eq!(a, [2, 1, 2, 1, 2]);
}

#[test]
fn flags_have_their_codes() {
    assert!(matches!(CmpFlag::from_code(CMP_EQ), CmpFlag::Eq));
    assert!(matches!(CmpFlag::from_code(CMP_NE), CmpFlag::Ne));
    assert!(matches!(CmpFlag::from_code(CMP_GT), CmpFlag::Gt));
    assert!(matches!(CmpFlag::from_code(CMP_LT), CmpFlag::Lt));
    assert!(matches!(SetFlag::from_code(SET_ASSIGN), SetFlag::Assign));
    assert!(matches!(SetFlag::from_code(SET_OR), SetFlag::Or));
    assert!(matches!(SetFlag::from_code(SET_XOR), SetFlag::Xor));
    assert!(matches!(SetFlag::from_code(SET_AND), SetFlag::And));
}

fn check_tracking(t: &TrackedBitfield) {
    let words = t.as_array();
    let mut slices = 0u32;
    for s in 0..32 {
        let mut rows = 0u32;
        for r in 0..32 {
            if words[32 * s + r] != 0 {
                rows |= 1 << r;
            }
        }
        assert_eq!(t.get_active_rows(s), rows);
        if rows != 0 {
            slices |= 1 << s;
        }
    }
    assert_eq!(t.get_active_slices(), slices);
    assert_eq!(t.num_active_slices(), slices.count_ones());
    assert_eq!(t.is_empty(), slices == 0);
}

fn sparse_bitfield() -> Bitfield {
    let mut b = Bitfield::new(0);
    b.as_mut_slice()[3] = 0x8000_0001;
    b.as_mut_slice()[32 * 7 + 30] = 0x10;
    b.as_mut_slice()[1023] = u32::MAX;
    b
}

#[test]
fn tracking_follows_every_operation() {
    let plain = sparse_bitfield();
    let mut t = TrackedBitfield::from_bitfield(plain);
    assert_eq!(*t.as_bitfield(), plain);
    check_tracking(&t);

    let other = TrackedBitfield::from_bitfield(sample_bitfield(12));
    let mut expected = plain;
    expected |= sample_bitfield(12);
    t |= other;
    assert_eq!(*t.as_bitfield(), expected);
    check_tracking(&t);

    expected &= sparse_bitfield();
    t &= TrackedBitfield::from_bitfield(sparse_bitfield());
    assert_eq!(*t.as_bitfield(), expected);
    check_tracking(&t);

    expected <<= 4;
    t <<= 4;
    assert_eq!(*t.as_bitfield(), expected);
    check_tracking(&t);

    expected.outer_transpose();
    t.outer_transpose();
    assert_eq!(*t.as_bitfield(), expected);
    check_tracking(&t);

    expected.inner_transpose();
    t.inner_transpose();
    assert_eq!(*t.as_bitfield(), expected);
    check_tracking(&t);

    expected.cull_least_sig_bits();
    t.cull_least_sig_bits();
    assert_eq!(*t.as_bitfield(), expected);
    check_tracking(&t);

    t.fill(0);
    assert!(t.is_empty());
    check_tracking(&t);
    let full = TrackedBitfield::new(1);
    assert_eq!(full.num_active_slices(), 32);
    assert!(full.all_ones_slice(0) == false);
    assert!(TrackedBitfield::new(u32::MAX).all_ones_slice(64));
}

#[test]
fn active_bits_come_in_order() {
    let t = TrackedBitfield::from_bitfield(sparse_bitfield());
    let mut iter = t.active_bit_iter();
    let mut seen = Vec::new();
    while let Some(n) = iter.next() {
        seen.push(n);
    }
    assert_eq!(seen, set_bits(t.as_array()));
    assert_eq!(seen[0], 3 * 32);
    assert_eq!(seen[1], 3 * 32 + 31);
    assert_eq!(seen[2], (32 * 7 + 30) * 32 + 4);
    assert_eq!(seen.len(), 3 + 32);
}

#[test]
fn tracked_loaders_track() {
    let data = gen_rand_packed::<2048>();
    let mut t = TrackedBitfield::new(0);
    t.load_yz_packed_u4_into::<SET_OR, CMP_EQ>(&data, 9, 3);
    let mut plain = Bitfield::new(0);
    plain.load_yz_packed_u4_into::<SET_OR, CMP_EQ>(&data, 9, 3);
    assert_eq!(*t.as_bitfield(), plain);
    check_tracking(&t);
    assert_eq!(t.get_active_slices(), 1 << 9);
}

#[test]
fn tracked_inner_transpose_recomputes_rows() {
    let mut b = Bitfield::new(0);
    b.as_mut_slice()[0] = 2;
    let mut t = TrackedBitfield::from_bitfield(b);
    assert_eq!(t.get_active_rows(0), 1);
    t.inner_transpose();
    assert_eq!(t.as_array()[0], 0);
    assert_eq!(t.as_array()[1], 1);
    assert_eq!(t.get_active_rows(0), 2);
    assert_eq!(t.get_active_slices(), 1);
    check_tracking(&t);

    let mut dense = TrackedBitfield::new(u32::MAX);
    dense.as_mut_slice()[32 * 5] = 0;
    dense.update_tracking();
    dense.inner_transpose();
    let mut expected = Bitfield::new(u32::MAX);
    expected.as_mut_slice()[32 * 5] = 0;
    expected.inner_transpose();
    assert_eq!(*dense.as_bitfield(), expected);
    check_tracking(&dense);
}

#[test]
fn tracked_inner_transpose_scalar_keeps_rows() {
    let mut b = Bitfield::new(0);
    b.as_mut_slice()[0] = 2;
    let mut t = TrackedBitfield::from_bitfield(b);
    t.inner_transpose_scalar();
    assert_eq!(t.as_array()[0], 0);
    assert_eq!(t.as_array()[1], 1);
    assert_eq!(t.get_active_rows(0), 1);
    assert_eq!(t.get_active_slices(), 1);
}

#[test]
fn transposes_undo_themselves() {
    let start = sample_bitfield(7);
    let mut b = start;
    b.outer_transpose().outer_transpose();
    assert_eq!(b, start);
    b.inner_transpose().inner_transpose();
    assert_eq!(b, start);
    b.inner_transpose();
    assert_ne!(b, start);
    b.inner_transpose_scalar();
    assert_eq!(b, start);
}

#[test]
fn active_bits_follow_the_masks() {
    let mut t = TrackedBitfield::new(0);
    t.as_mut_slice()[5] = 1;
    let mut iter = t.active_bit_iter();
    assert_eq!(iter.next(), None);

    let mut b = Bitfield::new(0);
    b.as_mut_slice()[0] = 3;
    let mut t = TrackedBitfield::from_bitfield(b);
    t.inner_transpose_scalar();
    assert_eq!(t.as_array()[0], 1);
    assert_eq!(t.as_array()[1], 1);
    let mut iter = t.active_bit_iter();
    let mut seen = Vec::new();
    while let Some(n) = iter.next() {
        seen.push(n);
    }
    assert_eq!(seen, vec![0]);
}

#[test]
fn active_bit_iter_stays_exhausted() {
    let t = TrackedBitfield::from_bitfield(sparse_bitfield());
    let mut iter = t.active_bit_iter();
    let mut last = None;
    while let Some(n) = iter.next() {
        if let Some(prev) = last {
            assert!(n > prev);
        }
        assert!(n < 32768);
        last = Some(n);
    }
    assert_eq!(iter.next(), None);
    assert_eq!(iter.next(), None);
}

#[test]
fn tracked_outer_transpose_moves_stale_masks() {
    let mut t = TrackedBitfield::new(0);
    t.as_mut_slice()[32 * 2 + 5] = 1;
    t.outer_transpose();
    assert_eq!(t.get_active_slices(), 0);
    let mut b = Bitfield::new(0);
    b.as_mut_slice()[32 * 2 + 5] = 1;
    let mut t = TrackedBitfield::from_bitfield(b);
    t.as_mut_slice()[32 * 2 + 5] = 0;
    t.outer_transpose();
    assert_eq!(t.get_active_rows(5), 1 << 2);
    assert_eq!(t.get_active_slices(), 1 << 5);
}

#[test]
fn or_assign_unites_masks() {
    let mut t = TrackedBitfield::new(1);
    t |= TrackedBitfield::new(0);
    for s in 0..32 {
        assert_eq!(t.get_active_rows(s), u32::MAX);
    }
    assert_eq!(t.get_active_slices(), u32::MAX);
    check_tracking(&t);
}
