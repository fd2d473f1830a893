//! A 32x32x32 cube of bits, stored as 1024 words of 32 bits.
//!
//! Bit `n` of the cube is bit `n % 32` of word `n / 32`. Word `w` is row
//! `w % 32` of inner slice `w / 32`; bit `z` of a word is its place in outer
//! slice `z`. When the cube is read as 512 words of 64 bits, word `k` holds
//! word `2 * k` in its low half and word `2 * k + 1` in its high half.
use vstd::prelude::*;
use std::ops::{
    BitAnd, BitAndAssign, BitOr, BitOrAssign, BitXor, BitXorAssign, Shl, ShlAssign, Shr, ShrAssign,
};

use crate::bits::{
    bit32, bit64, lemma_bit32_ext, lemma_bit64_and_le, lemma_bit64_high_half, lemma_bit64_low_half,
    lemma_u32_zero_merge,
};
use crate::loader::{
    SET_ASSIGN,
    elem_matches, lemma_set_word_bits, loaded, set_bit, set_word, word_loaded, apply_set,
    process_packed_u1, process_packed_u2, process_packed_u4, process_packed_u8, process_packed_u16,
    packed_field, valid_width, per_word,
};
use crate::transposes::{
    bits_transposed_at, inner_transposed, inner_transpose_slice_scalar, outer_transposed,
};

verus! {

/// A cube of 32x32x32 bits; its view is the sequence of its 1024 words.
#[derive(Clone, Copy, Debug, PartialEq, Eq)]
pub struct Bitfield {
    data: [u32; 1024],
}

impl View for Bitfield {
    type V = Seq<u32>;

    closed spec fn view(&self) -> Seq<u32> {
        self.data@
    }
}

/// A bitfield has 1024 words.
pub broadcast proof fn lemma_bitfield_len(b: Bitfield)
    ensures
        #[trigger] b@.len() == 1024,
{
}

/// Word by word `a & b`.
pub open spec fn words_and(a: Seq<u32>, b: Seq<u32>) -> Seq<u32> {
    Seq::new(a.len(), |i: int| a[i] & b[i])
}

/// Word by word `a | b`.
pub open spec fn words_or(a: Seq<u32>, b: Seq<u32>) -> Seq<u32> {
    Seq::new(a.len(), |i: int| a[i] | b[i])
}

/// Word by word `a ^ b`.
pub open spec fn words_xor(a: Seq<u32>, b: Seq<u32>) -> Seq<u32> {
    Seq::new(a.len(), |i: int| a[i] ^ b[i])
}

/// Word by word `a & !b`.
pub open spec fn words_andnot(a: Seq<u32>, b: Seq<u32>) -> Seq<u32> {
    Seq::new(a.len(), |i: int| a[i] & !b[i])
}

/// Every word shifted left by `s`.
pub open spec fn words_shl(a: Seq<u32>, s: u32) -> Seq<u32> {
    Seq::new(a.len(), |i: int| a[i] << s)
}

/// Every word shifted right by `s`.
pub open spec fn words_shr(a: Seq<u32>, s: u32) -> Seq<u32> {
    Seq::new(a.len(), |i: int| a[i] >> s)
}

/// Every word with the set bits that have a set bit just below them cleared:
/// each run of set bits cut down to its least significant bit.
pub open spec fn words_cull_msb(a: Seq<u32>) -> Seq<u32> {
    Seq::new(a.len(), |i: int| a[i] & !(a[i] << 1u32))
}

/// Every word with the set bits that have a set bit just above them cleared:
/// each run of set bits cut down to its most significant bit.
pub open spec fn words_cull_lsb(a: Seq<u32>) -> Seq<u32> {
    Seq::new(a.len(), |i: int| a[i] & !(a[i] >> 1u32))
}

/// The bitfield with every word zero.
pub open spec fn words_zero() -> Seq<u32> {
    Seq::new(1024, |_i: int| 0u32)
}

/// Word `w` lies in inner slice `x`.
pub open spec fn yz_word(x: int, w: int) -> bool {
    32 * x <= w < 32 * x + 32
}

/// Word `w` lies in row `y % 32` of an inner slice, at or after word `y`.
pub open spec fn xz_word(y: int, w: int) -> bool {
    y <= w && w % 32 == y % 32
}

/// Index `w` lies in the progression from `start` by steps of `stride`, below `end`.
pub open spec fn strided(start: int, stride: int, end: int, w: int) -> bool {
    start <= w < end && (w - start) % stride == 0
}

/// Stores the match bits of a 64-bit mask into two consecutive words.
proof fn lemma_store_u64(
    set: u8,
    op: u8,
    width: u64,
    data: Seq<u64>,
    val: u64,
    old_lo: u32,
    old_hi: u32,
    v: u64,
    w: int,
)
    requires
        forall|j: u64|
            j < 64 ==> #[trigger] bit64(v, j) == elem_matches(op, width, data, val, 32 * w + j),
    ensures
        word_loaded(set, op, width, data, val, old_lo, set_word(set, old_lo, v as u32), w),
        word_loaded(
            set,
            op,
            width,
            data,
            val,
            old_hi,
            set_word(set, old_hi, (v >> 32u64) as u32),
            w + 1,
        ),
{
    lemma_set_word_bits(set, old_lo, #[verifier::truncate] (v as u32));
    lemma_set_word_bits(set, old_hi, (v >> 32u64) as u32);
    assert forall|b: u32| b < 32 implies #[trigger] bit32(set_word(set, old_lo, v as u32), b)
        == set_bit(set, bit32(old_lo, b), elem_matches(op, width, data, val, 32 * w + b)) by {
        lemma_bit64_low_half(v, b);
        assert(bit64(v, b as u64) == elem_matches(op, width, data, val, 32 * w + b));
    }
    assert forall|b: u32| b < 32 implies #[trigger] bit32(
        set_word(set, old_hi, (v >> 32u64) as u32),
        b,
    ) == set_bit(set, bit32(old_hi, b), elem_matches(op, width, data, val, 32 * (w + 1) + b)) by {
        lemma_bit64_high_half(v, b);
        assert(bit64(v, (b + 32) as u64) == elem_matches(op, width, data, val, 32 * w + (b + 32)));
    }
}

/// Stores the match bits of a 32-bit mask into one word.
proof fn lemma_store_u32(
    set: u8,
    op: u8,
    width: u64,
    data: Seq<u64>,
    val: u64,
    old_w: u32,
    v: u32,
    w: int,
)
    requires
        forall|j: u32|
            j < 32 ==> #[trigger] bit32(v, j) == elem_matches(op, width, data, val, 32 * w + j),
    ensures
        word_loaded(set, op, width, data, val, old_w, set_word(set, old_w, v), w),
{
    lemma_set_word_bits(set, old_w, v);
}

/// An element read from a word copied out of `data` is the element at the same
/// place in `data`.
#[verifier::spinoff_prover]
#[verifier::rlimit(40)]
proof fn lemma_elem_moved(
    op: u8,
    width: u64,
    val: u64,
    s: Seq<u64>,
    data: Seq<u64>,
    k: int,
    d: int,
    r: int,
)
    requires
        valid_width(width),
        0 <= k < s.len(),
        0 <= d < data.len(),
        s[k] == data[d],
        0 <= r < per_word(width),
    ensures
        elem_matches(op, width, s, val, per_word(width) * k + r) == elem_matches(
            op,
            width,
            data,
            val,
            per_word(width) * d + r,
        ),
{
    let p = per_word(width);
    if width == 1 {
        assert((64 * k + r) / 64 == k && (64 * k + r) % 64 == r);
        assert((64 * d + r) / 64 == d && (64 * d + r) % 64 == r);
    } else if width == 2 {
        assert((32 * k + r) / 32 == k && (32 * k + r) % 32 == r);
        assert((32 * d + r) / 32 == d && (32 * d + r) % 32 == r);
    } else if width == 4 {
        assert((16 * k + r) / 16 == k && (16 * k + r) % 16 == r);
        assert((16 * d + r) / 16 == d && (16 * d + r) % 16 == r);
        assert((16 * k + r) % 2 == r % 2 && (16 * d + r) % 2 == r % 2);
    } else if width == 8 {
        assert((8 * k + r) / 8 == k && (8 * k + r) % 8 == r);
        assert((8 * d + r) / 8 == d && (8 * d + r) % 8 == r);
    } else {
        assert((4 * k + r) / 4 == k && (4 * k + r) % 4 == r);
        assert((4 * d + r) / 4 == d && (4 * d + r) % 4 == r);
    }
}

/// One half of a 64-bit mask computed over gathered words, stored where those
/// elements sit in `data`.
proof fn lemma_half_moved(
    op: u8,
    width: u64,
    val: u64,
    s: Seq<u64>,
    data: Seq<u64>,
    v: u64,
    hi: bool,
    h: u32,
    sfirst: int,
    shalf: int,
    dw: int,
)
    requires
        h == if hi {
            (v >> 32u64) as u32
        } else {
            v as u32
        },
        shalf == sfirst + if hi { 32int } else { 0int },
        forall|j: u64| j < 64 ==> #[trigger] bit64(v, j) == elem_matches(op, width, s, val, sfirst + j),
        forall|j: int|
            0 <= j < 32 ==> #[trigger] elem_matches(op, width, s, val, shalf + j) == elem_matches(
                op,
                width,
                data,
                val,
                32 * dw + j,
            ),
    ensures
        forall|j: u32| j < 32 ==> #[trigger] bit32(h, j) == elem_matches(op, width, data, val, 32 * dw + j),
{
    assert forall|j: u32| j < 32 implies #[trigger] bit32(h, j) == elem_matches(op, width, data, val, 32 * dw + j) by {
        if hi {
            lemma_bit64_high_half(v, j);
            assert(bit64(v, (j + 32) as u64) == elem_matches(op, width, s, val, sfirst + (j + 32)));
            assert(elem_matches(op, width, s, val, shalf + j) == elem_matches(op, width, data, val, 32 * dw + j));
        } else {
            lemma_bit64_low_half(v, j);
            assert(bit64(v, j as u64) == elem_matches(op, width, s, val, sfirst + j));
            assert(elem_matches(op, width, s, val, shalf + j) == elem_matches(op, width, data, val, 32 * dw + j));
        }
    }
}

/// The 32 elements of a word gathered from `data` into `s`, 2-bit elements.
proof fn lemma_gathered_u2(op: u8, val: u64, s: Seq<u64>, data: Seq<u64>, i: int, k: int, soff: int, dw: int)
    requires
        s.len() == 8,
        0 <= k < 8,
        0 <= i,
        i + 32 * k < data.len(),
        soff == 32 * k,
        dw == i + 32 * k,
        s[k] == data[i + 32 * k],
    ensures
        forall|j: int|
            0 <= j < 32 ==> #[trigger] elem_matches(op, 2, s, val, soff + j) == elem_matches(
                op,
                2,
                data,
                val,
                32 * dw + j,
            ),
{
    assert forall|j: int| 0 <= j < 32 implies #[trigger] elem_matches(op, 2, s, val, soff + j)
        == elem_matches(op, 2, data, val, 32 * dw + j) by {
        lemma_elem_moved(op, 2, val, s, data, k, i + 32 * k, j);
    }
}

/// The 32 elements of a word gathered from `data` into `s`, 4-bit elements.
proof fn lemma_gathered_u4(op: u8, val: u64, s: Seq<u64>, data: Seq<u64>, i: int, k: int, soff: int, dw: int)
    requires
        soff == 32 * k,
        s.len() == 8,
        0 <= k < 4,
        0 <= i,
        i % 2 == 0,
        i + 64 * k + 1 < data.len(),
        dw == i / 2 + 32 * k,
        s[2 * k] == data[i + 64 * k],
        s[2 * k + 1] == data[i + 64 * k + 1],
    ensures
        forall|j: int|
            0 <= j < 32 ==> #[trigger] elem_matches(op, 4, s, val, soff + j) == elem_matches(
                op,
                4,
                data,
                val,
                32 * dw + j,
            ),
{
    assert forall|j: int| 0 <= j < 32 implies #[trigger] elem_matches(op, 4, s, val, soff + j)
        == elem_matches(op, 4, data, val, 32 * dw + j) by {
        lemma_elem_moved(op, 4, val, s, data, 2 * k + j / 16, i + 64 * k + j / 16, j % 16);
        assert(16 * (2 * k + j / 16) + j % 16 == 32 * k + j);
        assert(16 * (i + 64 * k + j / 16) + j % 16 == 32 * dw + j);
    }
}

/// The 32 elements of a word gathered from `data` into `s`, 8-bit elements.
proof fn lemma_gathered_u8(op: u8, val: u64, s: Seq<u64>, data: Seq<u64>, i: int, k: int, soff: int, dw: int)
    requires
        soff == 32 * k,
        s.len() == 8,
        0 <= k < 2,
        0 <= i,
        i % 4 == 0,
        i + 128 * k + 3 < data.len(),
        dw == i / 4 + 32 * k,
        s[4 * k] == data[i + 128 * k],
        s[4 * k + 1] == data[i + 128 * k + 1],
        s[4 * k + 2] == data[i + 128 * k + 2],
        s[4 * k + 3] == data[i + 128 * k + 3],
    ensures
        forall|j: int|
            0 <= j < 32 ==> #[trigger] elem_matches(op, 8, s, val, soff + j) == elem_matches(
                op,
                8,
                data,
                val,
                32 * dw + j,
            ),
{
    assert forall|j: int| 0 <= j < 32 implies #[trigger] elem_matches(op, 8, s, val, soff + j)
        == elem_matches(op, 8, data, val, 32 * dw + j) by {
        lemma_elem_moved(op, 8, val, s, data, 4 * k + j / 8, i + 128 * k + j / 8, j % 8);
        assert(8 * (4 * k + j / 8) + j % 8 == 32 * k + j);
        assert(8 * (i + 128 * k + j / 8) + j % 8 == 32 * dw + j);
    }
}

/// Stores one half of a 64-bit mask computed over gathered words into the
/// word of `data`'s elements that it covers.
proof fn lemma_store_half(
    set: u8,
    op: u8,
    width: u64,
    val: u64,
    s: Seq<u64>,
    data: Seq<u64>,
    v: u64,
    hi: bool,
    sfirst: int,
    shalf: int,
    dw: int,
    old_w: u32,
)
    requires
        shalf == sfirst + if hi { 32int } else { 0int },
        forall|j: u64| j < 64 ==> #[trigger] bit64(v, j) == elem_matches(op, width, s, val, sfirst + j),
        forall|j: int|
            0 <= j < 32 ==> #[trigger] elem_matches(op, width, s, val, shalf + j) == elem_matches(
                op,
                width,
                data,
                val,
                32 * dw + j,
            ),
    ensures
        word_loaded(
            set,
            op,
            width,
            data,
            val,
            old_w,
            set_word(set, old_w, if hi { (v >> 32u64) as u32 } else { v as u32 }),
            dw,
        ),
{
    let h = if hi {
        (v >> 32u64) as u32
    } else {
        v as u32
    };
    lemma_half_moved(op, width, val, s, data, v, hi, h, sfirst, shalf, dw);
    lemma_store_u32(set, op, width, data, val, old_w, h, dw);
}

proof fn lemma_loaded_same(
    old: Seq<u32>,
    new: Seq<u32>,
    set: u8,
    op: u8,
    width: u64,
    data: Seq<u64>,
    val: u64,
    t1: spec_fn(int) -> bool,
    t2: spec_fn(int) -> bool,
)
    requires
        loaded(old, new, set, op, width, data, val, t1),
        forall|w: int| 0 <= w < old.len() ==> #[trigger] t1(w) == t2(w),
    ensures
        loaded(old, new, set, op, width, data, val, t2),
{
    assert forall|w: int| 0 <= w < old.len() implies if t2(w) {
        word_loaded(set, op, width, data, val, old[w], #[trigger] new[w], w)
    } else {
        new[w] == old[w]
    } by {
        assert(t1(w) == t2(w));
    }
}

proof fn lemma_loaded_nothing(
    old: Seq<u32>,
    set: u8,
    op: u8,
    width: u64,
    data: Seq<u64>,
    val: u64,
    t: spec_fn(int) -> bool,
)
    requires
        forall|w: int| 0 <= w < old.len() ==> !#[trigger] t(w),
    ensures
        loaded(old, old, set, op, width, data, val, t),
{
}

impl Bitfield {
    /// A bitfield whose every word is `val`.
    pub fn new(val: u32) -> (r: Self)
        ensures
            r@ == Seq::new(1024, |_i: int| val),
    {
        let r = Bitfield { data: [val; 1024] };
        assert(r@ =~= Seq::new(1024, |_i: int| val));
        r
    }

    /// Sets every word to `val`.
    pub fn fill(&mut self, val: u32)
        ensures
            final(self)@ == Seq::new(1024, |_i: int| val),
    {
        let mut i: usize = 0;
        while i < 1024
            invariant
                0 <= i <= 1024,
                self@.len() == 1024,
                forall|j: int| 0 <= j < i ==> self@[j] == val,
            decreases 1024 - i,
        {
            self.data[i] = val;
            i += 1;
        }
        assert(self@ =~= Seq::new(1024, |_i: int| val));
    }

    fn set_u32<const SET: u8>(&mut self, index: usize, value: u32)
        requires
            SET < 4,
            index < 1024,
        ensures
            final(self)@ == old(self)@.update(index as int, set_word(SET, old(self)@[index as int], value)),
    {
        apply_set::<SET>(&mut self.data[index], value);
    }

    fn set_u64<const SET: u8>(&mut self, index: usize, value: u64)
        requires
            SET < 4,
            index < 512,
        ensures
            final(self)@ == old(self)@.update(
                2 * index as int,
                set_word(SET, old(self)@[2 * index as int], value as u32),
            ).update(
                2 * index + 1,
                set_word(SET, old(self)@[2 * index + 1], (value >> 32u64) as u32),
            ),
    {
        apply_set::<SET>(&mut self.data[2 * index], value as u32);
        apply_set::<SET>(&mut self.data[2 * index + 1], (value >> 32) as u32);
    }

    #[verifier::spinoff_prover]
    fn load_packed_u2_inner<const SET: u8>(
        &mut self,
        data: &[u64; 1024],
        op: u8,
        match_val: u8,
        start: usize,
        end: usize,
    )
        requires
            SET < 4,
            op < 4,
            match_val < 4,
            start % 8 == 0,
            end % 8 == 0,
            start <= end <= 1024,
        ensures
            loaded(
                old(self)@,
                final(self)@,
                SET,
                op,
                2,
                data@,
                match_val as u64,
                |w: int| start <= w < end,
            ),
    {
        let ghost old_view = self@;
        let mut i = start;
        while i < end
            invariant
                SET < 4,
                op < 4,
                match_val < 4,
                start <= i <= end <= 1024,
                i % 8 == 0,
                end % 8 == 0,
                old_view.len() == 1024,
                loaded(
                    old_view,
                    self@,
                    SET,
                    op,
                    2,
                    data@,
                    match_val as u64,
                    |w: int| start <= w < i,
                ),
            decreases end - i,
        {
            let ghost prev = self@;
            let (a, b, c, d) = process_packed_u2(data, i, op, match_val);
            let b_idx = i / 2;
            self.set_u64::<SET>(b_idx, a);
            self.set_u64::<SET>(b_idx + 1, b);
            self.set_u64::<SET>(b_idx + 2, c);
            self.set_u64::<SET>(b_idx + 3, d);
            proof {
                let i = i as int;
                lemma_store_u64(SET, op, 2, data@, match_val as u64, prev[i], prev[i + 1], a, i);
                lemma_store_u64(
                    SET,
                    op,
                    2,
                    data@,
                    match_val as u64,
                    prev[i + 2],
                    prev[i + 3],
                    b,
                    i + 2,
                );
                lemma_store_u64(
                    SET,
                    op,
                    2,
                    data@,
                    match_val as u64,
                    prev[i + 4],
                    prev[i + 5],
                    c,
                    i + 4,
                );
                lemma_store_u64(
                    SET,
                    op,
                    2,
                    data@,
                    match_val as u64,
                    prev[i + 6],
                    prev[i + 7],
                    d,
                    i + 6,
                );
                assert forall|w: int| 0 <= w < 1024 implies if start <= w < i + 8 {
                    word_loaded(
                        SET,
                        op,
                        2,
                        data@,
                        match_val as u64,
                        old_view[w],
                        #[trigger] self@[w],
                        w,
                    )
                } else {
                    self@[w] == old_view[w]
                } by {
                    if w < i || w >= i + 8 {
                        assert(self@[w] == prev[w]);
                    } else {
                        assert(prev[w] == old_view[w]);
                    }
                }
            }
            i += 8;
        }
    }
}


impl Bitfield {
    #[verifier::spinoff_prover]
    fn load_packed_u1_inner<const SET: u8>(
        &mut self,
        data: &[u64; 512],
        op: u8,
        match_val: bool,
        start: usize,
        stride: usize,
        end: usize,
    )
        requires
            SET < 4,
            op < 4,
            stride == 1 || stride == 32,
            start <= end <= 1024,
        ensures
            loaded(
                old(self)@,
                final(self)@,
                SET,
                op,
                1,
                data@,
                if match_val { 1u64 } else { 0u64 },
                |w: int| strided(start as int, stride as int, end as int, w),
            ),
    {
        let ghost old_view = self@;
        let ghost val: u64 = if match_val { 1u64 } else { 0u64 };
        let mut i = start;
        while i < end
            invariant
                SET < 4,
                op < 4,
                stride == 1 || stride == 32,
                start <= i < end + stride,
                end <= 1024,
                old_view.len() == 1024,
                (i - start) % (stride as int) == 0,
                val == if match_val { 1u64 } else { 0u64 },
                loaded(
                    old_view,
                    self@,
                    SET,
                    op,
                    1,
                    data@,
                    val,
                    |w: int| strided(start as int, stride as int, i as int, w),
                ),
            decreases end + stride - i,
        {
            let ghost prev = self@;
            let word = data[i / 2];
            let half: u32 = if i % 2 == 0 {
                #[verifier::truncate] (word as u32)
            } else {
                #[verifier::truncate] ((word >> 32) as u32)
            };
            let bits = process_packed_u1(&half, op, match_val);
            self.set_u32::<SET>(i, bits);
            proof {
                assert forall|j: u32| j < 32 implies #[trigger] bit32(bits, j) == elem_matches(
                    op,
                    1,
                    data@,
                    val,
                    32 * i + j,
                ) by {
                    let s = (32 * (i % 2) + j) as u64;
                    if i % 2 == 0 {
                        lemma_bit64_low_half(word, j);
                    } else {
                        lemma_bit64_high_half(word, j);
                    }
                    lemma_bit64_and_le(word >> s, 1);
                    assert((32 * i + j) / 64 == i / 2);
                    assert((32 * i + j) % 64 == 32 * (i % 2) + j);
                    assert(packed_field(data@, 1, 32 * i + j) == (word >> s) & 1);
                }
                lemma_store_u32(SET, op, 1, data@, val, prev[i as int], bits, i as int);
                assert forall|w: int| 0 <= w < 1024 implies if strided(start as int, stride as int, i + stride, w) {
                    word_loaded(SET, op, 1, data@, val, old_view[w], #[trigger] self@[w], w)
                } else {
                    self@[w] == old_view[w]
                } by {
                    if w != i {
                        assert(self@[w] == prev[w]);
                    } else {
                        assert(prev[w] == old_view[w]);
                    }
                }
            }
            i += stride;
        }
        proof {
            assert forall|w: int| 0 <= w < 1024 implies #[trigger] strided(start as int, stride as int, i as int, w) == strided(start as int, stride as int, end as int, w) by {
                if end <= w < i && (w - start) % (stride as int) == 0 {
                    assert(false) by (nonlinear_arith)
                        requires
                            end <= w < i,
                            i < end + stride,
                            stride > 0,
                            (w - start) % (stride as int) == 0,
                            (i - start) % (stride as int) == 0,
                            w >= start,
                    ;
                }
            }
            lemma_loaded_same(
                old_view,
                self@,
                SET,
                op,
                1,
                data@,
                val,
                |w: int| strided(start as int, stride as int, i as int, w),
                |w: int| strided(start as int, stride as int, end as int, w),
            );
        }
    }

    #[verifier::spinoff_prover]
    fn load_packed_u4_inner<const SET: u8>(
        &mut self,
        data: &[u64; 2048],
        op: u8,
        value: u8,
        start: usize,
        end: usize,
    )
        requires
            SET < 4,
            op < 4,
            start % 8 == 0,
            end % 8 == 0,
            start <= end <= 2048,
        ensures
            loaded(
                old(self)@,
                final(self)@,
                SET,
                op,
                4,
                data@,
                value as u64,
                |w: int| start / 2 <= w < end / 2,
            ),
    {
        let ghost old_view = self@;
        let mut i = start;
        while i < end
            invariant
                SET < 4,
                op < 4,
                start <= i <= end <= 2048,
                i % 8 == 0,
                end % 8 == 0,
                start % 8 == 0,
                old_view.len() == 1024,
                loaded(
                    old_view,
                    self@,
                    SET,
                    op,
                    4,
                    data@,
                    value as u64,
                    |w: int| start / 2 <= w < i / 2,
                ),
            decreases end - i,
        {
            let ghost prev = self@;
            let (a, b) = process_packed_u4(data, i, op, value);
            let b_idx = i / 4;
            self.set_u64::<SET>(b_idx, a);
            self.set_u64::<SET>(b_idx + 1, b);
            proof {
                let h = i as int / 2;
                lemma_store_u64(SET, op, 4, data@, value as u64, prev[h], prev[h + 1], a, h);
                lemma_store_u64(
                    SET,
                    op,
                    4,
                    data@,
                    value as u64,
                    prev[h + 2],
                    prev[h + 3],
                    b,
                    h + 2,
                );
                assert forall|w: int| 0 <= w < 1024 implies if start / 2 <= w < (i + 8) / 2 {
                    word_loaded(
                        SET,
                        op,
                        4,
                        data@,
                        value as u64,
                        old_view[w],
                        #[trigger] self@[w],
                        w,
                    )
                } else {
                    self@[w] == old_view[w]
                } by {
                    if w < h || w >= h + 4 {
                        assert(self@[w] == prev[w]);
                    } else {
                        assert(prev[w] == old_view[w]);
                    }
                }
            }
            i += 8;
        }
    }

    #[verifier::spinoff_prover]
    fn load_packed_u8_inner<const SET: u8>(
        &mut self,
        data: &[u64; 4096],
        op: u8,
        value: u8,
        start: usize,
        end: usize,
    )
        requires
            SET < 4,
            op < 4,
            start % 8 == 0,
            end % 8 == 0,
            start <= end <= 4096,
        ensures
            loaded(
                old(self)@,
                final(self)@,
                SET,
                op,
                8,
                data@,
                value as u64,
                |w: int| start / 4 <= w < end / 4,
            ),
    {
        let ghost old_view = self@;
        let mut i = start;
        while i < end
            invariant
                SET < 4,
                op < 4,
                start <= i <= end <= 4096,
                i % 8 == 0,
                end % 8 == 0,
                start % 8 == 0,
                old_view.len() == 1024,
                loaded(
                    old_view,
                    self@,
                    SET,
                    op,
                    8,
                    data@,
                    value as u64,
                    |w: int| start / 4 <= w < i / 4,
                ),
            decreases end - i,
        {
            let ghost prev = self@;
            let bits = process_packed_u8(data, i, op, value);
            self.set_u64::<SET>(i / 8, bits);
            proof {
                let h = i as int / 4;
                lemma_store_u64(SET, op, 8, data@, value as u64, prev[h], prev[h + 1], bits, h);
                assert forall|w: int| 0 <= w < 1024 implies if start / 4 <= w < (i + 8) / 4 {
                    word_loaded(
                        SET,
                        op,
                        8,
                        data@,
                        value as u64,
                        old_view[w],
                        #[trigger] self@[w],
                        w,
                    )
                } else {
                    self@[w] == old_view[w]
                } by {
                    if w < h || w >= h + 2 {
                        assert(self@[w] == prev[w]);
                    } else {
                        assert(prev[w] == old_view[w]);
                    }
                }
            }
            i += 8;
        }
    }

    #[verifier::spinoff_prover]
    fn load_packed_u16_inner<const SET: u8>(
        &mut self,
        data: &[u64; 8192],
        op: u8,
        value: u16,
        start: usize,
        stride: usize,
        end: usize,
    )
        requires
            SET < 4,
            op < 4,
            stride == 8 || stride == 256,
            start % 8 == 0,
            start <= end <= 8192,
        ensures
            loaded(
                old(self)@,
                final(self)@,
                SET,
                op,
                16,
                data@,
                value as u64,
                |w: int| strided(start as int, stride as int, end as int, 8 * w),
            ),
    {
        let ghost old_view = self@;
        let mut i = start;
        while i < end
            invariant
                SET < 4,
                op < 4,
                stride == 8 || stride == 256,
                start <= i < end + stride,
                end <= 8192,
                i % 8 == 0,
                (i - start) % (stride as int) == 0,
                old_view.len() == 1024,
                loaded(
                    old_view,
                    self@,
                    SET,
                    op,
                    16,
                    data@,
                    value as u64,
                    |w: int| strided(start as int, stride as int, i as int, 8 * w),
                ),
            decreases end + stride - i,
        {
            let ghost prev = self@;
            let bits = process_packed_u16(data, i, op, value);
            self.set_u32::<SET>(i / 8, bits);
            proof {
                let h = i as int / 8;
                lemma_store_u32(SET, op, 16, data@, value as u64, prev[h], bits, h);
                assert forall|w: int| 0 <= w < 1024 implies if strided(start as int, stride as int, i + stride, 8 * w) {
                    word_loaded(
                        SET,
                        op,
                        16,
                        data@,
                        value as u64,
                        old_view[w],
                        #[trigger] self@[w],
                        w,
                    )
                } else {
                    self@[w] == old_view[w]
                } by {
                    if w != h {
                        assert(self@[w] == prev[w]);
                    } else {
                        assert(prev[w] == old_view[w]);
                    }
                }
            }
            i += stride;
        }
        proof {
            assert forall|w: int| 0 <= w < 1024 implies #[trigger] strided(start as int, stride as int, i as int, 8 * w) == strided(start as int, stride as int, end as int, 8 * w) by {
                if end <= 8 * w < i && (8 * w - start) % (stride as int) == 0 {
                    assert(false) by (nonlinear_arith)
                        requires
                            end <= 8 * w < i,
                            i < end + stride,
                            stride > 0,
                            (8 * w - start) % (stride as int) == 0,
                            (i - start) % (stride as int) == 0,
                            8 * w >= start,
                    ;
                }
            }
            lemma_loaded_same(
                old_view,
                self@,
                SET,
                op,
                16,
                data@,
                value as u64,
                |w: int| strided(start as int, stride as int, i as int, 8 * w),
                |w: int| strided(start as int, stride as int, end as int, 8 * w),
            );
        }
    }

    #[verifier::spinoff_prover]
    #[verifier::rlimit(40)]
    fn load_xz_packed_u2_inner<const SET: u8>(
        &mut self,
        data: &[u64; 1024],
        op: u8,
        match_val: u8,
        y_slice: usize,
    )
        requires
            SET < 4,
            op < 4,
            match_val < 4,
            y_slice >= 1024 || y_slice % 256 < 32,
        ensures
            loaded(
                old(self)@,
                final(self)@,
                SET,
                op,
                2,
                data@,
                match_val as u64,
                |w: int| xz_word(y_slice as int, w),
            ),
    {
        let ghost old_view = self@;
        if y_slice >= 1024 {
            proof {
                lemma_loaded_nothing(
                    old_view,
                    SET,
                    op,
                    2,
                    data@,
                    match_val as u64,
                    |w: int| xz_word(y_slice as int, w),
                );
            }
            return;
        }
        let mut i = y_slice;
        while i < 1024
            invariant
                SET < 4,
                op < 4,
                match_val < 4,
                y_slice < 1024,
                y_slice % 256 < 32,
                y_slice <= i < 1024 + 256,
                i % 256 == y_slice % 256,
                old_view.len() == 1024,
                loaded(
                    old_view,
                    self@,
                    SET,
                    op,
                    2,
                    data@,
                    match_val as u64,
                    |w: int| xz_word(y_slice as int, w) && w < i,
                ),
            decreases 1024 + 256 - i,
        {
            let ghost prev = self@;
            let slice: [u64; 8] = [
                data[i], data[i + 32], data[i + 64], data[i + 96],
                data[i + 128], data[i + 160], data[i + 192], data[i + 224],
            ];
            let (a, b, c, d) = process_packed_u2(&slice, 0, op, match_val);
            self.set_u32::<SET>(i + 0, #[verifier::truncate] (a as u32));
            self.set_u32::<SET>(i + 32, #[verifier::truncate] ((a >> 32) as u32));
            self.set_u32::<SET>(i + 64, #[verifier::truncate] (b as u32));
            self.set_u32::<SET>(i + 96, #[verifier::truncate] ((b >> 32) as u32));
            self.set_u32::<SET>(i + 128, #[verifier::truncate] (c as u32));
            self.set_u32::<SET>(i + 160, #[verifier::truncate] ((c >> 32) as u32));
            self.set_u32::<SET>(i + 192, #[verifier::truncate] (d as u32));
            self.set_u32::<SET>(i + 224, #[verifier::truncate] ((d >> 32) as u32));
            proof {
                let i = i as int;
                lemma_gathered_u2(op, match_val as u64, slice@, data@, i, 0, 0, i + 0);
                lemma_store_half(
                    SET,
                    op,
                    2,
                    match_val as u64,
                    slice@,
                    data@,
                    a,
                    false,
                    0,
                    0,
                    i + 0,
                    prev[i + 0],
                );
                lemma_gathered_u2(op, match_val as u64, slice@, data@, i, 1, 32, i + 32);
                lemma_store_half(
                    SET,
                    op,
                    2,
                    match_val as u64,
                    slice@,
                    data@,
                    a,
                    true,
                    0,
                    32,
                    i + 32,
                    prev[i + 32],
                );
                lemma_gathered_u2(op, match_val as u64, slice@, data@, i, 2, 64, i + 64);
                lemma_store_half(
                    SET,
                    op,
                    2,
                    match_val as u64,
                    slice@,
                    data@,
                    b,
                    false,
                    64,
                    64,
                    i + 64,
                    prev[i + 64],
                );
                lemma_gathered_u2(op, match_val as u64, slice@, data@, i, 3, 96, i + 96);
                lemma_store_half(
                    SET,
                    op,
                    2,
                    match_val as u64,
                    slice@,
                    data@,
                    b,
                    true,
                    64,
                    96,
                    i + 96,
                    prev[i + 96],
                );
                lemma_gathered_u2(op, match_val as u64, slice@, data@, i, 4, 128, i + 128);
                lemma_store_half(
                    SET,
                    op,
                    2,
                    match_val as u64,
                    slice@,
                    data@,
                    c,
                    false,
                    128,
                    128,
                    i + 128,
                    prev[i + 128],
                );
                lemma_gathered_u2(op, match_val as u64, slice@, data@, i, 5, 160, i + 160);
                lemma_store_half(
                    SET,
                    op,
                    2,
                    match_val as u64,
                    slice@,
                    data@,
                    c,
                    true,
                    128,
                    160,
                    i + 160,
                    prev[i + 160],
                );
                lemma_gathered_u2(op, match_val as u64, slice@, data@, i, 6, 192, i + 192);
                lemma_store_half(
                    SET,
                    op,
                    2,
                    match_val as u64,
                    slice@,
                    data@,
                    d,
                    false,
                    192,
                    192,
                    i + 192,
                    prev[i + 192],
                );
                lemma_gathered_u2(op, match_val as u64, slice@, data@, i, 7, 224, i + 224);
                lemma_store_half(
                    SET,
                    op,
                    2,
                    match_val as u64,
                    slice@,
                    data@,
                    d,
                    true,
                    192,
                    224,
                    i + 224,
                    prev[i + 224],
                );
                assert forall|w: int| 0 <= w < 1024 implies if xz_word(y_slice as int, w) && w < i + 256 {
                    word_loaded(
                        SET,
                        op,
                        2,
                        data@,
                        match_val as u64,
                        old_view[w],
                        #[trigger] self@[w],
                        w,
                    )
                } else {
                    self@[w] == old_view[w]
                } by {
                    if w < i || w >= i + 256 || w % 32 != i % 32 {
                        assert(self@[w] == prev[w]);
                    } else {
                        assert(prev[w] == old_view[w]);
                    }
                }
            }
            i += 256;
        }
        proof {
            lemma_loaded_same(
                old_view,
                self@,
                SET,
                op,
                2,
                data@,
                match_val as u64,
                |w: int| xz_word(y_slice as int, w) && w < i,
                |w: int| xz_word(y_slice as int, w),
            );
        }
    }

    #[verifier::spinoff_prover]
    #[verifier::rlimit(40)]
    fn load_xz_packed_u4_inner<const SET: u8>(
        &mut self,
        data: &[u64; 2048],
        op: u8,
        value: u8,
        y_slice: usize,
    )
        requires
            SET < 4,
            op < 4,
            y_slice >= 1024 || y_slice % 128 < 32,
        ensures
            loaded(
                old(self)@,
                final(self)@,
                SET,
                op,
                4,
                data@,
                value as u64,
                |w: int| xz_word(y_slice as int, w),
            ),
    {
        let ghost old_view = self@;
        if y_slice >= 1024 {
            proof {
                lemma_loaded_nothing(
                    old_view,
                    SET,
                    op,
                    4,
                    data@,
                    value as u64,
                    |w: int| xz_word(y_slice as int, w),
                );
            }
            return;
        }
        let mut i = y_slice * 2;
        while i < 2048
            invariant
                SET < 4,
                op < 4,
                y_slice < 1024,
                y_slice % 128 < 32,
                2 * y_slice <= i < 2048 + 256,
                i % 256 == (2 * y_slice) % 256,
                old_view.len() == 1024,
                loaded(
                    old_view,
                    self@,
                    SET,
                    op,
                    4,
                    data@,
                    value as u64,
                    |w: int| xz_word(y_slice as int, w) && 2 * w < i,
                ),
            decreases 2048 + 256 - i,
        {
            let ghost prev = self@;
            assert(i + 193 < 2048 && i % 2 == 0 && (i / 2) % 32 == y_slice % 32) by (nonlinear_arith)
                requires
                    i % 256 == (2 * y_slice) % 256,
                    y_slice % 128 < 32,
                    i < 2048,
            ;
            let slice: [u64; 8] = [
                data[i], data[i + 1], data[i + 64], data[i + 65],
                data[i + 128], data[i + 129], data[i + 192], data[i + 193],
            ];
            let (a, b) = process_packed_u4(&slice, 0, op, value);
            let idx = i / 2;
            self.set_u32::<SET>(idx + 0, #[verifier::truncate] (a as u32));
            self.set_u32::<SET>(idx + 32, #[verifier::truncate] ((a >> 32) as u32));
            self.set_u32::<SET>(idx + 64, #[verifier::truncate] (b as u32));
            self.set_u32::<SET>(idx + 96, #[verifier::truncate] ((b >> 32) as u32));
            proof {
                let i = i as int;
                let idx = idx as int;
                lemma_gathered_u4(op, value as u64, slice@, data@, i, 0, 0, idx + 0);
                lemma_store_half(
                    SET,
                    op,
                    4,
                    value as u64,
                    slice@,
                    data@,
                    a,
                    false,
                    0,
                    0,
                    idx + 0,
                    prev[idx + 0],
                );
                lemma_gathered_u4(op, value as u64, slice@, data@, i, 1, 32, idx + 32);
                lemma_store_half(
                    SET,
                    op,
                    4,
                    value as u64,
                    slice@,
                    data@,
                    a,
                    true,
                    0,
                    32,
                    idx + 32,
                    prev[idx + 32],
                );
                lemma_gathered_u4(op, value as u64, slice@, data@, i, 2, 64, idx + 64);
                lemma_store_half(
                    SET,
                    op,
                    4,
                    value as u64,
                    slice@,
                    data@,
                    b,
                    false,
                    64,
                    64,
                    idx + 64,
                    prev[idx + 64],
                );
                lemma_gathered_u4(op, value as u64, slice@, data@, i, 3, 96, idx + 96);
                lemma_store_half(
                    SET,
                    op,
                    4,
                    value as u64,
                    slice@,
                    data@,
                    b,
                    true,
                    64,
                    96,
                    idx + 96,
                    prev[idx + 96],
                );
                assert forall|w: int| 0 <= w < 1024 implies if xz_word(y_slice as int, w) && 2 * w < i + 256 {
                    word_loaded(
                        SET,
                        op,
                        4,
                        data@,
                        value as u64,
                        old_view[w],
                        #[trigger] self@[w],
                        w,
                    )
                } else {
                    self@[w] == old_view[w]
                } by {
                    if w == idx || w == idx + 32 || w == idx + 64 || w == idx + 96 {
                        assert(prev[w] == old_view[w]);
                    } else {
                        assert(self@[w] == prev[w]);
                    }
                }
            }
            i += 256;
        }
        proof {
            lemma_loaded_same(
                old_view,
                self@,
                SET,
                op,
                4,
                data@,
                value as u64,
                |w: int| xz_word(y_slice as int, w) && 2 * w < i,
                |w: int| xz_word(y_slice as int, w),
            );
        }
    }

    #[verifier::spinoff_prover]
    #[verifier::rlimit(40)]
    fn load_xz_packed_u8_inner<const SET: u8>(
        &mut self,
        data: &[u64; 4096],
        op: u8,
        value: u8,
        y_slice: usize,
    )
        requires
            SET < 4,
            op < 4,
            y_slice >= 1024 || y_slice % 64 < 32,
        ensures
            loaded(
                old(self)@,
                final(self)@,
                SET,
                op,
                8,
                data@,
                value as u64,
                |w: int| xz_word(y_slice as int, w),
            ),
    {
        let ghost old_view = self@;
        if y_slice >= 1024 {
            proof {
                lemma_loaded_nothing(
                    old_view,
                    SET,
                    op,
                    8,
                    data@,
                    value as u64,
                    |w: int| xz_word(y_slice as int, w),
                );
            }
            return;
        }
        let mut i = y_slice * 4;
        while i < 4096
            invariant
                SET < 4,
                op < 4,
                y_slice < 1024,
                y_slice % 64 < 32,
                4 * y_slice <= i < 4096 + 256,
                i % 256 == (4 * y_slice) % 256,
                old_view.len() == 1024,
                loaded(
                    old_view,
                    self@,
                    SET,
                    op,
                    8,
                    data@,
                    value as u64,
                    |w: int| xz_word(y_slice as int, w) && 4 * w < i,
                ),
            decreases 4096 + 256 - i,
        {
            let ghost prev = self@;
            assert(i + 131 < 4096 && i % 4 == 0 && (i / 4) % 32 == y_slice % 32) by (nonlinear_arith)
                requires
                    i % 256 == (4 * y_slice) % 256,
                    y_slice % 64 < 32,
                    i < 4096,
            ;
            let slice: [u64; 8] = [
                data[i], data[i + 1], data[i + 2], data[i + 3],
                data[i + 128], data[i + 129], data[i + 130], data[i + 131],
            ];
            let bits = process_packed_u8(&slice, 0, op, value);
            let b_idx = i / 4;
            self.set_u32::<SET>(b_idx + 0, #[verifier::truncate] (bits as u32));
            self.set_u32::<SET>(b_idx + 32, #[verifier::truncate] ((bits >> 32) as u32));
            proof {
                let i = i as int;
                let b_idx = b_idx as int;
                lemma_gathered_u8(op, value as u64, slice@, data@, i, 0, 0, b_idx + 0);
                lemma_store_half(
                    SET,
                    op,
                    8,
                    value as u64,
                    slice@,
                    data@,
                    bits,
                    false,
                    0,
                    0,
                    b_idx + 0,
                    prev[b_idx + 0],
                );
                lemma_gathered_u8(op, value as u64, slice@, data@, i, 1, 32, b_idx + 32);
                lemma_store_half(
                    SET,
                    op,
                    8,
                    value as u64,
                    slice@,
                    data@,
                    bits,
                    true,
                    0,
                    32,
                    b_idx + 32,
                    prev[b_idx + 32],
                );
                assert forall|w: int| 0 <= w < 1024 implies if xz_word(y_slice as int, w) && 4 * w < i + 256 {
                    word_loaded(
                        SET,
                        op,
                        8,
                        data@,
                        value as u64,
                        old_view[w],
                        #[trigger] self@[w],
                        w,
                    )
                } else {
                    self@[w] == old_view[w]
                } by {
                    if w == b_idx || w == b_idx + 32 {
                        assert(prev[w] == old_view[w]);
                    } else {
                        assert(self@[w] == prev[w]);
                    }
                }
            }
            i += 256;
        }
        proof {
            lemma_loaded_same(
                old_view,
                self@,
                SET,
                op,
                8,
                data@,
                value as u64,
                |w: int| xz_word(y_slice as int, w) && 4 * w < i,
                |w: int| xz_word(y_slice as int, w),
            );
        }
    }
}


impl Bitfield {
    /// `self & !rhs`, word by word.
    pub fn andnot(&self, rhs: &Self) -> (r: Self)
        ensures
            r@ == words_andnot(self@, rhs@),
    {
        let mut new_bitfield = *self;
        let mut i: usize = 0;
        while i < 1024
            invariant
                0 <= i <= 1024,
                new_bitfield@.len() == 1024,
                self@.len() == 1024,
                rhs@.len() == 1024,
                forall|j: int| 0 <= j < i ==> new_bitfield@[j] == self@[j] & !rhs@[j],
                forall|j: int| i <= j < 1024 ==> new_bitfield@[j] == self@[j],
            decreases 1024 - i,
        {
            new_bitfield.data[i] = new_bitfield.data[i] & !rhs.data[i];
            i += 1;
        }
        assert(new_bitfield@ =~= words_andnot(self@, rhs@));
        new_bitfield
    }

    /// Clears in `self` every bit that is set in `rhs`.
    pub fn andnot_assign(&mut self, rhs: &Self) -> (r: &mut Self)
        ensures
            r@ == words_andnot(old(self)@, rhs@),
            final(self)@ == final(r)@,
    {
        let ghost old_view = self@;
        let mut i: usize = 0;
        while i < 1024
            invariant
                0 <= i <= 1024,
                self@.len() == 1024,
                old_view.len() == 1024,
                rhs@.len() == 1024,
                forall|j: int| 0 <= j < i ==> self@[j] == old_view[j] & !rhs@[j],
                forall|j: int| i <= j < 1024 ==> self@[j] == old_view[j],
            decreases 1024 - i,
        {
            self.data[i] = self.data[i] & !rhs.data[i];
            i += 1;
        }
        assert(self@ =~= words_andnot(old_view, rhs@));
        self
    }

    /// The words of the bitfield.
    pub fn to_array(self) -> (r: [u32; 1024])
        ensures
            r@ == self@,
    {
        self.data
    }

    /// The bitfield as 512 words of 64 bits; word `k` holds word `2 * k` in
    /// its low half and word `2 * k + 1` in its high half.
    pub fn to_array_64(self) -> (r: [u64; 512])
        ensures
            forall|k: int|
                0 <= k < 512 ==> #[trigger] r@[k] == (self@[2 * k] as u64) | ((self@[2 * k + 1] as u64) << 32u64),
    {
        let mut r = [0u64; 512];
        let mut k: usize = 0;
        while k < 512
            invariant
                0 <= k <= 512,
                r@.len() == 512,
                self@.len() == 1024,
                forall|j: int|
                    0 <= j < k ==> #[trigger] r@[j] == (self@[2 * j] as u64) | ((self@[2 * j + 1] as u64) << 32u64),
            decreases 512 - k,
        {
            r[k] = (self.data[2 * k] as u64) | ((self.data[2 * k + 1] as u64) << 32);
            k += 1;
        }
        r
    }

    /// The words of the bitfield, borrowed.
    pub fn as_array(&self) -> (r: &[u32; 1024])
        ensures
            r@ == self@,
    {
        &self.data
    }

    /// The words of the bitfield, borrowed as a slice.
    pub fn as_slice(&self) -> (r: &[u32])
        ensures
            r@ == self@,
    {
        self.data.as_slice()
    }

    /// The words of the bitfield, borrowed mutably as a slice.
    pub fn as_mut_slice(&mut self) -> (r: &mut [u32])
        ensures
            r@ == old(self)@,
            final(self)@ == final(r)@,
    {
        &mut self.data
    }

    /// Clears the upper bits of every run of set bits in a word, keeping its
    /// least significant bit.
    pub fn cull_most_sig_bits(&mut self) -> (r: &mut Self)
        ensures
            r@ == words_cull_msb(old(self)@),
            final(self)@ == final(r)@,
    {
        let ghost old_view = self@;
        let mut i: usize = 0;
        while i < 1024
            invariant
                0 <= i <= 1024,
                self@.len() == 1024,
                old_view.len() == 1024,
                forall|j: int| 0 <= j < i ==> self@[j] == old_view[j] & !(old_view[j] << 1u32),
                forall|j: int| i <= j < 1024 ==> self@[j] == old_view[j],
            decreases 1024 - i,
        {
            let block = self.data[i];
            self.data[i] = block & !(block << 1u32);
            i += 1;
        }
        assert(self@ =~= words_cull_msb(old_view));
        self
    }

    /// Clears the lower bits of every run of set bits in a word, keeping its
    /// most significant bit.
    pub fn cull_least_sig_bits(&mut self) -> (r: &mut Self)
        ensures
            r@ == words_cull_lsb(old(self)@),
            final(self)@ == final(r)@,
    {
        let ghost old_view = self@;
        let mut i: usize = 0;
        while i < 1024
            invariant
                0 <= i <= 1024,
                self@.len() == 1024,
                old_view.len() == 1024,
                forall|j: int| 0 <= j < i ==> self@[j] == old_view[j] & !(old_view[j] >> 1u32),
                forall|j: int| i <= j < 1024 ==> self@[j] == old_view[j],
            decreases 1024 - i,
        {
            let block = self.data[i];
            self.data[i] = block & !(block >> 1u32);
            i += 1;
        }
        assert(self@ =~= words_cull_lsb(old_view));
        self
    }
}

impl BitOrAssign for Bitfield {
    fn bitor_assign(&mut self, rhs: Self)
        ensures
            final(self)@ == words_or(old(self)@, rhs@),
    {
        let ghost old_view = self@;
        let mut i: usize = 0;
        while i < 1024
            invariant
                0 <= i <= 1024,
                self@.len() == 1024,
                old_view.len() == 1024,
                rhs@.len() == 1024,
                forall|j: int| 0 <= j < i ==> self@[j] == old_view[j] | rhs@[j],
                forall|j: int| i <= j < 1024 ==> self@[j] == old_view[j],
            decreases 1024 - i,
        {
            self.data[i] = self.data[i] | rhs.data[i];
            i += 1;
        }
        assert(self@ =~= words_or(old_view, rhs@));
    }
}

impl BitAndAssign for Bitfield {
    fn bitand_assign(&mut self, rhs: Self)
        ensures
            final(self)@ == words_and(old(self)@, rhs@),
    {
        let ghost old_view = self@;
        let mut i: usize = 0;
        while i < 1024
            invariant
                0 <= i <= 1024,
                self@.len() == 1024,
                old_view.len() == 1024,
                rhs@.len() == 1024,
                forall|j: int| 0 <= j < i ==> self@[j] == old_view[j] & rhs@[j],
                forall|j: int| i <= j < 1024 ==> self@[j] == old_view[j],
            decreases 1024 - i,
        {
            self.data[i] = self.data[i] & rhs.data[i];
            i += 1;
        }
        assert(self@ =~= words_and(old_view, rhs@));
    }
}

impl BitXorAssign for Bitfield {
    fn bitxor_assign(&mut self, rhs: Self)
        ensures
            final(self)@ == words_xor(old(self)@, rhs@),
    {
        let ghost old_view = self@;
        let mut i: usize = 0;
        while i < 1024
            invariant
                0 <= i <= 1024,
                self@.len() == 1024,
                old_view.len() == 1024,
                rhs@.len() == 1024,
                forall|j: int| 0 <= j < i ==> self@[j] == old_view[j] ^ rhs@[j],
                forall|j: int| i <= j < 1024 ==> self@[j] == old_view[j],
            decreases 1024 - i,
        {
            self.data[i] = self.data[i] ^ rhs.data[i];
            i += 1;
        }
        assert(self@ =~= words_xor(old_view, rhs@));
    }
}

impl ShlAssign<usize> for Bitfield {
    /// Shifts every word left by `rhs`; only the low five bits of `rhs`
    /// count, as with a release build of the shift.
    fn shl_assign(&mut self, rhs: usize)
        ensures
            final(self)@ == words_shl(old(self)@, (rhs % 32) as u32),
    {
        let ghost old_view = self@;
        let s: u32 = (rhs % 32) as u32;
        let mut i: usize = 0;
        while i < 1024
            invariant
                0 <= i <= 1024,
                s < 32,
                self@.len() == 1024,
                old_view.len() == 1024,
                forall|j: int| 0 <= j < i ==> self@[j] == old_view[j] << s,
                forall|j: int| i <= j < 1024 ==> self@[j] == old_view[j],
            decreases 1024 - i,
        {
            self.data[i] = self.data[i] << s;
            i += 1;
        }
        assert(self@ =~= words_shl(old_view, s));
    }
}

impl ShrAssign<usize> for Bitfield {
    /// Shifts every word right by `rhs`; only the low five bits of `rhs`
    /// count, as with a release build of the shift.
    fn shr_assign(&mut self, rhs: usize)
        ensures
            final(self)@ == words_shr(old(self)@, (rhs % 32) as u32),
    {
        let ghost old_view = self@;
        let s: u32 = (rhs % 32) as u32;
        let mut i: usize = 0;
        while i < 1024
            invariant
                0 <= i <= 1024,
                s < 32,
                self@.len() == 1024,
                old_view.len() == 1024,
                forall|j: int| 0 <= j < i ==> self@[j] == old_view[j] >> s,
                forall|j: int| i <= j < 1024 ==> self@[j] == old_view[j],
            decreases 1024 - i,
        {
            self.data[i] = self.data[i] >> s;
            i += 1;
        }
        assert(self@ =~= words_shr(old_view, s));
    }
}

impl vstd::std_specs::ops::ShlSpecImpl<usize> for Bitfield {
    open spec fn obeys_shl_spec() -> bool {
        false
    }

    open spec fn shl_req(self, rhs: usize) -> bool {
        true
    }

    open spec fn shl_spec(self, rhs: usize) -> Bitfield {
        self
    }
}

impl Shl<usize> for Bitfield {
    type Output = Self;

    /// A copy with every word shifted left by `rhs % 32`.
    fn shl(self, rhs: usize) -> (r: Self)
        ensures
            r@ == words_shl(self@, (rhs % 32) as u32),
    {
        let mut new_bitfield = self;
        new_bitfield.shl_assign(rhs);
        new_bitfield
    }
}

impl vstd::std_specs::ops::ShrSpecImpl<usize> for Bitfield {
    open spec fn obeys_shr_spec() -> bool {
        false
    }

    open spec fn shr_req(self, rhs: usize) -> bool {
        true
    }

    open spec fn shr_spec(self, rhs: usize) -> Bitfield {
        self
    }
}

impl Shr<usize> for Bitfield {
    type Output = Self;

    /// A copy with every word shifted right by `rhs % 32`.
    fn shr(self, rhs: usize) -> (r: Self)
        ensures
            r@ == words_shr(self@, (rhs % 32) as u32),
    {
        let mut new_bitfield = self;
        new_bitfield.shr_assign(rhs);
        new_bitfield
    }
}

impl vstd::std_specs::ops::BitOrSpecImpl for Bitfield {
    open spec fn obeys_bitor_spec() -> bool {
        false
    }

    open spec fn bitor_req(self, rhs: Bitfield) -> bool {
        true
    }

    open spec fn bitor_spec(self, rhs: Bitfield) -> Bitfield {
        self
    }
}

impl BitOr for Bitfield {
    type Output = Self;

    /// Merges `rhs` into a fresh zero bitfield; `self` takes no part, so the
    /// result is `rhs`.
    fn bitor(self, rhs: Self) -> (r: Self)
        ensures
            r@ == rhs@,
    {
        let mut result = Self::new(0);
        result.bitor_assign(rhs);
        proof {
            assert forall|i: int| 0 <= i < 1024 implies result@[i] == rhs@[i] by {
                lemma_u32_zero_merge(rhs@[i]);
            }
            assert(result@ =~= rhs@);
        }
        result
    }
}

impl vstd::std_specs::ops::BitAndSpecImpl for Bitfield {
    open spec fn obeys_bitand_spec() -> bool {
        false
    }

    open spec fn bitand_req(self, rhs: Bitfield) -> bool {
        true
    }

    open spec fn bitand_spec(self, rhs: Bitfield) -> Bitfield {
        self
    }
}

impl BitAnd for Bitfield {
    type Output = Self;

    /// Intersects a fresh zero bitfield with `rhs`; `self` takes no part, so
    /// the result has every word zero.
    fn bitand(self, rhs: Self) -> (r: Self)
        ensures
            r@ == words_zero(),
    {
        let mut result = Self::new(0);
        result.bitand_assign(rhs);
        proof {
            assert forall|i: int| 0 <= i < 1024 implies result@[i] == 0u32 by {
                lemma_u32_zero_merge(rhs@[i]);
            }
            assert(result@ =~= words_zero());
        }
        result
    }
}

impl vstd::std_specs::ops::BitXorSpecImpl for Bitfield {
    open spec fn obeys_bitxor_spec() -> bool {
        false
    }

    open spec fn bitxor_req(self, rhs: Bitfield) -> bool {
        true
    }

    open spec fn bitxor_spec(self, rhs: Bitfield) -> Bitfield {
        self
    }
}

impl BitXor for Bitfield {
    type Output = Self;

    /// Merges `rhs` by exclusive or into a fresh zero bitfield; `self` takes
    /// no part, so the result is `rhs`.
    fn bitxor(self, rhs: Self) -> (r: Self)
        ensures
            r@ == rhs@,
    {
        let mut result = Self::new(0);
        result.bitxor_assign(rhs);
        proof {
            assert forall|i: int| 0 <= i < 1024 implies result@[i] == rhs@[i] by {
                lemma_u32_zero_merge(rhs@[i]);
            }
            assert(result@ =~= rhs@);
        }
        result
    }
}


impl Bitfield {
    /// Loads 1-bit elements: bit `n` of the cube becomes the match of bit `n`
    /// of `data` against `match_val`, merged into the old bit as `SET` says.
    pub fn load_packed_u1_into<const SET: u8, const CMP: u8>(&mut self, data: &[u64; 512], match_val: bool)
        requires
            SET < 4,
            CMP < 4,
        ensures
            loaded(
                old(self)@,
                final(self)@,
                SET,
                CMP,
                1,
                data@,
                if match_val { 1u64 } else { 0u64 },
                |w: int| true,
            ),
    {
        let ghost old_view = self@;
        self.load_packed_u1_inner::<SET>(data, CMP, match_val, 0, 1, 1024);
        proof {
            let val = if match_val { 1u64 } else { 0u64 };
            assert forall|w: int| 0 <= w < 1024 implies #[trigger] strided(0, 1, 1024, w) == true by {}
            lemma_loaded_same(
                old_view,
                self@,
                SET,
                CMP,
                1,
                data@,
                val,
                |w: int| strided(0, 1, 1024, w),
                |w: int| true,
            );
        }
    }

    /// Loads the 1-bit elements of inner slice `x_slice` only; a slice past the
    /// last one loads nothing.
    pub fn load_yz_packed_u1_into<const SET: u8, const CMP: u8>(
        &mut self,
        data: &[u64; 512],
        x_slice: usize,
        match_val: bool,
    )
        requires
            SET < 4,
            CMP < 4,
            x_slice * 32 <= usize::MAX,
        ensures
            loaded(
                old(self)@,
                final(self)@,
                SET,
                CMP,
                1,
                data@,
                if match_val { 1u64 } else { 0u64 },
                |w: int| yz_word(x_slice as int, w),
            ),
    {
        let ghost old_view = self@;
        let ghost val = if match_val { 1u64 } else { 0u64 };
        if x_slice < 32 {
            self.load_packed_u1_inner::<SET>(
                data,
                CMP,
                match_val,
                x_slice * 32,
                1,
                x_slice * 32 + 32,
            );
            proof {
                assert forall|w: int| 0 <= w < 1024 implies #[trigger] strided(x_slice * 32, 1, x_slice * 32 + 32, w) == yz_word(x_slice as int, w) by {}
                lemma_loaded_same(
                    old_view,
                    self@,
                    SET,
                    CMP,
                    1,
                    data@,
                    val,
                    |w: int| strided(x_slice * 32, 1, x_slice * 32 + 32, w),
                    |w: int| yz_word(x_slice as int, w),
                );
            }
        } else {
            proof {
                lemma_loaded_nothing(
                    old_view,
                    SET,
                    CMP,
                    1,
                    data@,
                    val,
                    |w: int| yz_word(x_slice as int, w),
                );
            }
        }
    }

    /// Loads the 1-bit elements of the words `y_slice`, `y_slice + 32`, ...
    /// up to the last word.
    pub fn load_xz_packed_u1_into<const SET: u8, const CMP: u8>(
        &mut self,
        data: &[u64; 512],
        y_slice: usize,
        match_val: bool,
    )
        requires
            SET < 4,
            CMP < 4,
        ensures
            loaded(
                old(self)@,
                final(self)@,
                SET,
                CMP,
                1,
                data@,
                if match_val { 1u64 } else { 0u64 },
                |w: int| xz_word(y_slice as int, w),
            ),
    {
        let ghost old_view = self@;
        let ghost val = if match_val { 1u64 } else { 0u64 };
        if y_slice < 1024 {
            self.load_packed_u1_inner::<SET>(data, CMP, match_val, y_slice, 32, 1024);
            proof {
                assert forall|w: int| 0 <= w < 1024 implies #[trigger] strided(y_slice as int, 32, 1024, w) == xz_word(y_slice as int, w) by {}
                lemma_loaded_same(
                    old_view,
                    self@,
                    SET,
                    CMP,
                    1,
                    data@,
                    val,
                    |w: int| strided(y_slice as int, 32, 1024, w),
                    |w: int| xz_word(y_slice as int, w),
                );
            }
        } else {
            proof {
                lemma_loaded_nothing(
                    old_view,
                    SET,
                    CMP,
                    1,
                    data@,
                    val,
                    |w: int| xz_word(y_slice as int, w),
                );
            }
        }
    }

    /// Loads 2-bit elements: bit `n` of the cube becomes the match of element
    /// `n` of `data` against `match_val`, merged into the old bit as `SET` says.
    pub fn load_packed_u2_into<const SET: u8, const CMP: u8>(&mut self, data: &[u64; 1024], match_val: u8)
        requires
            SET < 4,
            CMP < 4,
            match_val < 4,
        ensures
            loaded(old(self)@, final(self)@, SET, CMP, 2, data@, match_val as u64, |w: int| true),
    {
        let ghost old_view = self@;
        self.load_packed_u2_inner::<SET>(data, CMP, match_val, 0, 1024);
        proof {
            lemma_loaded_same(
                old_view,
                self@,
                SET,
                CMP,
                2,
                data@,
                match_val as u64,
                |w: int| 0 <= w < 1024,
                |w: int| true,
            );
        }
    }

    /// Loads the 2-bit elements of inner slice `x_slice` only; a slice past the
    /// last one loads nothing.
    pub fn load_yz_packed_u2_into<const SET: u8, const CMP: u8>(
        &mut self,
        data: &[u64; 1024],
        x_slice: usize,
        match_val: u8,
    )
        requires
            SET < 4,
            CMP < 4,
            match_val < 4,
            x_slice * 32 <= usize::MAX,
        ensures
            loaded(
                old(self)@,
                final(self)@,
                SET,
                CMP,
                2,
                data@,
                match_val as u64,
                |w: int| yz_word(x_slice as int, w),
            ),
    {
        let ghost old_view = self@;
        if x_slice < 32 {
            self.load_packed_u2_inner::<SET>(data, CMP, match_val, x_slice * 32, x_slice * 32 + 32);
            proof {
                lemma_loaded_same(
                    old_view,
                    self@,
                    SET,
                    CMP,
                    2,
                    data@,
                    match_val as u64,
                    |w: int| x_slice * 32 <= w < x_slice * 32 + 32,
                    |w: int| yz_word(x_slice as int, w),
                );
            }
        } else {
            proof {
                lemma_loaded_nothing(
                    old_view,
                    SET,
                    CMP,
                    2,
                    data@,
                    match_val as u64,
                    |w: int| yz_word(x_slice as int, w),
                );
            }
        }
    }

    /// Loads the 2-bit elements of the words `y_slice`, `y_slice + 32`, ...
    /// up to the last word.
    pub fn load_xz_packed_u2_into<const SET: u8, const CMP: u8>(
        &mut self,
        data: &[u64; 1024],
        y_slice: usize,
        match_val: u8,
    )
        requires
            SET < 4,
            CMP < 4,
            match_val < 4,
            y_slice >= 1024 || y_slice % 256 < 32,
        ensures
            loaded(
                old(self)@,
                final(self)@,
                SET,
                CMP,
                2,
                data@,
                match_val as u64,
                |w: int| xz_word(y_slice as int, w),
            ),
    {
        self.load_xz_packed_u2_inner::<SET>(data, CMP, match_val, y_slice);
    }

    /// Loads 4-bit elements: bit `n` of the cube becomes the match of element
    /// `n` of `data` against `match_val`, merged into the old bit as `SET` says.
    pub fn load_packed_u4_into<const SET: u8, const CMP: u8>(&mut self, data: &[u64; 2048], match_val: u8)
        requires
            SET < 4,
            CMP < 4,
        ensures
            loaded(old(self)@, final(self)@, SET, CMP, 4, data@, match_val as u64, |w: int| true),
    {
        let ghost old_view = self@;
        self.load_packed_u4_inner::<SET>(data, CMP, match_val, 0, 2048);
        proof {
            lemma_loaded_same(
                old_view,
                self@,
                SET,
                CMP,
                4,
                data@,
                match_val as u64,
                |w: int| 0usize / 2 <= w < 2048usize / 2,
                |w: int| true,
            );
        }
    }

    /// Loads the 4-bit elements of inner slice `x_slice` only; a slice past the
    /// last one loads nothing.
    pub fn load_yz_packed_u4_into<const SET: u8, const CMP: u8>(
        &mut self,
        data: &[u64; 2048],
        x_slice: usize,
        match_val: u8,
    )
        requires
            SET < 4,
            CMP < 4,
            x_slice * 64 <= usize::MAX,
        ensures
            loaded(
                old(self)@,
                final(self)@,
                SET,
                CMP,
                4,
                data@,
                match_val as u64,
                |w: int| yz_word(x_slice as int, w),
            ),
    {
        let ghost old_view = self@;
        if x_slice < 32 {
            self.load_packed_u4_inner::<SET>(data, CMP, match_val, x_slice * 64, x_slice * 64 + 64);
            proof {
                lemma_loaded_same(
                    old_view,
                    self@,
                    SET,
                    CMP,
                    4,
                    data@,
                    match_val as u64,
                    |w: int| (x_slice * 64) / 2 <= w < (x_slice * 64 + 64) / 2,
                    |w: int| yz_word(x_slice as int, w),
                );
            }
        } else {
            proof {
                lemma_loaded_nothing(
                    old_view,
                    SET,
                    CMP,
                    4,
                    data@,
                    match_val as u64,
                    |w: int| yz_word(x_slice as int, w),
                );
            }
        }
    }

    /// Loads the 4-bit elements of the words `y_slice`, `y_slice + 32`, ...
    /// up to the last word.
    pub fn load_xz_packed_u4_into<const SET: u8, const CMP: u8>(
        &mut self,
        data: &[u64; 2048],
        y_slice: usize,
        match_val: u8,
    )
        requires
            SET < 4,
            CMP < 4,
            y_slice * 2 <= usize::MAX,
            y_slice >= 1024 || y_slice % 128 < 32,
        ensures
            loaded(
                old(self)@,
                final(self)@,
                SET,
                CMP,
                4,
                data@,
                match_val as u64,
                |w: int| xz_word(y_slice as int, w),
            ),
    {
        self.load_xz_packed_u4_inner::<SET>(data, CMP, match_val, y_slice);
    }

    /// Loads 8-bit elements: bit `n` of the cube becomes the match of byte `n`
    /// of `data` against `match_val`, merged into the old bit as `SET` says.
    pub fn load_packed_u8_into<const SET: u8, const CMP: u8>(&mut self, data: &[u64; 4096], match_val: u8)
        requires
            SET < 4,
            CMP < 4,
        ensures
            loaded(old(self)@, final(self)@, SET, CMP, 8, data@, match_val as u64, |w: int| true),
    {
        let ghost old_view = self@;
        self.load_packed_u8_inner::<SET>(data, CMP, match_val, 0, 4096);
        proof {
            lemma_loaded_same(
                old_view,
                self@,
                SET,
                CMP,
                8,
                data@,
                match_val as u64,
                |w: int| 0usize / 4 <= w < 4096usize / 4,
                |w: int| true,
            );
        }
    }

    /// Loads the bytes of inner slice `x_slice` only; a slice past the last
    /// one loads nothing.
    pub fn load_yz_packed_u8_into<const SET: u8, const CMP: u8>(
        &mut self,
        data: &[u64; 4096],
        x_slice: usize,
        match_val: u8,
    )
        requires
            SET < 4,
            CMP < 4,
            x_slice * 128 <= usize::MAX,
        ensures
            loaded(
                old(self)@,
                final(self)@,
                SET,
                CMP,
                8,
                data@,
                match_val as u64,
                |w: int| yz_word(x_slice as int, w),
            ),
    {
        let ghost old_view = self@;
        if x_slice < 32 {
            self.load_packed_u8_inner::<SET>(
                data,
                CMP,
                match_val,
                x_slice * 128,
                x_slice * 128 + 128,
            );
            proof {
                lemma_loaded_same(
                    old_view,
                    self@,
                    SET,
                    CMP,
                    8,
                    data@,
                    match_val as u64,
                    |w: int| (x_slice * 128) / 4 <= w < (x_slice * 128 + 128) / 4,
                    |w: int| yz_word(x_slice as int, w),
                );
            }
        } else {
            proof {
                lemma_loaded_nothing(
                    old_view,
                    SET,
                    CMP,
                    8,
                    data@,
                    match_val as u64,
                    |w: int| yz_word(x_slice as int, w),
                );
            }
        }
    }

    /// Loads the bytes of the words `y_slice`, `y_slice + 32`, ... up to the
    /// last word.
    pub fn load_xz_packed_u8_into<const SET: u8, const CMP: u8>(
        &mut self,
        data: &[u64; 4096],
        y_slice: usize,
        match_val: u8,
    )
        requires
            SET < 4,
            CMP < 4,
            y_slice * 4 <= usize::MAX,
            y_slice >= 1024 || y_slice % 64 < 32,
        ensures
            loaded(
                old(self)@,
                final(self)@,
                SET,
                CMP,
                8,
                data@,
                match_val as u64,
                |w: int| xz_word(y_slice as int, w),
            ),
    {
        self.load_xz_packed_u8_inner::<SET>(data, CMP, match_val, y_slice);
    }

    /// Loads 16-bit elements: bit `n` of the cube becomes the match of element
    /// `n` of `data` against `match_val`, merged into the old bit as `SET` says.
    pub fn load_packed_u16_into<const SET: u8, const CMP: u8>(&mut self, data: &[u64; 8192], match_val: u16)
        requires
            SET < 4,
            CMP < 4,
        ensures
            loaded(old(self)@, final(self)@, SET, CMP, 16, data@, match_val as u64, |w: int| true),
    {
        let ghost old_view = self@;
        self.load_packed_u16_inner::<SET>(data, CMP, match_val, 0, 8, 8192);
        proof {
            assert forall|w: int| 0 <= w < 1024 implies #[trigger] strided(0, 8, 8192, 8 * w) == true by {}
            lemma_loaded_same(
                old_view,
                self@,
                SET,
                CMP,
                16,
                data@,
                match_val as u64,
                |w: int| strided(0, 8, 8192, 8 * w),
                |w: int| true,
            );
        }
    }

    /// Loads the 16-bit elements of inner slice `x_slice` only; a slice past
    /// the last one loads nothing.
    pub fn load_yz_packed_u16_into<const SET: u8, const CMP: u8>(
        &mut self,
        data: &[u64; 8192],
        x_slice: usize,
        match_val: u16,
    )
        requires
            SET < 4,
            CMP < 4,
            x_slice * 256 <= usize::MAX,
        ensures
            loaded(
                old(self)@,
                final(self)@,
                SET,
                CMP,
                16,
                data@,
                match_val as u64,
                |w: int| yz_word(x_slice as int, w),
            ),
    {
        let ghost old_view = self@;
        if x_slice < 32 {
            self.load_packed_u16_inner::<SET>(
                data,
                CMP,
                match_val,
                x_slice * 256,
                8,
                x_slice * 256 + 256,
            );
            proof {
                assert forall|w: int| 0 <= w < 1024 implies #[trigger] strided(x_slice * 256, 8, x_slice * 256 + 256, 8 * w) == yz_word(x_slice as int, w) by {}
                lemma_loaded_same(
                    old_view,
                    self@,
                    SET,
                    CMP,
                    16,
                    data@,
                    match_val as u64,
                    |w: int| strided(x_slice * 256, 8, x_slice * 256 + 256, 8 * w),
                    |w: int| yz_word(x_slice as int, w),
                );
            }
        } else {
            proof {
                lemma_loaded_nothing(
                    old_view,
                    SET,
                    CMP,
                    16,
                    data@,
                    match_val as u64,
                    |w: int| yz_word(x_slice as int, w),
                );
            }
        }
    }

    /// Loads the 16-bit elements of the words `y_slice`, `y_slice + 32`, ...
    /// up to the last word.
    pub fn load_xz_packed_u16_into<const SET: u8, const CMP: u8>(
        &mut self,
        data: &[u64; 8192],
        y_slice: usize,
        match_val: u16,
    )
        requires
            SET < 4,
            CMP < 4,
            y_slice * 8 <= usize::MAX,
        ensures
            loaded(
                old(self)@,
                final(self)@,
                SET,
                CMP,
                16,
                data@,
                match_val as u64,
                |w: int| xz_word(y_slice as int, w),
            ),
    {
        let ghost old_view = self@;
        if y_slice < 1024 {
            self.load_packed_u16_inner::<SET>(data, CMP, match_val, y_slice * 8, 256, 8192);
            proof {
                assert forall|w: int| 0 <= w < 1024 implies #[trigger] strided(y_slice * 8, 256, 8192, 8 * w) == xz_word(y_slice as int, w) by {
                    assert(((8 * w - y_slice * 8) % 256 == 0) == (w % 32 == y_slice % 32)) by (nonlinear_arith)
                        requires
                            y_slice <= w || 8 * w < y_slice * 8,
                    ;
                }
                lemma_loaded_same(
                    old_view,
                    self@,
                    SET,
                    CMP,
                    16,
                    data@,
                    match_val as u64,
                    |w: int| strided(y_slice * 8, 256, 8192, 8 * w),
                    |w: int| xz_word(y_slice as int, w),
                );
            }
        } else {
            proof {
                lemma_loaded_nothing(
                    old_view,
                    SET,
                    CMP,
                    16,
                    data@,
                    match_val as u64,
                    |w: int| xz_word(y_slice as int, w),
                );
            }
        }
    }
}


impl Bitfield {
    /// Transposes all 1024 elements as a 32x32 matrix.
    pub fn outer_transpose(&mut self) -> (r: &mut Self)
        ensures
            r@ == outer_transposed(old(self)@),
            final(self)@ == final(r)@,
    {
        crate::transposes::outer_transpose(&mut self.data);
        self
    }

    /// Transposes all 1024 elements as a 32x32 matrix, by swapping pairs.
    pub fn outer_transpose_scalar(&mut self) -> (r: &mut Self)
        ensures
            r@ == outer_transposed(old(self)@),
            final(self)@ == final(r)@,
    {
        crate::transposes::outer_transpose_scalar(&mut self.data);
        self
    }

    /// Transposes each chunk of 32 elements as a 32x32 bit matrix.
    pub fn inner_transpose(&mut self) -> (r: &mut Self)
        ensures
            inner_transposed(old(self)@, r@),
            final(self)@ == final(r)@,
    {
        let ghost src = self@;
        let mut i: usize = 0;
        while i < 1024
            invariant
                0 <= i <= 1024,
                i % 32 == 0,
                self@.len() == 1024,
                src.len() == 1024,
                forall|s: int, a: u32, b: u32|
                    0 <= s < i / 32 && a < 32 && b < 32 ==> #[trigger] bit32(self@[32 * s + b], a)
                        == bit32(src[32 * s + a], b),
                forall|k: int| i <= k < 1024 ==> #[trigger] self@[k] == src[k],
            decreases 1024 - i,
        {
            let ghost prev = self@;
            crate::transposes::inner_transpose_slice(&mut self.data, i);
            proof {
                assert forall|s: int, a: u32, b: u32|
                    0 <= s < (i + 32) / 32 && a < 32 && b < 32 implies #[trigger] bit32(self@[32 * s + b], a)
                        == bit32(src[32 * s + a], b) by {
                    if s < i / 32 {
                        assert(self@[32 * s + b] == prev[32 * s + b]);
                    } else {
                        assert(bits_transposed_at(prev, self@, i as int));
                        assert(bit32(self@[i + b], a) == bit32(prev[i + a], b));
                        assert(prev[i + a] == src[i + a]);
                    }
                }
            }
            i += 32;
        }
        self
    }

    /// Transposes each chunk of 32 elements as a 32x32 bit matrix, bit by bit.
    pub fn inner_transpose_scalar(&mut self) -> (r: &mut Self)
        ensures
            inner_transposed(old(self)@, r@),
            final(self)@ == final(r)@,
    {
        let ghost src = self@;
        let mut i: usize = 0;
        while i < 1024
            invariant
                0 <= i <= 1024,
                i % 32 == 0,
                self@.len() == 1024,
                src.len() == 1024,
                forall|s: int, a: u32, b: u32|
                    0 <= s < i / 32 && a < 32 && b < 32 ==> #[trigger] bit32(self@[32 * s + b], a)
                        == bit32(src[32 * s + a], b),
                forall|k: int| i <= k < 1024 ==> #[trigger] self@[k] == src[k],
            decreases 1024 - i,
        {
            let ghost prev = self@;
            inner_transpose_slice_scalar(&mut self.data, i);
            proof {
                assert forall|s: int, a: u32, b: u32|
                    0 <= s < (i + 32) / 32 && a < 32 && b < 32 implies #[trigger] bit32(self@[32 * s + b], a)
                        == bit32(src[32 * s + a], b) by {
                    if s < i / 32 {
                        assert(self@[32 * s + b] == prev[32 * s + b]);
                    } else {
                        assert(bits_transposed_at(prev, self@, i as int));
                        assert(bit32(self@[i + b], a) == bit32(prev[i + a], b));
                        assert(prev[i + a] == src[i + a]);
                    }
                }
            }
            i += 32;
        }
        self
    }
}


impl Bitfield {
    /// Word `index`.
    pub(crate) fn word(&self, index: usize) -> (r: u32)
        requires
            index < 1024,
        ensures
            r == self@[index as int],
    {
        self.data[index]
    }

    /// Replaces word `index` by `value`.
    pub(crate) fn put_word(&mut self, index: usize, value: u32)
        requires
            index < 1024,
        ensures
            final(self)@ == old(self)@.update(index as int, value),
    {
        self.data[index] = value;
    }

    /// Transposes the bit matrix of inner slice `slice` alone.
    pub(crate) fn inner_transpose_one(&mut self, slice: usize)
        requires
            slice < 32,
        ensures
            final(self)@.len() == 1024,
            bits_transposed_at(old(self)@, final(self)@, 32 * slice as int),
            forall|k: int|
                0 <= k < 1024 && !(32 * slice <= k < 32 * slice + 32) ==> #[trigger] final(self)@[k]
                    == old(self)@[k],
    {
        crate::transposes::inner_transpose_slice(&mut self.data, 32 * slice);
    }
}


/// Loading with assignment is loading the same words whatever they held
/// before: a load restricted to some words (an inner slice, or one row of
/// every slice) gives those words what a full load gives them.
pub proof fn lemma_partial_load_agrees(
    old_full: Seq<u32>,
    new_full: Seq<u32>,
    old_part: Seq<u32>,
    new_part: Seq<u32>,
    op: u8,
    width: u64,
    data: Seq<u64>,
    val: u64,
    part: spec_fn(int) -> bool,
)
    requires
        old_full.len() == old_part.len(),
        loaded(old_full, new_full, SET_ASSIGN, op, width, data, val, |w: int| true),
        loaded(old_part, new_part, SET_ASSIGN, op, width, data, val, part),
    ensures
        forall|w: int| 0 <= w < old_full.len() && #[trigger] part(w) ==> new_full[w] == new_part[w],
{
    assert forall|w: int| 0 <= w < old_full.len() && #[trigger] part(w) implies new_full[w]
        == new_part[w] by {
        assert(word_loaded(SET_ASSIGN, op, width, data, val, old_full[w], new_full[w], w));
        assert(word_loaded(SET_ASSIGN, op, width, data, val, old_part[w], new_part[w], w));
        assert forall|b: u32| b < 32 implies #[trigger] bit32(new_full[w], b) == bit32(new_part[w], b) by {}
        lemma_bit32_ext(new_full[w], new_part[w]);
    }
}

impl Bitfield {
    /// Outer slice `slice` as a 32x32 bit matrix: bit `j` of row `i` is bit
    /// `slice` of word `32 * i + j`.
    pub fn outer_slice_rows(&self, slice: u32) -> (r: [u32; 32])
        requires
            slice < 32,
        ensures
            forall|i: int, j: u32|
                0 <= i < 32 && j < 32 ==> #[trigger] bit32(r@[i], j) == bit32(self@[32 * i + j], slice),
    {
        let mut rows = [0u32; 32];
        let mut i: usize = 0;
        while i < 32
            invariant
                0 <= i <= 32,
                slice < 32,
                rows@.len() == 32,
                self@.len() == 1024,
                forall|ii: int, j: u32|
                    0 <= ii < i && j < 32 ==> #[trigger] bit32(rows@[ii], j) == bit32(self@[32 * ii + j], slice),
            decreases 32 - i,
        {
            let mut bits: u32 = 0;
            let mut j: usize = 0;
            assert forall|b: u32| b < 32 implies #[trigger] bit32(bits, b) == (b < j && bit32(self@[32 * i + b], slice)) by {
                crate::bits::lemma_bit32_zero(b);
            }
            while j < 32
                invariant
                    0 <= j <= 32,
                    i < 32,
                    slice < 32,
                    self@.len() == 1024,
                    forall|b: u32| b < 32 ==> #[trigger] bit32(bits, b) == (b < j && bit32(self@[32 * i + b], slice)),
                decreases 32 - j,
            {
                let ghost old_bits = bits;
                if (self.data[i * 32 + j] >> slice) & 1 == 1 {
                    bits = bits | (1u32 << (j as u32));
                }
                assert forall|b: u32| b < 32 implies #[trigger] bit32(bits, b) == (b < j + 1 && bit32(self@[32 * i + b], slice)) by {
                    crate::bits::lemma_bit32_set(old_bits, j as u32, b);
                }
                j += 1;
            }
            let ghost prev = rows@;
            rows[i] = bits;
            assert forall|ii: int, jj: u32| 0 <= ii < i + 1 && jj < 32 implies #[trigger] bit32(rows@[ii], jj) == bit32(self@[32 * ii + jj], slice) by {
                if ii < i {
                    assert(rows@[ii] == prev[ii]);
                }
            }
            i += 1;
        }
        rows
    }
}

} // verus!
