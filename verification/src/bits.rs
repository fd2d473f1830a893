//! Single bits of machine words, and how the bitwise operators act on them.
use vstd::prelude::*;
use vstd::std_specs::bits::{axiom_u32_trailing_zeros, u32_trailing_zeros};

verus! {

/// Bit `i` of a 32-bit word, counted from the least significant bit.
pub open spec fn bit32(w: u32, i: u32) -> bool {
    (w >> i) & 1u32 == 1u32
}

/// Bit `i` of a 64-bit word, counted from the least significant bit.
pub open spec fn bit64(w: u64, i: u64) -> bool {
    (w >> i) & 1u64 == 1u64
}

pub proof fn lemma_bit32_and(a: u32, b: u32, i: u32)
    by (bit_vector)
    requires
        i < 32,
    ensures
        bit32(a & b, i) == (bit32(a, i) && bit32(b, i)),
{
}

pub proof fn lemma_bit32_or(a: u32, b: u32, i: u32)
    by (bit_vector)
    requires
        i < 32,
    ensures
        bit32(a | b, i) == (bit32(a, i) || bit32(b, i)),
{
}

pub proof fn lemma_bit32_xor(a: u32, b: u32, i: u32)
    by (bit_vector)
    requires
        i < 32,
    ensures
        bit32(a ^ b, i) == (bit32(a, i) != bit32(b, i)),
{
}

pub proof fn lemma_bit32_not(a: u32, i: u32)
    by (bit_vector)
    requires
        i < 32,
    ensures
        bit32(!a, i) == !bit32(a, i),
{
}

pub proof fn lemma_bit32_zero(i: u32)
    by (bit_vector)
    requires
        i < 32,
    ensures
        !bit32(0u32, i),
{
}

pub proof fn lemma_bit32_max(i: u32)
    by (bit_vector)
    requires
        i < 32,
    ensures
        bit32(0xffff_ffffu32, i),
{
}

/// Merging into a zero word.
pub proof fn lemma_u32_zero_merge(a: u32)
    by (bit_vector)
    ensures
        0u32 | a == a,
        0u32 ^ a == a,
        0u32 & a == 0u32,
{
}

/// Zero words are fixed points of the word operations that start from the
/// word itself, and zero operands leave a word alone.
pub proof fn lemma_u32_zero_fixed(x: u32, s: u32)
    by (bit_vector)
    requires
        s < 32,
    ensures
        0u32 & x == 0u32,
        0u32 << s == 0u32,
        0u32 >> s == 0u32,
        0u32 & !(0u32 << 1u32) == 0u32,
        0u32 & !(0u32 >> 1u32) == 0u32,
        x | 0u32 == x,
        x ^ 0u32 == x,
        x & !0u32 == x,
{
}

/// A union of words is zero exactly when each of them is.
pub proof fn lemma_u32_or_zero(x: u32, y: u32)
    by (bit_vector)
    ensures
        ((x | y) == 0u32) == (x == 0u32 && y == 0u32),
{
}

/// Setting bit `j` of a word keeps every other bit.
pub proof fn lemma_bit32_set(a: u32, j: u32, i: u32)
    by (bit_vector)
    requires
        i < 32,
        j < 32,
    ensures
        bit32(a | (1u32 << j), i) == (i == j || bit32(a, i)),
{
}

/// Setting bit `j` of a word keeps every other bit.
pub proof fn lemma_bit64_set(a: u64, j: u64, i: u64)
    by (bit_vector)
    requires
        i < 64,
        j < 64,
    ensures
        bit64(a | (1u64 << j), i) == (i == j || bit64(a, i)),
{
}

pub proof fn lemma_bit64_zero(i: u64)
    by (bit_vector)
    requires
        i < 64,
    ensures
        !bit64(0u64, i),
{
}

pub proof fn lemma_bit64_and_le(a: u64, m: u64)
    by (bit_vector)
    ensures
        a & m <= m,
{
}

/// The low half of a 64-bit word holds its bits 0 to 31.
pub proof fn lemma_bit64_low_half(a: u64, i: u32)
    by (bit_vector)
    requires
        i < 32,
    ensures
        bit32(a as u32, i) == bit64(a, i as u64),
{
}

/// The high half of a 64-bit word holds its bits 32 to 63.
pub proof fn lemma_bit64_high_half(a: u64, i: u32)
    by (bit_vector)
    requires
        i < 32,
    ensures
        bit32((a >> 32u64) as u32, i) == bit64(a, (i + 32) as u64),
{
}

/// Clearing the lowest set bit `t` of `c`, as `c & (c - 1)` does.
pub proof fn lemma_bit32_clear_lowest(c: u32, t: u32, i: u32)
    by (bit_vector)
    requires
        c != 0,
        t < 32,
        i < 32,
        (c >> t) & 1u32 == 1u32,
        c << ((32 - t) as u32) == 0u32,
    ensures
        bit32(c & ((c - 1) as u32), i) == (bit32(c, i) && i != t),
        c & ((c - 1) as u32) < c,
{
}

/// The lowest set bit of a nonzero word, and what clearing it leaves.
pub proof fn lemma_lowest_bit(c: u32)
    requires
        c != 0,
    ensures
        u32_trailing_zeros(c) < 32,
        bit32(c, u32_trailing_zeros(c)),
        forall|i: u32| i < u32_trailing_zeros(c) ==> !#[trigger] bit32(c, i),
        forall|i: u32|
            i < 32 ==> #[trigger] bit32(c & ((c - 1) as u32), i) == (bit32(c, i) && i
                != u32_trailing_zeros(c)),
        c & ((c - 1) as u32) < c,
{
    axiom_u32_trailing_zeros(c);
    let t = u32_trailing_zeros(c);
    assert forall|i: u32| i < 32 implies #[trigger] bit32(c & ((c - 1) as u32), i) == (bit32(c, i)
        && i != t) by {
        lemma_bit32_clear_lowest(c, t, i);
    }
    lemma_bit32_clear_lowest(c, t, 0);
}

/// A word with no bit set is zero.
pub proof fn lemma_bit32_nonzero(a: u32)
    requires
        a != 0,
    ensures
        exists|i: u32| i < 32 && #[trigger] bit32(a, i),
{
    if forall|i: u32| i < 32 ==> !#[trigger] bit32(a, i) {
        assert forall|i: u32| i < 32 implies #[trigger] bit32(a, i) == bit32(0u32, i) by {
            lemma_bit32_zero(i);
        }
        lemma_bit32_ext(a, 0u32);
    }
}

/// One block exchange of the transposition: rows `a` and `b`, `j` apart,
/// exchange the bits of `a` whose column has bit `j` set with the bits of `b`
/// whose column has it clear.
pub proof fn lemma_exchange_pair(a: u32, b: u32, j: u32, mask: u32, k: u32, c: u32)
    by (bit_vector)
    requires
        c < 32,
        k & j == 0,
        (j == 16 && mask == 0x0000_ffffu32) || (j == 8 && mask == 0x00ff_00ffu32) || (j == 4 && mask
            == 0x0f0f_0f0fu32) || (j == 2 && mask == 0x3333_3333u32) || (j == 1 && mask
            == 0x5555_5555u32),
    ensures
        bit32(a ^ ((((a >> j) ^ b) & mask) << j), c) == if ((k & !j) | (c & j)) == k {
            bit32(a, (c & !j) | (k & j))
        } else {
            bit32(b, (c & !j) | (k & j))
        },
        ((k & !j) | (c & j)) == k || ((k & !j) | (c & j)) == (k | j),
        bit32(b ^ (((a >> j) ^ b) & mask), c) == if (((k | j) & !j) | (c & j)) == k {
            bit32(a, (c & !j) | ((k | j) & j))
        } else {
            bit32(b, (c & !j) | ((k | j) & j))
        },
        (((k | j) & !j) | (c & j)) == k || (((k | j) & !j) | (c & j)) == (k | j),
{
}

/// Row and column numbers during the transposition.
pub proof fn lemma_exchange_index(r: u32, k: u32, j: u32)
    by (bit_vector)
    requires
        r < 32,
        k < 32,
        j == 16 || j == 8 || j == 4 || j == 2 || j == 1,
    ensures
        (r & !j) < 32,
        !((r & !j) < 0u32),
        k & j == 0 ==> (k | j) < 32 && (k | j) == k + j,
        k & j == 0 ==> (((r & !j) < k + 1) == ((r & !j) < k || r == k || r == (k | j))),
        k & j != 0 ==> (((r & !j) < k + 1) == ((r & !j) < k)),
        k & j == 0 && (r == k || r == (k | j)) ==> (r & !j) == k,
        (r & !j) < 32u32,
{
}

/// The levels of the transposition: the bits done before level `j` and after it.
pub proof fn lemma_exchange_levels(j: u32)
    by (bit_vector)
    requires
        j == 16 || j == 8 || j == 4 || j == 2 || j == 1,
    ensures
        j == 16 ==> 0u32 & j == 0 && 0u32 | j == 16 && j >> 1u32 == 8,
        j == 8 ==> 16u32 & j == 0 && 16u32 | j == 24 && j >> 1u32 == 4,
        j == 4 ==> 24u32 & j == 0 && 24u32 | j == 28 && j >> 1u32 == 2,
        j == 2 ==> 28u32 & j == 0 && 28u32 | j == 30 && j >> 1u32 == 1,
        j == 1 ==> 30u32 & j == 0 && 30u32 | j == 31 && j >> 1u32 == 0,
        0u32 & 0u32 == 0u32,
        31u32 & 0u32 == 0u32,
{
}

/// Exchanging bit `j` of a row and a column number, then the bits in `l`,
/// exchanges the bits in `l | j`; exchanging all five bits swaps the numbers.
pub proof fn lemma_exchange_compose(l: u32, j: u32, r: u32, c: u32)
    by (bit_vector)
    requires
        r < 32,
        c < 32,
        l & j == 0,
    ensures
        ((r & !j) | (c & j)) < 32,
        ((c & !j) | (r & j)) < 32,
        ((r & !l) | (c & l)) < 32,
        ((c & !l) | (r & l)) < 32,
        ((r & !(l | j)) | (c & (l | j))) < 32,
        (((r & !j) | (c & j)) & !j) == (r & !j),
        ((c & !(l | j)) | (r & (l | j))) < 32,
        ((((r & !j) | (c & j)) & !l) | (((c & !j) | (r & j)) & l)) == ((r & !(l | j)) | (c & (l
            | j))),
        ((((c & !j) | (r & j)) & !l) | (((r & !j) | (c & j)) & l)) == ((c & !(l | j)) | (r & (l
            | j))),
        (r & !0u32) | (c & 0u32) == r,
        (c & !0u32) | (r & 0u32) == c,
        (r & !31u32) | (c & 31u32) == c,
        (c & !31u32) | (r & 31u32) == r,
{
}

/// Two 32-bit words with the same bits are equal.
pub proof fn lemma_bit32_ext(a: u32, b: u32)
    requires
        forall|i: u32| i < 32 ==> #[trigger] bit32(a, i) == bit32(b, i),
    ensures
        a == b,
{
    assert(bit32(a, 0) == bit32(b, 0));
    assert(bit32(a, 1) == bit32(b, 1));
    assert(bit32(a, 2) == bit32(b, 2));
    assert(bit32(a, 3) == bit32(b, 3));
    assert(bit32(a, 4) == bit32(b, 4));
    assert(bit32(a, 5) == bit32(b, 5));
    assert(bit32(a, 6) == bit32(b, 6));
    assert(bit32(a, 7) == bit32(b, 7));
    assert(bit32(a, 8) == bit32(b, 8));
    assert(bit32(a, 9) == bit32(b, 9));
    assert(bit32(a, 10) == bit32(b, 10));
    assert(bit32(a, 11) == bit32(b, 11));
    assert(bit32(a, 12) == bit32(b, 12));
    assert(bit32(a, 13) == bit32(b, 13));
    assert(bit32(a, 14) == bit32(b, 14));
    assert(bit32(a, 15) == bit32(b, 15));
    assert(bit32(a, 16) == bit32(b, 16));
    assert(bit32(a, 17) == bit32(b, 17));
    assert(bit32(a, 18) == bit32(b, 18));
    assert(bit32(a, 19) == bit32(b, 19));
    assert(bit32(a, 20) == bit32(b, 20));
    assert(bit32(a, 21) == bit32(b, 21));
    assert(bit32(a, 22) == bit32(b, 22));
    assert(bit32(a, 23) == bit32(b, 23));
    assert(bit32(a, 24) == bit32(b, 24));
    assert(bit32(a, 25) == bit32(b, 25));
    assert(bit32(a, 26) == bit32(b, 26));
    assert(bit32(a, 27) == bit32(b, 27));
    assert(bit32(a, 28) == bit32(b, 28));
    assert(bit32(a, 29) == bit32(b, 29));
    assert(bit32(a, 30) == bit32(b, 30));
    assert(bit32(a, 31) == bit32(b, 31));
    assert(a == b) by (bit_vector)
        requires
            bit32(a, 0) == bit32(b, 0),
            bit32(a, 1) == bit32(b, 1),
            bit32(a, 2) == bit32(b, 2),
            bit32(a, 3) == bit32(b, 3),
            bit32(a, 4) == bit32(b, 4),
            bit32(a, 5) == bit32(b, 5),
            bit32(a, 6) == bit32(b, 6),
            bit32(a, 7) == bit32(b, 7),
            bit32(a, 8) == bit32(b, 8),
            bit32(a, 9) == bit32(b, 9),
            bit32(a, 10) == bit32(b, 10),
            bit32(a, 11) == bit32(b, 11),
            bit32(a, 12) == bit32(b, 12),
            bit32(a, 13) == bit32(b, 13),
            bit32(a, 14) == bit32(b, 14),
            bit32(a, 15) == bit32(b, 15),
            bit32(a, 16) == bit32(b, 16),
            bit32(a, 17) == bit32(b, 17),
            bit32(a, 18) == bit32(b, 18),
            bit32(a, 19) == bit32(b, 19),
            bit32(a, 20) == bit32(b, 20),
            bit32(a, 21) == bit32(b, 21),
            bit32(a, 22) == bit32(b, 22),
            bit32(a, 23) == bit32(b, 23),
            bit32(a, 24) == bit32(b, 24),
            bit32(a, 25) == bit32(b, 25),
            bit32(a, 26) == bit32(b, 26),
            bit32(a, 27) == bit32(b, 27),
            bit32(a, 28) == bit32(b, 28),
            bit32(a, 29) == bit32(b, 29),
            bit32(a, 30) == bit32(b, 30),
            bit32(a, 31) == bit32(b, 31),
    ;
}

} // verus!
