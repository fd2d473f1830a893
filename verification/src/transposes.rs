//! Transpositions of the cube: of the 32x32 matrix of words, and of the 32x32
//! matrix of bits that each inner slice of 32 words forms.
use vstd::prelude::*;

use crate::bits::{bit32, lemma_bit32_ext, lemma_bit32_set, lemma_bit32_zero};
use crate::bits::{lemma_exchange_compose, lemma_exchange_index, lemma_exchange_levels, lemma_exchange_pair};

verus! {

/// The row number after the row and column numbers `r` and `c` have
/// exchanged the bits in `l`.
pub open spec fn exchanged_row(l: u32, r: u32, c: u32) -> u32 {
    (r & !l) | (c & l)
}

/// The column number after the row and column numbers `r` and `c` have
/// exchanged the bits in `l`.
pub open spec fn exchanged_col(l: u32, r: u32, c: u32) -> u32 {
    (c & !l) | (r & l)
}

/// The words read as a 32x32 matrix, transposed: word `32 * r + c` takes the
/// place of word `32 * c + r`.
pub open spec fn outer_transposed(a: Seq<u32>) -> Seq<u32> {
    Seq::new(1024, |k: int| a[(k % 32) * 32 + k / 32])
}

/// The 32 words of `b` from `start` are those of `a` from `start` with their
/// bit matrix transposed: bit `i` of word `start + j` of `b` is bit `j` of word
/// `start + i` of `a`.
pub open spec fn bits_transposed_at(a: Seq<u32>, b: Seq<u32>, start: int) -> bool {
    forall|i: u32, j: u32|
        i < 32 && j < 32 ==> #[trigger] bit32(b[start + j], i) == bit32(a[start + i], j)
}

/// Every inner slice of `b` is the corresponding one of `a` with its bit
/// matrix transposed.
pub open spec fn inner_transposed(a: Seq<u32>, b: Seq<u32>) -> bool {
    &&& a.len() == 1024
    &&& b.len() == 1024
    &&& forall|s: int, i: u32, j: u32|
        0 <= s < 32 && i < 32 && j < 32 ==> #[trigger] bit32(b[32 * s + j], i) == bit32(
            a[32 * s + i],
            j,
        )
}

/// Transposes the 1024 words as a 32x32 matrix, from a copy of them.
pub(crate) fn outer_transpose(m: &mut [u32; 1024])
    ensures
        final(m)@ == outer_transposed(old(m)@),
{
    let src: [u32; 1024] = *m;
    let mut k: usize = 0;
    while k < 1024
        invariant
            0 <= k <= 1024,
            m@.len() == 1024,
            src@.len() == 1024,
            forall|j: int| 0 <= j < k ==> m@[j] == src@[(j % 32) * 32 + j / 32],
        decreases 1024 - k,
    {
        m[k] = src[(k % 32) * 32 + k / 32];
        k += 1;
    }
    assert(m@ =~= outer_transposed(src@));
}

/// Transposes the 1024 words as a 32x32 matrix, in place, by swapping every
/// word above the diagonal with its mirror below it.
pub(crate) fn outer_transpose_scalar(m: &mut [u32; 1024])
    ensures
        final(m)@ == outer_transposed(old(m)@),
{
    let ghost src = m@;
    let mut i: usize = 0;
    while i < 32
        invariant
            0 <= i <= 32,
            m@.len() == 1024,
            src.len() == 1024,
            forall|r: int, c: int|
                0 <= r < 32 && 0 <= c < 32 ==> #[trigger] m@[32 * r + c] == if (r < c && r < i)
                    || (c < r && c < i) {
                    src[32 * c + r]
                } else {
                    src[32 * r + c]
                },
        decreases 32 - i,
    {
        let mut j: usize = i + 1;
        while j < 32
            invariant
                0 <= i < 32,
                i + 1 <= j <= 32,
                m@.len() == 1024,
                src.len() == 1024,
                forall|r: int, c: int|
                    0 <= r < 32 && 0 <= c < 32 ==> #[trigger] m@[32 * r + c] == if (r < c && (r < i
                        || (r == i && c < j))) || (c < r && (c < i || (c == i && r < j))) {
                        src[32 * c + r]
                    } else {
                        src[32 * r + c]
                    },
            decreases 32 - j,
        {
            let a = m[32 * i + j];
            let b = m[32 * j + i];
            m[32 * i + j] = b;
            m[32 * j + i] = a;
            proof {
                assert forall|r: int, c: int| 0 <= r < 32 && 0 <= c < 32 implies #[trigger] m@[32
                    * r + c] == if (r < c && (r < i || (r == i && c < j + 1))) || (c < r && (c < i
                    || (c == i && r < j + 1))) {
                    src[32 * c + r]
                } else {
                    src[32 * r + c]
                } by {
                    if !((r == i && c == j) || (r == j && c == i)) {
                        assert(32 * r + c != 32 * i + j && 32 * r + c != 32 * j + i);
                    }
                }
            }
            j += 1;
        }
        i += 1;
    }
    assert forall|k: int| 0 <= k < 1024 implies m@[k] == outer_transposed(src)[k] by {
        let r = k / 32;
        let c = k % 32;
        assert(k == 32 * r + c);
        assert(m@[32 * r + c] == src[32 * c + r]);
    }
    assert(m@ =~= outer_transposed(src));
}

/// The masks of the block exchanges: at level `j`, the bits whose column has
/// bit `j` clear.
pub open spec fn level_mask(j: u32) -> u32 {
    if j == 16 {
        0x0000_ffff
    } else if j == 8 {
        0x00ff_00ff
    } else if j == 4 {
        0x0f0f_0f0f
    } else if j == 2 {
        0x3333_3333
    } else {
        0x5555_5555
    }
}

/// The bits of the row and column numbers that the levels above `j` have
/// exchanged.
pub open spec fn levels_done(j: u32) -> u32 {
    if j == 16 {
        0
    } else if j == 8 {
        16
    } else if j == 4 {
        24
    } else if j == 2 {
        28
    } else if j == 1 {
        30
    } else {
        31
    }
}

fn level_mask_of(j: u32) -> (r: u32)
    requires
        j == 16 || j == 8 || j == 4 || j == 2 || j == 1,
    ensures
        r == level_mask(j),
{
    if j == 16 {
        0x0000_ffff
    } else if j == 8 {
        0x00ff_00ff
    } else if j == 4 {
        0x0f0f_0f0f
    } else if j == 2 {
        0x3333_3333
    } else {
        0x5555_5555
    }
}

/// Transposes the 32x32 bit matrix of the 32 words of `m` from `start`, in
/// five levels of block exchanges: the level of block size `j` exchanges bit
/// `j` of the row number with bit `j` of the column number. The other words
/// stay.
pub(crate) fn inner_transpose_slice(m: &mut [u32], start: usize)
    requires
        start + 32 <= old(m)@.len(),
    ensures
        final(m)@.len() == old(m)@.len(),
        bits_transposed_at(old(m)@, final(m)@, start as int),
        forall|k: int|
            0 <= k < old(m)@.len() && !(start <= k < start + 32) ==> #[trigger] final(m)@[k]
                == old(m)@[k],
{
    let ghost src = m@;
    let len = m.len();
    let mut j: u32 = 16;
    proof {
        lemma_exchange_levels(16);
    }
    assert forall|r: u32, c: u32| r < 32 && c < 32 implies #[trigger] bit32(m@[start + r], c) == bit32(
        src[start + exchanged_row(levels_done(j), r, c)],
        exchanged_col(levels_done(j), r, c),
    ) by {
        lemma_exchange_compose(0, 0, r, c);
    }
    while j != 0
        invariant
            j == 16 || j == 8 || j == 4 || j == 2 || j == 1 || j == 0,
            start + 32 <= m@.len(),
            len == m@.len(),
            m@.len() == src.len(),
            forall|k: int| 0 <= k < m@.len() && !(start <= k < start + 32) ==> #[trigger] m@[k] == src[k],
            forall|r: u32, c: u32|
                r < 32 && c < 32 ==> #[trigger] bit32(m@[start + r], c) == bit32(
                    src[start + exchanged_row(levels_done(j), r, c)],
                    exchanged_col(levels_done(j), r, c),
                ),
        decreases j,
    {
        let mask = level_mask_of(j);
        let ghost done = levels_done(j);
        proof {
            lemma_exchange_levels(j);
        }
        let mut k: u32 = 0;
        while k < 32
            invariant
                j == 16 || j == 8 || j == 4 || j == 2 || j == 1,
                done == levels_done(j),
                done & j == 0,
                (done | j) == levels_done(j >> 1),
                mask == level_mask(j),
                k <= 32,
                start + 32 <= m@.len(),
                len == m@.len(),
                m@.len() == src.len(),
                forall|i: int| 0 <= i < m@.len() && !(start <= i < start + 32) ==> #[trigger] m@[i] == src[i],
                forall|r: u32, c: u32|
                    r < 32 && c < 32 ==> #[trigger] bit32(m@[start + r], c) == if (r & !j) < k {
                        bit32(
                            src[start + exchanged_row(done | j, r, c)],
                            exchanged_col(done | j, r, c),
                        )
                    } else {
                        bit32(src[start + exchanged_row(done, r, c)], exchanged_col(done, r, c))
                    },
            decreases 32 - k,
        {
            let ghost prev = m@;
            if k & j == 0 {
                proof {
                    lemma_exchange_index(0, k, j);
                }
                let lo = start + k as usize;
                let hi = start + (k | j) as usize;
                let a = m[lo];
                let b = m[hi];
                let t = ((a >> j) ^ b) & mask;
                m[lo] = a ^ (t << j);
                m[hi] = b ^ t;
                proof {
                    assert forall|r: u32, c: u32| r < 32 && c < 32 implies #[trigger] bit32(m@[start + r], c) == if (r & !j) < k + 1 {
                        bit32(
                            src[start + exchanged_row(done | j, r, c)],
                            exchanged_col(done | j, r, c),
                        )
                    } else {
                        bit32(src[start + exchanged_row(done, r, c)], exchanged_col(done, r, c))
                    } by {
                        lemma_exchange_index(r, k, j);
                        lemma_exchange_compose(done, j, r, c);
                        if r == k || r == (k | j) {
                            lemma_exchange_pair(a, b, j, mask, k, c);
                            let r2 = exchanged_row(j, r, c);
                            let c2 = exchanged_col(j, r, c);
                            lemma_exchange_index(r2, k, j);
                            assert(bit32(prev[start + r2], c2) == bit32(
                                src[start + exchanged_row(done, r2, c2)],
                                exchanged_col(done, r2, c2),
                            ));
                        } else {
                            assert(m@[start + r] == prev[start + r]);
                        }
                    }
                }
            } else {
                proof {
                    assert forall|r: u32, c: u32| r < 32 && c < 32 implies #[trigger] bit32(m@[start + r], c) == if (r & !j) < k + 1 {
                        bit32(
                            src[start + exchanged_row(done | j, r, c)],
                            exchanged_col(done | j, r, c),
                        )
                    } else {
                        bit32(src[start + exchanged_row(done, r, c)], exchanged_col(done, r, c))
                    } by {
                        lemma_exchange_index(r, k, j);
                    }
                }
            }
            k += 1;
        }
        proof {
            assert forall|r: u32, c: u32| r < 32 && c < 32 implies #[trigger] bit32(m@[start + r], c) == bit32(
                src[start + exchanged_row(levels_done(j >> 1), r, c)],
                exchanged_col(levels_done(j >> 1), r, c),
            ) by {
                lemma_exchange_index(r, 0, j);
                lemma_exchange_compose(done, j, r, c);
            }
        }
        j = j >> 1;
    }
    proof {
        lemma_exchange_levels(1);
    }
    assert forall|i: u32, jj: u32| i < 32 && jj < 32 implies #[trigger] bit32(m@[start + jj], i) == bit32(
        src[start + i],
        jj,
    ) by {
        lemma_exchange_compose(31, 0, jj, i);
    }
}

/// Transposes, bit by bit, the 32x32 bit matrix of the 32 words of `m` from
/// `start`; the other words stay.
pub(crate) fn inner_transpose_slice_scalar(m: &mut [u32], start: usize)
    requires
        start + 32 <= old(m)@.len(),
    ensures
        final(m)@.len() == old(m)@.len(),
        bits_transposed_at(old(m)@, final(m)@, start as int),
        forall|k: int|
            0 <= k < old(m)@.len() && !(start <= k < start + 32) ==> #[trigger] final(m)@[k]
                == old(m)@[k],
{
    let ghost src = m@;
    let len = m.len();
    let mut rows = [0u32; 32];
    let mut i: usize = 0;
    while i < 32
        invariant
            0 <= i <= 32,
            start + 32 <= m@.len(),
            m@ == src,
            rows@.len() == 32,
            forall|k: int| 0 <= k < i ==> rows@[k] == src[start + k],
        decreases 32 - i,
    {
        rows[i] = m[start + i];
        i += 1;
    }
    let mut j: usize = 0;
    while j < 32
        invariant
            0 <= j <= 32,
            start + 32 <= m@.len(),
            m@.len() == src.len(),
            len == src.len(),
            rows@.len() == 32,
            forall|k: int| 0 <= k < 32 ==> rows@[k] == src[start + k],
            forall|jj: u32, ii: u32|
                jj < j && ii < 32 ==> #[trigger] bit32(m@[start + jj], ii) == bit32(
                    src[start + ii],
                    jj,
                ),
            forall|k: int| 0 <= k < m@.len() && !(start <= k < start + j) ==> #[trigger] m@[k] == src[k],
        decreases 32 - j,
    {
        let mut w: u32 = 0;
        let mut ii: usize = 0;
        assert forall|b: u32| b < 32 implies #[trigger] bit32(w, b) == (b < ii && bit32(
            src[start + b],
            j as u32,
        )) by {
            lemma_bit32_zero(b);
        }
        while ii < 32
            invariant
                0 <= ii <= 32,
                j < 32,
                start + 32 <= m@.len(),
                m@.len() == src.len(),
                rows@.len() == 32,
                forall|k: int| 0 <= k < 32 ==> rows@[k] == src[start + k],
                forall|b: u32|
                    b < 32 ==> #[trigger] bit32(w, b) == (b < ii && bit32(src[start + b], j as u32)),
            decreases 32 - ii,
        {
            let ghost old_w = w;
            if (rows[ii] >> (j as u32)) & 1 == 1 {
                w = w | (1u32 << (ii as u32));
            }
            assert forall|b: u32| b < 32 implies #[trigger] bit32(w, b) == (b < ii + 1 && bit32(
                src[start + b],
                j as u32,
            )) by {
                lemma_bit32_set(old_w, ii as u32, b);
            }
            ii += 1;
        }
        let ghost prev = m@;
        m[start + j] = w;
        proof {
            assert forall|jj: u32, ii: u32| jj < j + 1 && ii < 32 implies #[trigger] bit32(
                m@[start + jj],
                ii,
            ) == bit32(src[start + ii], jj) by {
                if jj < j {
                    assert(m@[start + jj] == prev[start + jj]);
                }
            }
        }
        j += 1;
    }
}


/// Transposing the words as a matrix and then the bits of every inner slice
/// rotates the axes of the cube: the bit at slice `x`, row `y`, bit `z`
/// moves to slice `y`, row `z`, bit `x`.
pub proof fn lemma_transposes_rotate(a: Seq<u32>, b: Seq<u32>)
    requires
        a.len() == 1024,
        inner_transposed(outer_transposed(a), b),
    ensures
        forall|x: u32, y: int, z: int|
            x < 32 && 0 <= y < 32 && 0 <= z < 32 ==> #[trigger] bit32(b[32 * y + z], x) == bit32(
                a[32 * x + y],
                z as u32,
            ),
{
    assert forall|x: u32, y: int, z: int| x < 32 && 0 <= y < 32 && 0 <= z < 32 implies #[trigger] bit32(
        b[32 * y + z],
        x,
    ) == bit32(a[32 * x + y], z as u32) by {
        let o = outer_transposed(a);
        assert(bit32(b[32 * y + (z as u32)], x) == bit32(o[32 * y + x], z as u32));
        assert((32 * y + x) % 32 == x && (32 * y + x) / 32 == y);
    }
}

/// Transposing the words as a matrix twice gives them back.
pub proof fn lemma_outer_transpose_involution(a: Seq<u32>)
    requires
        a.len() == 1024,
    ensures
        outer_transposed(outer_transposed(a)) == a,
{
    let o = outer_transposed(a);
    assert forall|k: int| 0 <= k < 1024 implies #[trigger] outer_transposed(o)[k] == a[k] by {
        let m = (k % 32) * 32 + k / 32;
        assert(m % 32 == k / 32 && m / 32 == k % 32);
    }
    assert(outer_transposed(o) =~= a);
}

/// Transposing the bits of every inner slice twice gives the words back:
/// whatever `b` transposes `a` and `c` transposes `b`, `c` is `a`.
pub proof fn lemma_inner_transpose_involution(a: Seq<u32>, b: Seq<u32>, c: Seq<u32>)
    requires
        inner_transposed(a, b),
        inner_transposed(b, c),
    ensures
        c == a,
{
    assert forall|k: int| 0 <= k < 1024 implies #[trigger] c[k] == a[k] by {
        let s = k / 32;
        let j = (k % 32) as u32;
        assert(32 * s + j == k);
        assert forall|i: u32| i < 32 implies #[trigger] bit32(c[k], i) == bit32(a[k], i) by {
            assert(bit32(c[32 * s + j], i) == bit32(b[32 * s + i], j));
            assert(bit32(b[32 * s + i], j) == bit32(a[32 * s + j], i));
        }
        lemma_bit32_ext(c[k], a[k]);
    }
    assert(c =~= a);
}

} // verus!
