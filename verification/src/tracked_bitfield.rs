//! A bitfield that also keeps, for every inner slice, the mask of its nonzero
//! words (its active rows), and the mask of the slices that have an active
//! row (the active slices), so that operations can skip empty slices.
use vstd::prelude::*;
use vstd::std_specs::bits::u32_trailing_zeros;

use crate::bitfield::{
    lemma_bitfield_len, words_and, words_andnot, words_cull_lsb, words_cull_msb, words_or, words_shl,
    words_shr, words_xor, words_zero, xz_word, yz_word, Bitfield,
};
use crate::bits::{
    bit32, lemma_bit32_max, lemma_bit32_nonzero, lemma_bit32_or, lemma_bit32_set, lemma_bit32_zero,
    lemma_lowest_bit, lemma_u32_or_zero, lemma_u32_zero_fixed, lemma_u32_zero_merge,
};
use crate::lane_groups::{
    group_starts, lemma_group_of, lemma_group_pop, lemma_group_starts_zero, lemma_slice_groups_zero, lemma_slice_pop,
    slice_groups, valid_lanes,
};
use crate::loader::loaded;
use crate::transposes::{
    bits_transposed_at, inner_transpose_slice, inner_transposed, outer_transposed,
};
use std::ops::{
    BitAnd, BitAndAssign, BitOr, BitOrAssign, BitXor, BitXorAssign, Shl, ShlAssign, Shr, ShrAssign,
};

verus! {

broadcast use lemma_bitfield_len;

/// `rows[s]` has bit `r` set exactly when word `32 * s + r` is nonzero.
pub open spec fn rows_track(words: Seq<u32>, rows: Seq<u32>) -> bool {
    &&& rows.len() == 32
    &&& forall|s: int, r: u32|
        0 <= s < 32 && r < 32 ==> #[trigger] bit32(rows[s], r) == (words[32 * s + r] != 0)
}

/// `slices` has bit `s` set exactly when `rows[s]` is nonzero.
pub open spec fn slices_track(rows: Seq<u32>, slices: u32) -> bool {
    forall|s: u32| s < 32 ==> #[trigger] bit32(slices, s) == (rows[s as int] != 0)
}

/// Above this many active slices an operation walks every slice rather than
/// only the active ones.
pub const SPARSE_THRESHOLD: u32 = 21;

/// The word operation that a pass over the slices applies.
#[derive(Clone, Copy)]
enum WordOp {
    And,
    Or,
    Xor,
    AndNot,
    Shl(u32),
    Shr(u32),
    CullMsb,
    CullLsb,
}

spec fn op_ok(op: WordOp) -> bool {
    match op {
        WordOp::Shl(s) => s < 32,
        WordOp::Shr(s) => s < 32,
        _ => true,
    }
}

/// What `op` makes of word `cur`, with `other` the word of the second operand.
spec fn op_spec(op: WordOp, cur: u32, other: u32) -> u32 {
    match op {
        WordOp::And => cur & other,
        WordOp::Or => cur | other,
        WordOp::Xor => cur ^ other,
        WordOp::AndNot => cur & !other,
        WordOp::Shl(s) => cur << s,
        WordOp::Shr(s) => cur >> s,
        WordOp::CullMsb => cur & !(cur << 1u32),
        WordOp::CullLsb => cur & !(cur >> 1u32),
    }
}

fn apply_op(op: WordOp, cur: u32, other: u32) -> (r: u32)
    requires
        op_ok(op),
    ensures
        r == op_spec(op, cur, other),
{
    match op {
        WordOp::And => cur & other,
        WordOp::Or => cur | other,
        WordOp::Xor => cur ^ other,
        WordOp::AndNot => cur & !other,
        WordOp::Shl(s) => cur << s,
        WordOp::Shr(s) => cur >> s,
        WordOp::CullMsb => cur & !(cur << 1u32),
        WordOp::CullLsb => cur & !(cur >> 1u32),
    }
}

/// Word `w` of the second operand, zero where there is none.
spec fn other_word(other: Option<&Bitfield>, w: int) -> u32 {
    match other {
        Some(b) => b@[w],
        None => 0u32,
    }
}

/// The number of set bits among bits `0` to `k - 1` of `x`.
pub open spec fn count_bits(x: u32, k: nat) -> nat
    decreases k,
{
    if k == 0 {
        0
    } else {
        count_bits(x, (k - 1) as nat) + if bit32(x, (k - 1) as u32) {
            1nat
        } else {
            0nat
        }
    }
}

/// The number of set bits of `x`.
pub open spec fn popcount(x: u32) -> nat {
    count_bits(x, 32)
}

proof fn lemma_count_bits_zero(x: u32, k: nat)
    requires
        k <= 32,
    ensures
        (count_bits(x, k) == 0) == forall|i: u32| i < k ==> !#[trigger] bit32(x, i),
    decreases k,
{
    if k > 0 {
        lemma_count_bits_zero(x, (k - 1) as nat);
    }
}

/// A word with a set bit among its 32 has a nonzero count.
proof fn lemma_popcount_nonzero(x: u32)
    requires
        popcount(x) > 0,
    ensures
        x != 0,
{
    if x == 0 {
        assert forall|b: u32| b < 32 implies !#[trigger] bit32(x, b) by {
            lemma_bit32_zero(b);
        }
        lemma_count_bits_zero(x, 32);
    }
}

/// The bits among the lowest `k` that are set, counted one by one.
proof fn lemma_count_bits_card(x: u32, k: nat)
    requires
        k <= 32,
    ensures
        Set::new(|i: int| 0 <= i < k && bit32(x, i as u32)).finite(),
        count_bits(x, k) == Set::new(|i: int| 0 <= i < k && bit32(x, i as u32)).len(),
    decreases k,
{
    let here = Set::new(|i: int| 0 <= i < k && bit32(x, i as u32));
    if k == 0 {
        assert(here =~= Set::<int>::empty());
    } else {
        lemma_count_bits_card(x, (k - 1) as nat);
        let below = Set::new(|i: int| 0 <= i < k - 1 && bit32(x, i as u32));
        if bit32(x, (k - 1) as u32) {
            assert(here =~= below.insert(k - 1));
        } else {
            assert(here =~= below);
        }
    }
}

/// `popcount` counts the set bits: it is the number of positions below 32
/// whose bit is set.
pub proof fn lemma_popcount_is_card(x: u32)
    ensures
        popcount(x) == Set::new(|i: int| 0 <= i < 32 && bit32(x, i as u32)).len(),
        popcount(x) <= 32,
{
    lemma_count_bits_card(x, 32);
    let set_bits = Set::new(|i: int| 0 <= i < 32 && bit32(x, i as u32));
    vstd::set_lib::lemma_int_range(0, 32);
    vstd::set_lib::lemma_len_subset(set_bits, vstd::set_lib::set_int_range(0, 32));
}

/// Bits among the lowest `k`: clearing the lowest set bit `t` of `x` takes one
/// away from the count when `t` is among them.
proof fn lemma_count_bits_clear_lowest(x: u32, k: nat)
    requires
        x != 0,
        k <= 32,
    ensures
        count_bits(x, k) == count_bits(x & ((x - 1) as u32), k) + if u32_trailing_zeros(x) < k {
            1nat
        } else {
            0nat
        },
    decreases k,
{
    lemma_lowest_bit(x);
    if k > 0 {
        lemma_count_bits_clear_lowest(x, (k - 1) as nat);
    }
}

/// No bit set, no count; and clearing the lowest set bit of a nonzero word,
/// as `x & (x - 1)` does, lowers the count by one.
pub proof fn lemma_popcount_steps(x: u32)
    ensures
        x == 0 ==> popcount(x) == 0,
        x != 0 ==> popcount(x) == popcount(x & ((x - 1) as u32)) + 1,
{
    if x == 0 {
        assert forall|b: u32| b < 32 implies !#[trigger] bit32(x, b) by {
            lemma_bit32_zero(b);
        }
        lemma_count_bits_zero(x, 32);
    } else {
        lemma_lowest_bit(x);
        lemma_count_bits_clear_lowest(x, 32);
    }
}

/// Counts the set bits of `x`.
fn count_ones(x: u32) -> (r: u32)
    ensures
        r == popcount(x),
{
    let mut r: u32 = 0;
    let mut k: u32 = 0;
    while k < 32
        invariant
            k <= 32,
            r == count_bits(x, k as nat),
            r <= k,
        decreases 32 - k,
    {
        if (x >> k) & 1 == 1 {
            r += 1;
        }
        k += 1;
    }
    r
}

/// Whether a pass guided by the slice mask `guide` visits inner slice `s`:
/// every slice when more than the sparse threshold of `guide`'s bits are set,
/// none when none is, and otherwise the slices whose bit is set.
pub open spec fn slice_visited(guide: u32, s: int) -> bool {
    guide != 0 && (popcount(guide) > SPARSE_THRESHOLD || bit32(guide, s as u32))
}

/// The masks that a pass guided by `guide` leaves when it recomputes the
/// active rows of the slices it visits: those rows describe the new words, the
/// other rows stay, and the active-slice mask is recomputed from the rows
/// unless the pass visited nothing.
pub open spec fn masks_after_pass(
    guide: u32,
    old_rows: Seq<u32>,
    old_slices: u32,
    words: Seq<u32>,
    rows: Seq<u32>,
    slices: u32,
) -> bool {
    &&& rows.len() == 32
    &&& forall|s: int, r: u32|
        0 <= s < 32 && r < 32 ==> #[trigger] bit32(rows[s], r) == if slice_visited(guide, s) {
            words[32 * s + r] != 0
        } else {
            bit32(old_rows[s], r)
        }
    &&& if guide == 0 {
        slices == old_slices
    } else {
        slices_track(rows, slices)
    }
}

/// Walks the set bits of a slice mask, lowest first.
struct SparseSliceIndexIter {
    cur_slices: u32,
}

impl SparseSliceIndexIter {
    /// The lowest slice left, which is then dropped.
    fn next(&mut self) -> (r: Option<usize>)
        ensures
            old(self).cur_slices == 0 ==> r is None && final(self).cur_slices == 0,
            old(self).cur_slices != 0 ==> (r matches Some(s) && s < 32 && bit32(old(self).cur_slices, s as u32)
                && final(self).cur_slices < old(self).cur_slices
                && forall|i: u32| i < 32 ==> #[trigger] bit32(final(self).cur_slices, i) == (bit32(
                    old(self).cur_slices,
                    i,
                ) && i != s)),
    {
        if self.cur_slices == 0 {
            return None;
        }
        let slice = self.cur_slices.trailing_zeros();
        proof {
            lemma_lowest_bit(self.cur_slices);
        }
        self.cur_slices = self.cur_slices & (self.cur_slices - 1);
        Some(slice as usize)
    }
}

/// Walks, slice by slice, the groups of `LANES` rows that hold an active row:
/// first the groups of `cur_rows` in slice `slice`, then, for each slice left
/// in `cur_slices`, lowest first, the groups of its mask in `active_rows`.
/// Each group is given by the index of its first word.
struct SparseSimdIndexIter<'a, const LANES: u32> {
    active_rows: &'a [u32; 32],
    cur_slices: u32,
    cur_rows: u32,
    slice: u32,
}

impl<'a, const LANES: u32> SparseSimdIndexIter<'a, LANES> {
    /// The lane count is one a vector unit offers, and the slice is one of
    /// the cube's.
    spec fn valid(&self) -> bool {
        valid_lanes(LANES) && self.slice < 32
    }

    /// The word indices still to come, in order.
    spec fn yields(&self) -> Seq<int> {
        group_starts(self.cur_rows, LANES, 32 * self.slice, 0) + slice_groups(
            self.cur_slices,
            self.active_rows@,
            LANES,
            0,
        )
    }

    /// The next word index, or `None` once all have been given.
    fn next(&mut self) -> (r: Option<usize>)
        requires
            old(self).valid(),
        ensures
            final(self).valid(),
            match r {
                None => old(self).yields() == Seq::<int>::empty() && final(self).yields() == Seq::<
                    int,
                >::empty(),
                Some(i) => old(self).yields() == seq![i as int] + final(self).yields(),
            },
    {
        let ghost start = self.yields();
        loop
            invariant
                self.valid(),
                self.yields() == start,
                start == old(self).yields(),
            decreases self.cur_slices,
        {
            if self.cur_rows != 0 {
                proof {
                    lemma_group_of(0, LANES);
                }
                let lane_mask: u32 = (1u32 << LANES) - 1;
                let to_index_mask: u32 = !(LANES - 1);
                let ghost before = *self;
                let row = self.cur_rows.trailing_zeros() & to_index_mask;
                proof {
                    lemma_lowest_bit(self.cur_rows);
                    lemma_group_pop(self.cur_rows, LANES, 32 * self.slice, row, self.cur_rows & !(
                    lane_mask << row));
                }
                let i = self.slice * 32 + row;
                self.cur_rows = self.cur_rows & !(lane_mask << row);
                proof {
                    assert(before.yields() =~= seq![i as int] + self.yields());
                }
                return Some(i as usize);
            }
            if self.cur_slices == 0 {
                proof {
                    lemma_group_starts_zero(LANES, 32 * self.slice);
                    lemma_slice_groups_zero(self.active_rows@, LANES);
                    assert(self.yields() =~= Seq::<int>::empty());
                }
                return None;
            }
            let ghost before = *self;
            proof {
                lemma_slice_pop(self.cur_slices, self.active_rows@, LANES);
                lemma_group_starts_zero(LANES, 32 * self.slice);
                lemma_lowest_bit(self.cur_slices);
            }
            self.slice = self.cur_slices.trailing_zeros();
            self.cur_rows = self.active_rows[self.slice as usize];
            self.cur_slices = self.cur_slices & (self.cur_slices - 1);
            proof {
                assert(before.yields() =~= self.yields());
            }
        }
    }
}

/// Walks the groups of `LANES` slices that hold an active slice, each given
/// by its first slice, lowest first.
struct SparseSimdSliceIndexIter<const LANES: u32> {
    cur_slices: u32,
}

impl<const LANES: u32> SparseSimdSliceIndexIter<LANES> {
    /// The slice indices still to come, in order.
    spec fn yields(&self) -> Seq<int> {
        group_starts(self.cur_slices, LANES, 0, 0)
    }

    /// The next slice index, or `None` once all have been given.
    fn next(&mut self) -> (r: Option<usize>)
        requires
            valid_lanes(LANES),
        ensures
            match r {
                None => old(self).yields() == Seq::<int>::empty() && final(self).yields()
                    == old(self).yields(),
                Some(i) => old(self).yields() == seq![i as int] + final(self).yields(),
            },
    {
        if self.cur_slices == 0 {
            proof {
                lemma_group_starts_zero(LANES, 0);
            }
            return None;
        }
        proof {
            lemma_group_of(0, LANES);
        }
        let lane_mask: u32 = (1u32 << LANES) - 1;
        let to_index_mask: u32 = !(LANES - 1);
        let slice = self.cur_slices.trailing_zeros();
        let i = slice & to_index_mask;
        proof {
            lemma_group_pop(self.cur_slices, LANES, 0, i, self.cur_slices & !(lane_mask << i));
        }
        self.cur_slices = self.cur_slices & !(lane_mask << i);
        Some(i as usize)
    }
}

/// A bitfield with the masks of its active rows and slices.
#[derive(Clone, Copy, Debug, PartialEq, Eq)]
pub struct TrackedBitfield {
    bitfield: Bitfield,
    active_rows: [u32; 32],
    active_slices: u32,
}

impl TrackedBitfield {
    /// The words of the bitfield.
    pub closed spec fn words(&self) -> Seq<u32> {
        self.bitfield@
    }

    /// The active-row masks, one per inner slice.
    pub closed spec fn rows(&self) -> Seq<u32> {
        self.active_rows@
    }

    /// The active-slice mask.
    pub closed spec fn slices(&self) -> u32 {
        self.active_slices
    }

    /// The masks describe the words.
    pub open spec fn tracking(&self) -> bool {
        &&& rows_track(self.words(), self.rows())
        &&& slices_track(self.rows(), self.slices())
    }

    /// The mask of the nonzero words of inner slice `slice`.
    fn row_mask(&self, slice: usize) -> (r: u32)
        requires
            slice < 32,
        ensures
            forall|k: u32| k < 32 ==> #[trigger] bit32(r, k) == (self.words()[32 * slice + k] != 0),
    {
        let mut r: u32 = 0;
        let mut k: usize = 0;
        assert forall|b: u32| b < 32 implies #[trigger] bit32(r, b) == (b < k && self.words()[32
            * slice + b] != 0) by {
            lemma_bit32_zero(b);
        }
        while k < 32
            invariant
                0 <= k <= 32,
                slice < 32,
                forall|b: u32|
                    b < 32 ==> #[trigger] bit32(r, b) == (b < k && self.words()[32 * slice + b]
                        != 0),
            decreases 32 - k,
        {
            let ghost old_r = r;
            if self.bitfield.word(32 * slice + k) != 0 {
                r = r | (1u32 << (k as u32));
            }
            assert forall|b: u32| b < 32 implies #[trigger] bit32(r, b) == (b < k + 1
                && self.words()[32 * slice + b] != 0) by {
                lemma_bit32_set(old_r, k as u32, b);
            }
            k += 1;
        }
        r
    }

    /// Recomputes the active rows of inner slice `slice` from its words.
    fn update_slice_of_rows(&mut self, slice: usize)
        requires
            slice < 32,
        ensures
            final(self).words() == old(self).words(),
            final(self).slices() == old(self).slices(),
            final(self).rows() == old(self).rows().update(slice as int, final(self).rows()[slice as int]),
            forall|k: u32|
                k < 32 ==> #[trigger] bit32(final(self).rows()[slice as int], k) == (old(self).words()[32
                    * slice + k] != 0),
    {
        let m = self.row_mask(slice);
        self.active_rows[slice] = m;
    }

    /// Recomputes the active-slice mask from the active rows.
    fn update_all_slices(&mut self)
        ensures
            final(self).words() == old(self).words(),
            final(self).rows() == old(self).rows(),
            slices_track(final(self).rows(), final(self).slices()),
    {
        let mut r: u32 = 0;
        let mut k: usize = 0;
        assert forall|b: u32| b < 32 implies #[trigger] bit32(r, b) == (b < k && self.rows()[b as int]
            != 0) by {
            lemma_bit32_zero(b);
        }
        while k < 32
            invariant
                0 <= k <= 32,
                self.rows().len() == 32,
                forall|b: u32|
                    b < 32 ==> #[trigger] bit32(r, b) == (b < k && self.rows()[b as int] != 0),
            decreases 32 - k,
        {
            let ghost old_r = r;
            if self.active_rows[k] != 0 {
                r = r | (1u32 << (k as u32));
            }
            assert forall|b: u32| b < 32 implies #[trigger] bit32(r, b) == (b < k + 1
                && self.rows()[b as int] != 0) by {
                lemma_bit32_set(old_r, k as u32, b);
            }
            k += 1;
        }
        self.active_slices = r;
    }

    /// Recomputes every mask from the words.
    pub fn update_tracking(&mut self)
        ensures
            final(self).words() == old(self).words(),
            final(self).tracking(),
    {
        let mut i: usize = 0;
        while i < 32
            invariant
                0 <= i <= 32,
                self.words() == old(self).words(),
                self.rows().len() == 32,
                forall|s: int, r: u32|
                    0 <= s < i && r < 32 ==> #[trigger] bit32(self.rows()[s], r) == (self.words()[32
                        * s + r] != 0),
            decreases 32 - i,
        {
            let ghost prev = self.rows();
            self.update_slice_of_rows(i);
            assert forall|s: int, r: u32| 0 <= s < i + 1 && r < 32 implies #[trigger] bit32(
                self.rows()[s],
                r,
            ) == (self.words()[32 * s + r] != 0) by {
                if s < i {
                    assert(self.rows()[s] == prev[s]);
                }
            }
            i += 1;
        }
        self.update_all_slices();
    }

    /// A tracked bitfield whose every word is `val`.
    pub fn new(val: u32) -> (r: Self)
        ensures
            r.words() == Seq::new(1024, |_i: int| val),
            r.tracking(),
    {
        let active_val: u32 = if val == 0 { 0 } else { u32::MAX };
        let r = TrackedBitfield {
            bitfield: Bitfield::new(val),
            active_rows: [active_val; 32],
            active_slices: active_val,
        };
        proof {
            assert forall|b: u32| b < 32 implies #[trigger] bit32(active_val, b) == (val != 0) by {
                lemma_bit32_zero(b);
                lemma_bit32_max(b);
            }
        }
        r
    }

    /// Sets every word to `val`.
    pub fn fill(&mut self, val: u32)
        ensures
            final(self).words() == Seq::new(1024, |_i: int| val),
            final(self).tracking(),
    {
        self.bitfield.fill(val);
        let active_val: u32 = if val == 0 { 0 } else { u32::MAX };
        self.active_rows = [active_val; 32];
        self.active_slices = active_val;
        proof {
            assert forall|b: u32| b < 32 implies #[trigger] bit32(active_val, b) == (val != 0) by {
                lemma_bit32_zero(b);
                lemma_bit32_max(b);
            }
        }
    }

    /// A tracked bitfield holding the words of `bitfield`.
    pub fn from_bitfield(bitfield: Bitfield) -> (r: Self)
        ensures
            r.words() == bitfield@,
            r.tracking(),
    {
        let mut result = TrackedBitfield { bitfield, active_rows: [0; 32], active_slices: 0 };
        result.update_tracking();
        result
    }

    /// The words, borrowed.
    pub fn as_array(&self) -> (r: &[u32; 1024])
        ensures
            r@ == self.words(),
    {
        self.bitfield.as_array()
    }

    /// The words, borrowed as a slice.
    pub fn as_slice(&self) -> (r: &[u32])
        ensures
            r@ == self.words(),
    {
        self.bitfield.as_slice()
    }

    /// The words, borrowed mutably as a slice; the masks are left as they are,
    /// and `update_tracking` brings them back in line.
    pub fn as_mut_slice(&mut self) -> (r: &mut [u32])
        ensures
            r@ == old(self).words(),
            final(self).words() == final(r)@,
            final(self).rows() == old(self).rows(),
            final(self).slices() == old(self).slices(),
    {
        self.bitfield.as_mut_slice()
    }

    /// The plain bitfield, borrowed.
    pub fn as_bitfield(&self) -> (r: &Bitfield)
        ensures
            r@ == self.words(),
    {
        &self.bitfield
    }

    /// The plain bitfield, borrowed mutably; the masks are left as they are,
    /// and `update_tracking` brings them back in line.
    pub fn as_mut_bitfield(&mut self) -> (r: &mut Bitfield)
        ensures
            r@ == old(self).words(),
            final(self).words() == final(r)@,
            final(self).rows() == old(self).rows(),
            final(self).slices() == old(self).slices(),
    {
        &mut self.bitfield
    }

    /// The active-slice mask.
    pub fn get_active_slices(&self) -> (r: u32)
        ensures
            r == self.slices(),
    {
        self.active_slices
    }

    /// The active-row mask of inner slice `slice`.
    pub fn get_active_rows(&self, slice: usize) -> (r: u32)
        requires
            slice < 32,
        ensures
            r == self.rows()[slice as int],
    {
        self.active_rows[slice]
    }

    /// A walk over the groups of `LANES` rows of `rows` that hold an active
    /// row, slice by active slice. It starts inside the lowest active slice
    /// and then walks every active slice from the lowest, so that slice comes
    /// twice.
    fn simd_active_bit_iter<'a, const LANES: u32>(&self, rows: &'a [u32; 32]) -> (r:
        SparseSimdIndexIter<'a, LANES>)
        requires
            valid_lanes(LANES),
            self.slices() != 0,
        ensures
            r.valid(),
            r.yields() == group_starts(
                rows@[u32_trailing_zeros(self.slices()) as int],
                LANES,
                32 * u32_trailing_zeros(self.slices()),
                0,
            ) + slice_groups(self.slices(), rows@, LANES, 0),
    {
        proof {
            lemma_lowest_bit(self.active_slices);
        }
        let first = self.active_slices.trailing_zeros();
        SparseSimdIndexIter {
            active_rows: rows,
            cur_slices: self.active_slices,
            cur_rows: rows[first as usize],
            slice: first,
        }
    }

    /// A walk over the groups of `LANES` slices that hold an active slice.
    fn simd_active_slice_iter<const LANES: u32>(&self) -> (r: SparseSimdSliceIndexIter<LANES>)
        ensures
            r.yields() == group_starts(self.slices(), LANES, 0, 0),
    {
        SparseSimdSliceIndexIter { cur_slices: self.active_slices }
    }
}


impl TrackedBitfield {
    /// Applies `op` to the 32 words of inner slice `slice`, and recomputes the
    /// slice's active rows when `track` is set.
    fn process_slice(&mut self, slice: usize, op: WordOp, other: Option<&Bitfield>, track: bool)
        requires
            slice < 32,
            op_ok(op),
        ensures
            final(self).words().len() == 1024,
            forall|w: int|
                0 <= w < 1024 ==> #[trigger] final(self).words()[w] == if 32 * slice <= w < 32 * slice
                    + 32 {
                    op_spec(op, old(self).words()[w], other_word(other, w))
                } else {
                    old(self).words()[w]
                },
            final(self).slices() == old(self).slices(),
            !track ==> final(self).rows() == old(self).rows(),
            track ==> final(self).rows() == old(self).rows().update(slice as int, final(self).rows()[slice as int]),
            track ==> forall|k: u32|
                k < 32 ==> #[trigger] bit32(final(self).rows()[slice as int], k) == (final(self).words()[32
                    * slice + k] != 0),
    {
        let ghost old_words = self.words();
        let mut k: usize = 0;
        while k < 32
            invariant
                0 <= k <= 32,
                slice < 32,
                op_ok(op),
                self.rows() == old(self).rows(),
                self.slices() == old(self).slices(),
                self.words().len() == 1024,
                old_words == old(self).words(),
                forall|w: int|
                    0 <= w < 1024 ==> #[trigger] self.words()[w] == if 32 * slice <= w < 32 * slice + k {
                        op_spec(op, old_words[w], other_word(other, w))
                    } else {
                        old_words[w]
                    },
            decreases 32 - k,
        {
            let w = 32 * slice + k;
            let o = match other {
                Some(b) => b.word(w),
                None => 0,
            };
            let cur = self.bitfield.word(w);
            let res = apply_op(op, cur, o);
            self.bitfield.put_word(w, res);
            k += 1;
        }
        if track {
            self.update_slice_of_rows(slice);
        }
    }

    /// Applies `op` to every slice whose bit is set in `guide`; to all of them
    /// when more than the sparse threshold are set, and to none when none is.
    fn process_slices(&mut self, guide: u32, op: WordOp, other: Option<&Bitfield>, track: bool)
        requires
            op_ok(op),
        ensures
            final(self).words().len() == 1024,
            forall|w: int|
                0 <= w < 1024 ==> #[trigger] final(self).words()[w] == if slice_visited(guide, w / 32) {
                    op_spec(op, old(self).words()[w], other_word(other, w))
                } else {
                    old(self).words()[w]
                },
            !track ==> final(self).rows() == old(self).rows() && final(self).slices() == old(
                self,
            ).slices(),
            track && rows_track(old(self).words(), old(self).rows()) ==> rows_track(
                final(self).words(),
                final(self).rows(),
            ),
            track && slices_track(old(self).rows(), old(self).slices()) ==> slices_track(
                final(self).rows(),
                final(self).slices(),
            ),
            track ==> masks_after_pass(
                guide,
                old(self).rows(),
                old(self).slices(),
                final(self).words(),
                final(self).rows(),
                final(self).slices(),
            ),
    {
        let ghost old_words = self.words();
        let ghost old_rows = self.rows();
        if guide == 0 {
            return;
        }
        if count_ones(guide) > SPARSE_THRESHOLD {
            let mut slice: usize = 0;
            while slice < 32
                invariant
                    0 <= slice <= 32,
                    op_ok(op),
                    guide != 0,
                    popcount(guide) > SPARSE_THRESHOLD,
                    old_words.len() == 1024,
                    self.words().len() == 1024,
                    forall|w: int|
                        0 <= w < 1024 ==> #[trigger] self.words()[w] == if w < 32 * slice {
                            op_spec(op, old_words[w], other_word(other, w))
                        } else {
                            old_words[w]
                        },
                    !track ==> self.rows() == old_rows && self.slices() == old(self).slices(),
                    track ==> self.rows().len() == 32,
                    track && rows_track(old_words, old_rows) ==> forall|s: int, r: u32|
                        0 <= s < 32 && r < 32 ==> #[trigger] bit32(self.rows()[s], r) == (
                        self.words()[32 * s + r] != 0),
                    track ==> forall|s: int, r: u32|
                        0 <= s < 32 && r < 32 ==> #[trigger] bit32(self.rows()[s], r) == if s < slice {
                            self.words()[32 * s + r] != 0
                        } else {
                            bit32(old_rows[s], r)
                        },
                    track ==> self.slices() == old(self).slices(),
                decreases 32 - slice,
            {
                let ghost prev_rows = self.rows();
                let ghost prev_words = self.words();
                self.process_slice(slice, op, other, track);
                proof {
                    if track {
                        assert forall|s: int, r: u32|
                            0 <= s < 32 && r < 32 implies #[trigger] bit32(self.rows()[s], r) == if s
                            < slice + 1 {
                            self.words()[32 * s + r] != 0
                        } else {
                            bit32(old_rows[s], r)
                        } by {
                            if s != slice {
                                assert(self.rows()[s] == prev_rows[s]);
                                assert(self.words()[32 * s + r] == prev_words[32 * s + r]);
                            }
                        }
                    }
                    if track && rows_track(old_words, old_rows) {
                        assert forall|s: int, r: u32|
                            0 <= s < 32 && r < 32 implies #[trigger] bit32(self.rows()[s], r) == (
                            self.words()[32 * s + r] != 0) by {
                            if s != slice {
                                assert(self.rows()[s] == prev_rows[s]);
                                assert(self.words()[32 * s + r] == prev_words[32 * s + r]);
                            }
                        }
                    }
                }
                slice += 1;
            }
        } else {
            let mut iter = SparseSliceIndexIter { cur_slices: guide };
            loop
                invariant
                    op_ok(op),
                    guide != 0,
                    popcount(guide) <= SPARSE_THRESHOLD,
                    old_words.len() == 1024,
                    self.words().len() == 1024,
                    forall|s: u32| s < 32 && #[trigger] bit32(iter.cur_slices, s) ==> bit32(guide, s),
                    forall|w: int|
                        0 <= w < 1024 ==> #[trigger] self.words()[w] == if bit32(guide, (w / 32) as u32)
                            && !bit32(iter.cur_slices, (w / 32) as u32) {
                            op_spec(op, old_words[w], other_word(other, w))
                        } else {
                            old_words[w]
                        },
                    !track ==> self.rows() == old_rows && self.slices() == old(self).slices(),
                    track ==> self.rows().len() == 32,
                    track && rows_track(old_words, old_rows) ==> forall|s: int, r: u32|
                        0 <= s < 32 && r < 32 ==> #[trigger] bit32(self.rows()[s], r) == (
                        self.words()[32 * s + r] != 0),
                    track ==> forall|s: int, r: u32|
                        0 <= s < 32 && r < 32 ==> #[trigger] bit32(self.rows()[s], r) == if bit32(
                            guide,
                            s as u32,
                        ) && !bit32(iter.cur_slices, s as u32) {
                            self.words()[32 * s + r] != 0
                        } else {
                            bit32(old_rows[s], r)
                        },
                    track ==> self.slices() == old(self).slices(),
                ensures
                    track ==> forall|s: int, r: u32|
                        0 <= s < 32 && r < 32 ==> #[trigger] bit32(self.rows()[s], r) == if bit32(
                            guide,
                            s as u32,
                        ) {
                            self.words()[32 * s + r] != 0
                        } else {
                            bit32(old_rows[s], r)
                        },
                    forall|w: int|
                        0 <= w < 1024 ==> #[trigger] self.words()[w] == if bit32(guide, (w / 32) as u32) {
                            op_spec(op, old_words[w], other_word(other, w))
                        } else {
                            old_words[w]
                        },
                decreases iter.cur_slices,
            {
                let ghost prev_rows = self.rows();
                let ghost prev_words = self.words();
                let ghost prev_cur = iter.cur_slices;
                match iter.next() {
                    Some(slice) => {
                        self.process_slice(slice, op, other, track);
                        proof {
                            assert forall|w: int| 0 <= w < 1024 implies #[trigger] self.words()[w]
                                == if bit32(guide, (w / 32) as u32) && !bit32(
                                iter.cur_slices,
                                (w / 32) as u32,
                            ) {
                                op_spec(op, old_words[w], other_word(other, w))
                            } else {
                                old_words[w]
                            } by {
                                assert(bit32(iter.cur_slices, (w / 32) as u32) == (bit32(
                                    prev_cur,
                                    (w / 32) as u32,
                                ) && (w / 32) as u32 != slice as u32));
                            }
                            if track {
                                assert forall|s: int, r: u32|
                                    0 <= s < 32 && r < 32 implies #[trigger] bit32(self.rows()[s], r)
                                    == if bit32(guide, s as u32) && !bit32(iter.cur_slices, s as u32) {
                                    self.words()[32 * s + r] != 0
                                } else {
                                    bit32(old_rows[s], r)
                                } by {
                                    assert(bit32(iter.cur_slices, s as u32) == (bit32(prev_cur, s as u32)
                                        && s as u32 != slice as u32));
                                    if s != slice {
                                        assert(self.rows()[s] == prev_rows[s]);
                                        assert(self.words()[32 * s + r] == prev_words[32 * s + r]);
                                    }
                                }
                            }
                            if track && rows_track(old_words, old_rows) {
                                assert forall|s: int, r: u32|
                                    0 <= s < 32 && r < 32 implies #[trigger] bit32(self.rows()[s], r)
                                    == (self.words()[32 * s + r] != 0) by {
                                    if s != slice {
                                        assert(self.rows()[s] == prev_rows[s]);
                                        assert(self.words()[32 * s + r] == prev_words[32 * s + r]);
                                    }
                                }
                            }
                        }
                    },
                    None => {
                        proof {
                            assert forall|w: int| 0 <= w < 1024 implies #[trigger] self.words()[w]
                                == if bit32(guide, (w / 32) as u32) {
                                    op_spec(op, old_words[w], other_word(other, w))
                                } else {
                                    old_words[w]
                                } by {
                                lemma_bit32_zero((w / 32) as u32);
                            }
                            if track {
                                assert forall|s: int, r: u32|
                                    0 <= s < 32 && r < 32 implies #[trigger] bit32(self.rows()[s], r)
                                    == if bit32(guide, s as u32) {
                                    self.words()[32 * s + r] != 0
                                } else {
                                    bit32(old_rows[s], r)
                                } by {
                                    lemma_bit32_zero(s as u32);
                                }
                            }
                        }
                        break;
                    },
                }
            }
        }
        if track {
            self.update_all_slices();
        }
    }
}


/// A tracked bitfield of zero words has zero masks.
proof fn lemma_new_zero_masks(t: TrackedBitfield)
    requires
        t.tracking(),
        t.words() == Seq::new(1024, |_i: int| 0u32),
    ensures
        forall|s: int| 0 <= s < 32 ==> #[trigger] t.rows()[s] == 0u32,
        t.slices() == 0,
{
    assert forall|s: int| 0 <= s < 32 implies #[trigger] t.rows()[s] == 0u32 by {
        if t.rows()[s] != 0u32 {
            lemma_bit32_nonzero(t.rows()[s]);
            let r = choose|r: u32| r < 32 && #[trigger] bit32(t.rows()[s], r);
            assert(t.words()[32 * s + r] == 0u32);
        }
    }
    if t.slices() != 0 {
        lemma_bit32_nonzero(t.slices());
        let s = choose|s: u32| s < 32 && #[trigger] bit32(t.slices(), s);
        assert(t.rows()[s as int] == 0u32);
    }
}

/// The 32 words of inner slice `s` all equal `v`.
pub open spec fn slice_all(words: Seq<u32>, s: int, v: u32) -> bool {
    forall|k: int| 0 <= k < 32 ==> #[trigger] words[32 * s + k] == v
}

/// Whether `inner_transpose`, on a bitfield with active-slice mask `slices`
/// and words `words`, rewrites inner slice `s`: it visits the slice and does
/// not skip it as all ones, or, when it visits every slice, as all zeros.
pub open spec fn transpose_rewrites(slices: u32, words: Seq<u32>, s: int) -> bool {
    &&& slice_visited(slices, s)
    &&& !slice_all(words, s, u32::MAX)
    &&& !(popcount(slices) > SPARSE_THRESHOLD && slice_all(words, s, 0u32))
}

/// When the masks described the words, `inner_transpose` transposes every
/// slice and keeps the masks in line.
proof fn lemma_inner_transpose_tracks(old_t: TrackedBitfield, new_t: TrackedBitfield)
    requires
        forall|s: int|
            0 <= s < 32 && slice_visited(old_t.slices(), s) ==> #[trigger] bits_transposed_at(
                old_t.words(),
                new_t.words(),
                32 * s,
            ),
        forall|w: int|
            0 <= w < 1024 && !transpose_rewrites(old_t.slices(), old_t.words(), w / 32)
                ==> #[trigger] new_t.words()[w] == old_t.words()[w],
        forall|s: int, k: u32|
            0 <= s < 32 && k < 32 ==> #[trigger] bit32(new_t.rows()[s], k) == if transpose_rewrites(
                old_t.slices(),
                old_t.words(),
                s,
            ) {
                new_t.words()[32 * s + k] != 0
            } else {
                bit32(old_t.rows()[s], k)
            },
        new_t.slices() == old_t.slices(),
    ensures
        old_t.tracking() ==> inner_transposed(old_t.words(), new_t.words()) && new_t.tracking(),
{
    if old_t.tracking() {
        let g = old_t.slices();
        assert forall|s: int, k: u32| 0 <= s < 32 && k < 32 implies #[trigger] bit32(new_t.rows()[s], k)
            == (new_t.words()[32 * s + k] != 0) by {
            if !transpose_rewrites(g, old_t.words(), s) {
                assert((32 * s + k) / 32 == s);
                assert(new_t.words()[32 * s + k] == old_t.words()[32 * s + k]);
            }
        }
        assert forall|s: int| 0 <= s < 32 implies #[trigger] bits_transposed_at(
            old_t.words(),
            new_t.words(),
            32 * s,
        ) by {
            if !slice_visited(g, s) {
                assert forall|k: int| 0 <= k < 32 implies #[trigger] old_t.words()[32 * s + k]
                    == 0u32 by {
                    assert((32 * s + k) / 32 == s);
                    lemma_inactive_zero(old_t, 32 * s + k);
                }
                lemma_homogeneous_fixed(old_t.words(), 32 * s);
                assert forall|a: u32, b: u32| a < 32 && b < 32 implies #[trigger] bit32(
                    new_t.words()[32 * s + b],
                    a,
                ) == bit32(old_t.words()[32 * s + a], b) by {
                    assert((32 * s + b) / 32 == s);
                    assert(new_t.words()[32 * s + b] == old_t.words()[32 * s + b]);
                }
            }
        }
        assert forall|s: int, a: u32, b: u32| 0 <= s < 32 && a < 32 && b < 32 implies #[trigger] bit32(
            new_t.words()[32 * s + b],
            a,
        ) == bit32(old_t.words()[32 * s + a], b) by {
            assert(bits_transposed_at(old_t.words(), new_t.words(), 32 * s));
        }
        assert forall|s: u32| s < 32 implies #[trigger] bit32(new_t.slices(), s) == (
        new_t.rows()[s as int] != 0) by {
            lemma_rows_nonzero(old_t.words(), old_t.rows(), s as int);
            lemma_rows_nonzero(new_t.words(), new_t.rows(), s as int);
            assert(bits_transposed_at(old_t.words(), new_t.words(), 32 * s));
            lemma_transpose_nonzero(old_t.words(), new_t.words(), 32 * s);
        }
    }
}

/// A word of an inactive slice is zero.
proof fn lemma_inactive_zero(t: TrackedBitfield, w: int)
    requires
        t.tracking(),
        0 <= w < 1024,
        !slice_visited(t.slices(), w / 32),
    ensures
        t.words()[w] == 0,
{
    let s = w / 32;
    let r = (w % 32) as u32;
    lemma_bit32_zero(s as u32);
    assert(!bit32(t.slices(), s as u32));
    assert(t.rows()[s] == 0);
    lemma_bit32_zero(r);
    assert(bit32(t.rows()[s], r) == (t.words()[32 * s + r] != 0));
    assert(32 * s + r == w);
}

/// A slice whose words are all zero, or all ones, is its own transpose.
proof fn lemma_homogeneous_fixed(a: Seq<u32>, start: int)
    requires
        0 <= start,
        start + 32 <= a.len(),
        (forall|k: int| 0 <= k < 32 ==> #[trigger] a[start + k] == 0u32) || (forall|k: int|
            0 <= k < 32 ==> #[trigger] a[start + k] == u32::MAX),
    ensures
        bits_transposed_at(a, a, start),
{
    assert forall|i: u32, j: u32| i < 32 && j < 32 implies #[trigger] bit32(a[start + j], i) == bit32(
        a[start + i],
        j,
    ) by {
        lemma_bit32_zero(i);
        lemma_bit32_zero(j);
        lemma_bit32_max(i);
        lemma_bit32_max(j);
        if forall|k: int| 0 <= k < 32 ==> #[trigger] a[start + k] == 0u32 {
            assert(a[start + j as int] == 0u32 && a[start + i as int] == 0u32);
        } else {
            assert(a[start + j as int] == u32::MAX && a[start + i as int] == u32::MAX);
        }
    }
}

/// Transposing a slice keeps whether it has a nonzero word.
proof fn lemma_transpose_nonzero(a: Seq<u32>, b: Seq<u32>, start: int)
    requires
        0 <= start,
        start + 32 <= a.len(),
        start + 32 <= b.len(),
        bits_transposed_at(a, b, start),
    ensures
        (exists|k: int| 0 <= k < 32 && #[trigger] a[start + k] != 0) == (exists|k: int|
            0 <= k < 32 && #[trigger] b[start + k] != 0),
{
    if exists|k: int| 0 <= k < 32 && #[trigger] a[start + k] != 0 {
        let k = choose|k: int| 0 <= k < 32 && #[trigger] a[start + k] != 0;
        lemma_bit32_nonzero(a[start + k]);
        let j = choose|j: u32| j < 32 && #[trigger] bit32(a[start + k], j);
        assert(bit32(b[start + j], k as u32) == bit32(a[start + (k as u32)], j));
        lemma_bit32_zero(k as u32);
        assert(b[start + j] != 0);
    }
    if exists|k: int| 0 <= k < 32 && #[trigger] b[start + k] != 0 {
        let k = choose|k: int| 0 <= k < 32 && #[trigger] b[start + k] != 0;
        lemma_bit32_nonzero(b[start + k]);
        let i = choose|i: u32| i < 32 && #[trigger] bit32(b[start + k], i);
        assert(bit32(b[start + (k as u32)], i) == bit32(a[start + i], k as u32));
        lemma_bit32_zero(k as u32);
        assert(a[start + i] != 0);
    }
}

/// A slice's active-row mask is nonzero exactly when the slice has a nonzero word.
proof fn lemma_rows_nonzero(words: Seq<u32>, rows: Seq<u32>, s: int)
    requires
        rows_track(words, rows),
        0 <= s < 32,
    ensures
        (rows[s] != 0) == (exists|k: int| 0 <= k < 32 && #[trigger] words[32 * s + k] != 0),
{
    if rows[s] != 0 {
        lemma_bit32_nonzero(rows[s]);
        let r = choose|r: u32| r < 32 && #[trigger] bit32(rows[s], r);
        assert(words[32 * s + r] != 0);
    }
    if exists|k: int| 0 <= k < 32 && #[trigger] words[32 * s + k] != 0 {
        let k = choose|k: int| 0 <= k < 32 && #[trigger] words[32 * s + k] != 0;
        assert(bit32(rows[s], k as u32));
        lemma_bit32_zero(k as u32);
    }
}

impl TrackedBitfield {
    /// A pass over this bitfield's own active slices.
    fn process_simd(&mut self, op: WordOp, other: Option<&Bitfield>, track: bool)
        requires
            op_ok(op),
        ensures
            final(self).words().len() == 1024,
            forall|w: int|
                0 <= w < 1024 ==> #[trigger] final(self).words()[w] == if slice_visited(
                    old(self).slices(),
                    w / 32,
                ) {
                    op_spec(op, old(self).words()[w], other_word(other, w))
                } else {
                    old(self).words()[w]
                },
            !track ==> final(self).rows() == old(self).rows() && final(self).slices() == old(
                self,
            ).slices(),
            track && rows_track(old(self).words(), old(self).rows()) ==> rows_track(
                final(self).words(),
                final(self).rows(),
            ),
            track && slices_track(old(self).rows(), old(self).slices()) ==> slices_track(
                final(self).rows(),
                final(self).slices(),
            ),
            track ==> masks_after_pass(
                old(self).slices(),
                old(self).rows(),
                old(self).slices(),
                final(self).words(),
                final(self).rows(),
                final(self).slices(),
            ),
    {
        let guide = self.active_slices;
        self.process_slices(guide, op, other, track);
    }

    /// A pass over the active slices of `guide`.
    fn process_simd_guided(&mut self, guide: &Self, op: WordOp, other: Option<&Bitfield>, track: bool)
        requires
            op_ok(op),
        ensures
            final(self).words().len() == 1024,
            forall|w: int|
                0 <= w < 1024 ==> #[trigger] final(self).words()[w] == if slice_visited(
                    guide.slices(),
                    w / 32,
                ) {
                    op_spec(op, old(self).words()[w], other_word(other, w))
                } else {
                    old(self).words()[w]
                },
            !track ==> final(self).rows() == old(self).rows() && final(self).slices() == old(
                self,
            ).slices(),
            track && rows_track(old(self).words(), old(self).rows()) ==> rows_track(
                final(self).words(),
                final(self).rows(),
            ),
            track && slices_track(old(self).rows(), old(self).slices()) ==> slices_track(
                final(self).rows(),
                final(self).slices(),
            ),
            track ==> masks_after_pass(
                guide.slices(),
                old(self).rows(),
                old(self).slices(),
                final(self).words(),
                final(self).rows(),
                final(self).slices(),
            ),
    {
        self.process_slices(guide.active_slices, op, other, track);
    }

    /// Merges the active rows and slices of `rhs` into these, as a union.
    fn process_rows_or(&mut self, rhs: &Self)
        ensures
            final(self).words() == old(self).words(),
            final(self).rows().len() == 32,
            forall|s: int| 0 <= s < 32 ==> #[trigger] final(self).rows()[s] == old(self).rows()[s] | rhs.rows()[s],
            final(self).slices() == old(self).slices() | rhs.slices(),
    {
        let mut k: usize = 0;
        while k < 32
            invariant
                0 <= k <= 32,
                self.words() == old(self).words(),
                self.slices() == old(self).slices(),
                self.rows().len() == 32,
                forall|s: int| 0 <= s < k ==> #[trigger] self.rows()[s] == old(self).rows()[s] | rhs.rows()[s],
                forall|s: int| k <= s < 32 ==> #[trigger] self.rows()[s] == old(self).rows()[s],
            decreases 32 - k,
        {
            self.active_rows[k] = self.active_rows[k] | rhs.active_rows[k];
            k += 1;
        }
        self.active_slices = self.active_slices | rhs.active_slices;
    }
}

impl BitAndAssign for TrackedBitfield {
    /// Intersects with `rhs`, visiting only this bitfield's active slices.
    fn bitand_assign(&mut self, rhs: Self)
        ensures
            forall|w: int|
                0 <= w < 1024 ==> #[trigger] final(self).words()[w] == if slice_visited(old(self).slices(), w / 32) {
                    old(self).words()[w] & rhs.words()[w]
                } else {
                    old(self).words()[w]
                },
            old(self).tracking() ==> final(self).words() == words_and(old(self).words(), rhs.words())
                && final(self).tracking(),
            masks_after_pass(
                old(self).slices(),
                old(self).rows(),
                old(self).slices(),
                final(self).words(),
                final(self).rows(),
                final(self).slices(),
            ),
    {
        let ghost old_self = *self;
        self.process_simd(WordOp::And, Some(&rhs.bitfield), true);
        proof {
            if old_self.tracking() {
                assert forall|w: int| 0 <= w < 1024 implies #[trigger] self.words()[w] == words_and(
                    old_self.words(),
                    rhs.words(),
                )[w] by {
                    if !slice_visited(old_self.slices(), w / 32) {
                        lemma_inactive_zero(old_self, w);
                        lemma_u32_zero_fixed(rhs.words()[w], 0);
                    }
                }
                assert(self.words() =~= words_and(old_self.words(), rhs.words()));
            }
        }
    }
}

impl BitOrAssign for TrackedBitfield {
    /// Unites with `rhs`, visiting only the active slices of `rhs`.
    fn bitor_assign(&mut self, rhs: Self)
        ensures
            final(self).rows().len() == 32,
            forall|s: int| 0 <= s < 32 ==> #[trigger] final(self).rows()[s] == old(self).rows()[s] | rhs.rows()[s],
            final(self).slices() == old(self).slices() | rhs.slices(),
            forall|w: int|
                0 <= w < 1024 ==> #[trigger] final(self).words()[w] == if slice_visited(rhs.slices(), w / 32) {
                    old(self).words()[w] | rhs.words()[w]
                } else {
                    old(self).words()[w]
                },
            old(self).tracking() && rhs.tracking() ==> final(self).words() == words_or(
                old(self).words(),
                rhs.words(),
            ) && final(self).tracking(),
    {
        let ghost old_self = *self;
        self.process_simd_guided(&rhs, WordOp::Or, Some(&rhs.bitfield), false);
        self.process_rows_or(&rhs);
        proof {
            if old_self.tracking() && rhs.tracking() {
                assert forall|w: int| 0 <= w < 1024 implies #[trigger] self.words()[w] == words_or(
                    old_self.words(),
                    rhs.words(),
                )[w] by {
                    if !slice_visited(rhs.slices(), w / 32) {
                        lemma_inactive_zero(rhs, w);
                        lemma_u32_zero_fixed(old_self.words()[w], 0);
                    }
                }
                assert(self.words() =~= words_or(old_self.words(), rhs.words()));
                assert forall|s: int, r: u32| 0 <= s < 32 && r < 32 implies #[trigger] bit32(
                    self.rows()[s],
                    r,
                ) == (self.words()[32 * s + r] != 0) by {
                    lemma_bit32_or(old_self.rows()[s], rhs.rows()[s], r);
                    lemma_u32_or_zero(old_self.words()[32 * s + r], rhs.words()[32 * s + r]);
                }
                assert forall|s: u32| s < 32 implies #[trigger] bit32(self.slices(), s) == (
                self.rows()[s as int] != 0) by {
                    lemma_bit32_or(old_self.slices(), rhs.slices(), s);
                    lemma_u32_or_zero(old_self.rows()[s as int], rhs.rows()[s as int]);
                }
            }
        }
    }
}

impl BitXorAssign for TrackedBitfield {
    /// Exclusive-ors with `rhs`, visiting only the active slices of `rhs`.
    fn bitxor_assign(&mut self, rhs: Self)
        ensures
            forall|w: int|
                0 <= w < 1024 ==> #[trigger] final(self).words()[w] == if slice_visited(rhs.slices(), w / 32) {
                    old(self).words()[w] ^ rhs.words()[w]
                } else {
                    old(self).words()[w]
                },
            old(self).tracking() && rhs.tracking() ==> final(self).words() == words_xor(
                old(self).words(),
                rhs.words(),
            ) && final(self).tracking(),
            masks_after_pass(
                rhs.slices(),
                old(self).rows(),
                old(self).slices(),
                final(self).words(),
                final(self).rows(),
                final(self).slices(),
            ),
    {
        let ghost old_self = *self;
        self.process_simd_guided(&rhs, WordOp::Xor, Some(&rhs.bitfield), true);
        proof {
            if old_self.tracking() && rhs.tracking() {
                assert forall|w: int| 0 <= w < 1024 implies #[trigger] self.words()[w] == words_xor(
                    old_self.words(),
                    rhs.words(),
                )[w] by {
                    if !slice_visited(rhs.slices(), w / 32) {
                        lemma_inactive_zero(rhs, w);
                        lemma_u32_zero_fixed(old_self.words()[w], 0);
                    }
                }
                assert(self.words() =~= words_xor(old_self.words(), rhs.words()));
            }
        }
    }
}

impl ShlAssign<usize> for TrackedBitfield {
    /// Shifts every word left by `rhs % 32`, visiting only the active slices.
    fn shl_assign(&mut self, rhs: usize)
        ensures
            forall|w: int|
                0 <= w < 1024 ==> #[trigger] final(self).words()[w] == if slice_visited(old(self).slices(), w / 32) {
                    old(self).words()[w] << ((rhs % 32) as u32)
                } else {
                    old(self).words()[w]
                },
            old(self).tracking() ==> final(self).words() == words_shl(old(self).words(), (rhs % 32) as u32)
                && final(self).tracking(),
            masks_after_pass(
                old(self).slices(),
                old(self).rows(),
                old(self).slices(),
                final(self).words(),
                final(self).rows(),
                final(self).slices(),
            ),
    {
        let ghost old_self = *self;
        let s: u32 = (rhs % 32) as u32;
        self.process_simd(WordOp::Shl(s), None, true);
        proof {
            if old_self.tracking() {
                assert forall|w: int| 0 <= w < 1024 implies #[trigger] self.words()[w] == words_shl(
                    old_self.words(),
                    s,
                )[w] by {
                    if !slice_visited(old_self.slices(), w / 32) {
                        lemma_inactive_zero(old_self, w);
                        lemma_u32_zero_fixed(0, s);
                    }
                }
                assert(self.words() =~= words_shl(old_self.words(), s));
            }
        }
    }
}

impl ShrAssign<usize> for TrackedBitfield {
    /// Shifts every word right by `rhs % 32`, visiting only the active slices.
    fn shr_assign(&mut self, rhs: usize)
        ensures
            forall|w: int|
                0 <= w < 1024 ==> #[trigger] final(self).words()[w] == if slice_visited(old(self).slices(), w / 32) {
                    old(self).words()[w] >> ((rhs % 32) as u32)
                } else {
                    old(self).words()[w]
                },
            old(self).tracking() ==> final(self).words() == words_shr(old(self).words(), (rhs % 32) as u32)
                && final(self).tracking(),
            masks_after_pass(
                old(self).slices(),
                old(self).rows(),
                old(self).slices(),
                final(self).words(),
                final(self).rows(),
                final(self).slices(),
            ),
    {
        let ghost old_self = *self;
        let s: u32 = (rhs % 32) as u32;
        self.process_simd(WordOp::Shr(s), None, true);
        proof {
            if old_self.tracking() {
                assert forall|w: int| 0 <= w < 1024 implies #[trigger] self.words()[w] == words_shr(
                    old_self.words(),
                    s,
                )[w] by {
                    if !slice_visited(old_self.slices(), w / 32) {
                        lemma_inactive_zero(old_self, w);
                        lemma_u32_zero_fixed(0, s);
                    }
                }
                assert(self.words() =~= words_shr(old_self.words(), s));
            }
        }
    }
}


impl vstd::std_specs::ops::BitOrSpecImpl for TrackedBitfield {
    open spec fn obeys_bitor_spec() -> bool {
        false
    }

    open spec fn bitor_req(self, rhs: TrackedBitfield) -> bool {
        true
    }

    open spec fn bitor_spec(self, rhs: TrackedBitfield) -> TrackedBitfield {
        self
    }
}

impl vstd::std_specs::ops::BitAndSpecImpl for TrackedBitfield {
    open spec fn obeys_bitand_spec() -> bool {
        false
    }

    open spec fn bitand_req(self, rhs: TrackedBitfield) -> bool {
        true
    }

    open spec fn bitand_spec(self, rhs: TrackedBitfield) -> TrackedBitfield {
        self
    }
}

impl vstd::std_specs::ops::BitXorSpecImpl for TrackedBitfield {
    open spec fn obeys_bitxor_spec() -> bool {
        false
    }

    open spec fn bitxor_req(self, rhs: TrackedBitfield) -> bool {
        true
    }

    open spec fn bitxor_spec(self, rhs: TrackedBitfield) -> TrackedBitfield {
        self
    }
}

impl vstd::std_specs::ops::ShlSpecImpl<usize> for TrackedBitfield {
    open spec fn obeys_shl_spec() -> bool {
        false
    }

    open spec fn shl_req(self, rhs: usize) -> bool {
        true
    }

    open spec fn shl_spec(self, rhs: usize) -> TrackedBitfield {
        self
    }
}

impl vstd::std_specs::ops::ShrSpecImpl<usize> for TrackedBitfield {
    open spec fn obeys_shr_spec() -> bool {
        false
    }

    open spec fn shr_req(self, rhs: usize) -> bool {
        true
    }

    open spec fn shr_spec(self, rhs: usize) -> TrackedBitfield {
        self
    }
}

impl BitOr for TrackedBitfield {
    type Output = Self;

    /// Merges `rhs` into a fresh zero bitfield, visiting only the active slices
    /// of `rhs`; `self` takes no part. The result takes its masks from `rhs`.
    fn bitor(self, rhs: Self) -> (r: Self)
        ensures
            forall|w: int|
                0 <= w < 1024 ==> #[trigger] r.words()[w] == if slice_visited(rhs.slices(), w / 32) {
                    rhs.words()[w]
                } else {
                    0u32
                },
            r.rows() == rhs.rows(),
            r.slices() == rhs.slices(),
            rhs.tracking() ==> r.words() == rhs.words() && r.tracking(),
    {
        let mut result = Self::new(0);
        let ghost zero = result;
        result.bitor_assign(rhs);
        proof {
            assert forall|i: int| 0 <= i < 1024 implies result.words()[i] == if slice_visited(
                rhs.slices(),
                i / 32,
            ) {
                rhs.words()[i]
            } else {
                0u32
            } by {
                lemma_u32_zero_merge(rhs.words()[i]);
            }
            lemma_new_zero_masks(zero);
            assert forall|k: int| 0 <= k < 32 implies result.rows()[k] == rhs.rows()[k] by {
                lemma_u32_zero_merge(rhs.rows()[k]);
            }
            assert(result.rows() =~= rhs.rows());
            lemma_u32_zero_merge(rhs.slices());
            if rhs.tracking() {
                assert forall|i: int| 0 <= i < 1024 implies result.words()[i] == rhs.words()[i] by {
                    if !slice_visited(rhs.slices(), i / 32) {
                        lemma_inactive_zero(rhs, i);
                    }
                }
                assert(result.words() =~= rhs.words());
            }
        }
        result
    }
}

impl BitAnd for TrackedBitfield {
    type Output = Self;

    /// Intersects a fresh zero bitfield with `rhs`; `self` takes no part, so
    /// the result has every word zero.
    fn bitand(self, rhs: Self) -> (r: Self)
        ensures
            r.words() == words_zero(),
            r.tracking(),
    {
        let mut result = Self::new(0);
        result.bitand_assign(rhs);
        proof {
            assert forall|i: int| 0 <= i < 1024 implies result.words()[i] == 0u32 by {
                lemma_u32_zero_merge(rhs.words()[i]);
            }
            assert(result.words() =~= words_zero());
        }
        result
    }
}

impl BitXor for TrackedBitfield {
    type Output = Self;

    /// Merges `rhs` by exclusive or into a fresh zero bitfield, visiting only
    /// the active slices of `rhs`; `self` takes no part.
    fn bitxor(self, rhs: Self) -> (r: Self)
        ensures
            forall|w: int|
                0 <= w < 1024 ==> #[trigger] r.words()[w] == if slice_visited(rhs.slices(), w / 32) {
                    rhs.words()[w]
                } else {
                    0u32
                },
            r.tracking(),
            rhs.tracking() ==> r.words() == rhs.words(),
    {
        let mut result = Self::new(0);
        let ghost zero = result;
        result.bitxor_assign(rhs);
        proof {
            assert forall|i: int| 0 <= i < 1024 implies result.words()[i] == if slice_visited(
                rhs.slices(),
                i / 32,
            ) {
                rhs.words()[i]
            } else {
                0u32
            } by {
                lemma_u32_zero_merge(rhs.words()[i]);
            }
            lemma_new_zero_masks(zero);
            assert forall|s: int, r: u32| 0 <= s < 32 && r < 32 implies #[trigger] bit32(
                result.rows()[s],
                r,
            ) == (result.words()[32 * s + r] != 0) by {
                lemma_bit32_zero(r);
                assert((32 * s + r) / 32 == s);
            }
            if rhs.slices() == 0 {
                assert forall|s: u32| s < 32 implies #[trigger] bit32(result.slices(), s) == (
                result.rows()[s as int] != 0) by {
                    lemma_bit32_zero(s);
                    if result.rows()[s as int] != 0 {
                        lemma_bit32_nonzero(result.rows()[s as int]);
                        let r = choose|r: u32| r < 32 && #[trigger] bit32(result.rows()[s as int], r);
                        assert(bit32(zero.rows()[s as int], r));
                        lemma_bit32_zero(r);
                    }
                }
            }
            if rhs.tracking() {
                assert forall|i: int| 0 <= i < 1024 implies result.words()[i] == rhs.words()[i] by {
                    if !slice_visited(rhs.slices(), i / 32) {
                        lemma_inactive_zero(rhs, i);
                    }
                }
                assert(result.words() =~= rhs.words());
            }
        }
        result
    }
}

impl Shl<usize> for TrackedBitfield {
    type Output = Self;

    /// A copy with every word shifted left by `rhs % 32`.
    fn shl(self, rhs: usize) -> (r: Self)
        ensures
            forall|w: int|
                0 <= w < 1024 ==> #[trigger] r.words()[w] == if slice_visited(self.slices(), w / 32) {
                    self.words()[w] << ((rhs % 32) as u32)
                } else {
                    self.words()[w]
                },
            masks_after_pass(self.slices(), self.rows(), self.slices(), r.words(), r.rows(), r.slices()),
            self.tracking() ==> r.words() == words_shl(self.words(), (rhs % 32) as u32) && r.tracking(),
    {
        let mut new_bitfield = self;
        new_bitfield.shl_assign(rhs);
        new_bitfield
    }
}

impl Shr<usize> for TrackedBitfield {
    type Output = Self;

    /// A copy with every word shifted right by `rhs % 32`.
    fn shr(self, rhs: usize) -> (r: Self)
        ensures
            forall|w: int|
                0 <= w < 1024 ==> #[trigger] r.words()[w] == if slice_visited(self.slices(), w / 32) {
                    self.words()[w] >> ((rhs % 32) as u32)
                } else {
                    self.words()[w]
                },
            masks_after_pass(self.slices(), self.rows(), self.slices(), r.words(), r.rows(), r.slices()),
            self.tracking() ==> r.words() == words_shr(self.words(), (rhs % 32) as u32) && r.tracking(),
    {
        let mut new_bitfield = self;
        new_bitfield.shr_assign(rhs);
        new_bitfield
    }
}

impl TrackedBitfield {
    /// Clears every bit that is set in `rhs`, visiting only the active slices
    /// of `rhs`.
    pub fn andnot_assign(&mut self, rhs: &Self) -> (r: &mut Self)
        ensures
            forall|w: int|
                0 <= w < 1024 ==> #[trigger] r.words()[w] == if slice_visited(rhs.slices(), w / 32) {
                    old(self).words()[w] & !rhs.words()[w]
                } else {
                    old(self).words()[w]
                },
            masks_after_pass(
                rhs.slices(),
                old(self).rows(),
                old(self).slices(),
                r.words(),
                r.rows(),
                r.slices(),
            ),
            old(self).tracking() && rhs.tracking() ==> r.words() == words_andnot(
                old(self).words(),
                rhs.words(),
            ) && r.tracking(),
            *final(self) == *final(r),
    {
        let ghost old_self = *self;
        self.process_simd_guided(rhs, WordOp::AndNot, Some(&rhs.bitfield), true);
        proof {
            if old_self.tracking() && rhs.tracking() {
                assert forall|w: int| 0 <= w < 1024 implies #[trigger] self.words()[w]
                    == words_andnot(old_self.words(), rhs.words())[w] by {
                    if !slice_visited(rhs.slices(), w / 32) {
                        lemma_inactive_zero(*rhs, w);
                        lemma_u32_zero_fixed(old_self.words()[w], 0);
                    }
                }
                assert(self.words() =~= words_andnot(old_self.words(), rhs.words()));
            }
        }
        self
    }

    /// `self` with every bit that is set in `rhs` cleared, visiting only the
    /// active slices of `rhs`.
    pub fn andnot(&self, rhs: &Self) -> (r: Self)
        ensures
            forall|w: int|
                0 <= w < 1024 ==> #[trigger] r.words()[w] == if slice_visited(rhs.slices(), w / 32) {
                    self.words()[w] & !rhs.words()[w]
                } else {
                    self.words()[w]
                },
            masks_after_pass(rhs.slices(), self.rows(), self.slices(), r.words(), r.rows(), r.slices()),
            self.tracking() && rhs.tracking() ==> r.words() == words_andnot(self.words(), rhs.words())
                && r.tracking(),
    {
        let mut new_bitfield = *self;
        new_bitfield.andnot_assign(rhs);
        new_bitfield
    }

    /// Clears the upper bits of every run of set bits in a word, keeping its
    /// least significant bit, visiting only the active slices.
    pub fn cull_most_sig_bits(&mut self) -> (r: &mut Self)
        ensures
            forall|w: int|
                0 <= w < 1024 ==> #[trigger] r.words()[w] == if slice_visited(old(self).slices(), w / 32) {
                    old(self).words()[w] & !(old(self).words()[w] << 1u32)
                } else {
                    old(self).words()[w]
                },
            masks_after_pass(
                old(self).slices(),
                old(self).rows(),
                old(self).slices(),
                r.words(),
                r.rows(),
                r.slices(),
            ),
            old(self).tracking() ==> r.words() == words_cull_msb(old(self).words()) && r.tracking(),
            *final(self) == *final(r),
    {
        let ghost old_self = *self;
        self.process_simd(WordOp::CullMsb, None, true);
        proof {
            if old_self.tracking() {
                assert forall|w: int| 0 <= w < 1024 implies #[trigger] self.words()[w]
                    == words_cull_msb(old_self.words())[w] by {
                    if !slice_visited(old_self.slices(), w / 32) {
                        lemma_inactive_zero(old_self, w);
                        lemma_u32_zero_fixed(0, 0);
                    }
                }
                assert(self.words() =~= words_cull_msb(old_self.words()));
            }
        }
        self
    }

    /// Clears the lower bits of every run of set bits in a word, keeping its
    /// most significant bit, visiting only the active slices.
    pub fn cull_least_sig_bits(&mut self) -> (r: &mut Self)
        ensures
            forall|w: int|
                0 <= w < 1024 ==> #[trigger] r.words()[w] == if slice_visited(old(self).slices(), w / 32) {
                    old(self).words()[w] & !(old(self).words()[w] >> 1u32)
                } else {
                    old(self).words()[w]
                },
            masks_after_pass(
                old(self).slices(),
                old(self).rows(),
                old(self).slices(),
                r.words(),
                r.rows(),
                r.slices(),
            ),
            old(self).tracking() ==> r.words() == words_cull_lsb(old(self).words()) && r.tracking(),
            *final(self) == *final(r),
    {
        let ghost old_self = *self;
        self.process_simd(WordOp::CullLsb, None, true);
        proof {
            if old_self.tracking() {
                assert forall|w: int| 0 <= w < 1024 implies #[trigger] self.words()[w]
                    == words_cull_lsb(old_self.words())[w] by {
                    if !slice_visited(old_self.slices(), w / 32) {
                        lemma_inactive_zero(old_self, w);
                        lemma_u32_zero_fixed(0, 0);
                    }
                }
                assert(self.words() =~= words_cull_lsb(old_self.words()));
            }
        }
        self
    }

    /// The number of active slices.
    pub fn num_active_slices(&self) -> (r: u32)
        ensures
            r == popcount(self.slices()),
    {
        count_ones(self.active_slices)
    }

    /// Whether no slice is active; when the masks describe the words, that is
    /// whether every word is zero.
    pub fn is_empty(&self) -> (r: bool)
        ensures
            r == (self.slices() == 0),
            self.tracking() ==> (r == forall|w: int| 0 <= w < 1024 ==> #[trigger] self.words()[w] == 0),
    {
        let r = self.num_active_slices() == 0;
        proof {
            lemma_count_bits_zero(self.slices(), 32);
            if r {
                assert forall|i: u32| i < 32 implies #[trigger] bit32(self.slices(), i) == bit32(0u32, i) by {
                    lemma_bit32_zero(i);
                }
                crate::bits::lemma_bit32_ext(self.slices(), 0u32);
            } else {
                let i = choose|i: u32| i < 32 && #[trigger] bit32(self.slices(), i);
                lemma_bit32_zero(i);
            }
            if self.tracking() {
                if r {
                    assert forall|w: int| 0 <= w < 1024 implies #[trigger] self.words()[w] == 0 by {
                        lemma_bit32_zero((w / 32) as u32);
                        lemma_inactive_zero(*self, w);
                    }
                } else {
                    let s = choose|s: u32| s < 32 && bit32(self.slices(), s);
                    assert(self.rows()[s as int] != 0);
                    lemma_bit32_nonzero(self.rows()[s as int]);
                    let k = choose|k: u32| k < 32 && #[trigger] bit32(self.rows()[s as int], k);
                    assert(self.words()[32 * s + k] != 0);
                }
            }
        }
        r
    }
}


impl TrackedBitfield {
    /// Loads 1-bit elements as the plain bitfield does, then
    /// recomputes the masks.
    pub fn load_packed_u1_into<const SET: u8, const CMP: u8>(
        &mut self,
        data: &[u64; 512],
        match_val: bool,
    )
        requires
            SET < 4,
            CMP < 4,
        ensures
            loaded(
                old(self).words(),
                final(self).words(),
                SET,
                CMP,
                1,
                data@,
                if match_val { 1u64 } else { 0u64 },
                |w: int| true,
            ),
            final(self).tracking(),
    {
        self.bitfield.load_packed_u1_into::<SET, CMP>(data, match_val);
        self.update_tracking();
    }

    /// Loads the 1-bit elements of inner slice `x_slice` as the plain
    /// bitfield does, then recomputes the masks.
    pub fn load_yz_packed_u1_into<const SET: u8, const CMP: u8>(
        &mut self,
        data: &[u64; 512],
        x_slice: usize,
        match_val: bool,
    )
        requires
            SET < 4,
            CMP < 4,
            x_slice * 32 <= usize::MAX,
        ensures
            loaded(
                old(self).words(),
                final(self).words(),
                SET,
                CMP,
                1,
                data@,
                if match_val { 1u64 } else { 0u64 },
                |w: int| yz_word(x_slice as int, w),
            ),
            final(self).tracking(),
    {
        self.bitfield.load_yz_packed_u1_into::<SET, CMP>(data, x_slice, match_val);
        self.update_tracking();
    }

    /// Loads the 1-bit elements of the words `y_slice`, `y_slice + 32`,
    /// ... as the plain bitfield does, then recomputes the masks.
    pub fn load_xz_packed_u1_into<const SET: u8, const CMP: u8>(
        &mut self,
        data: &[u64; 512],
        y_slice: usize,
        match_val: bool,
    )
        requires
            SET < 4,
            CMP < 4,
        ensures
            loaded(
                old(self).words(),
                final(self).words(),
                SET,
                CMP,
                1,
                data@,
                if match_val { 1u64 } else { 0u64 },
                |w: int| xz_word(y_slice as int, w),
            ),
            final(self).tracking(),
    {
        self.bitfield.load_xz_packed_u1_into::<SET, CMP>(data, y_slice, match_val);
        self.update_tracking();
    }

    /// Loads 2-bit elements as the plain bitfield does, then
    /// recomputes the masks.
    pub fn load_packed_u2_into<const SET: u8, const CMP: u8>(
        &mut self,
        data: &[u64; 1024],
        match_val: u8,
    )
        requires
            SET < 4,
            CMP < 4,
            match_val < 4,
        ensures
            loaded(
                old(self).words(),
                final(self).words(),
                SET,
                CMP,
                2,
                data@,
                match_val as u64,
                |w: int| true,
            ),
            final(self).tracking(),
    {
        self.bitfield.load_packed_u2_into::<SET, CMP>(data, match_val);
        self.update_tracking();
    }

    /// Loads the 2-bit elements of inner slice `x_slice` as the plain
    /// bitfield does, then recomputes the masks.
    pub fn load_yz_packed_u2_into<const SET: u8, const CMP: u8>(
        &mut self,
        data: &[u64; 1024],
        x_slice: usize,
        match_val: u8,
    )
        requires
            SET < 4,
            CMP < 4,
            match_val < 4,
            x_slice * 32 <= usize::MAX,
        ensures
            loaded(
                old(self).words(),
                final(self).words(),
                SET,
                CMP,
                2,
                data@,
                match_val as u64,
                |w: int| yz_word(x_slice as int, w),
            ),
            final(self).tracking(),
    {
        self.bitfield.load_yz_packed_u2_into::<SET, CMP>(data, x_slice, match_val);
        self.update_tracking();
    }

    /// Loads the 2-bit elements of the words `y_slice`, `y_slice + 32`,
    /// ... as the plain bitfield does, then recomputes the masks.
    pub fn load_xz_packed_u2_into<const SET: u8, const CMP: u8>(
        &mut self,
        data: &[u64; 1024],
        y_slice: usize,
        match_val: u8,
    )
        requires
            SET < 4,
            CMP < 4,
            match_val < 4,
            y_slice >= 1024 || y_slice % 256 < 32,
        ensures
            loaded(
                old(self).words(),
                final(self).words(),
                SET,
                CMP,
                2,
                data@,
                match_val as u64,
                |w: int| xz_word(y_slice as int, w),
            ),
            final(self).tracking(),
    {
        self.bitfield.load_xz_packed_u2_into::<SET, CMP>(data, y_slice, match_val);
        self.update_tracking();
    }

    /// Loads 4-bit elements as the plain bitfield does, then
    /// recomputes the masks.
    pub fn load_packed_u4_into<const SET: u8, const CMP: u8>(
        &mut self,
        data: &[u64; 2048],
        match_val: u8,
    )
        requires
            SET < 4,
            CMP < 4,
        ensures
            loaded(
                old(self).words(),
                final(self).words(),
                SET,
                CMP,
                4,
                data@,
                match_val as u64,
                |w: int| true,
            ),
            final(self).tracking(),
    {
        self.bitfield.load_packed_u4_into::<SET, CMP>(data, match_val);
        self.update_tracking();
    }

    /// Loads the 4-bit elements of inner slice `x_slice` as the plain
    /// bitfield does, then recomputes the masks.
    pub fn load_yz_packed_u4_into<const SET: u8, const CMP: u8>(
        &mut self,
        data: &[u64; 2048],
        x_slice: usize,
        match_val: u8,
    )
        requires
            SET < 4,
            CMP < 4,
            x_slice * 64 <= usize::MAX,
        ensures
            loaded(
                old(self).words(),
                final(self).words(),
                SET,
                CMP,
                4,
                data@,
                match_val as u64,
                |w: int| yz_word(x_slice as int, w),
            ),
            final(self).tracking(),
    {
        self.bitfield.load_yz_packed_u4_into::<SET, CMP>(data, x_slice, match_val);
        self.update_tracking();
    }

    /// Loads the 4-bit elements of the words `y_slice`, `y_slice + 32`,
    /// ... as the plain bitfield does, then recomputes the masks.
    pub fn load_xz_packed_u4_into<const SET: u8, const CMP: u8>(
        &mut self,
        data: &[u64; 2048],
        y_slice: usize,
        match_val: u8,
    )
        requires
            SET < 4,
            CMP < 4,
            y_slice * 2 <= usize::MAX,
            y_slice >= 1024 || y_slice % 128 < 32,
        ensures
            loaded(
                old(self).words(),
                final(self).words(),
                SET,
                CMP,
                4,
                data@,
                match_val as u64,
                |w: int| xz_word(y_slice as int, w),
            ),
            final(self).tracking(),
    {
        self.bitfield.load_xz_packed_u4_into::<SET, CMP>(data, y_slice, match_val);
        self.update_tracking();
    }

    /// Loads 8-bit elements as the plain bitfield does, then
    /// recomputes the masks.
    pub fn load_packed_u8_into<const SET: u8, const CMP: u8>(
        &mut self,
        data: &[u64; 4096],
        match_val: u8,
    )
        requires
            SET < 4,
            CMP < 4,
        ensures
            loaded(
                old(self).words(),
                final(self).words(),
                SET,
                CMP,
                8,
                data@,
                match_val as u64,
                |w: int| true,
            ),
            final(self).tracking(),
    {
        self.bitfield.load_packed_u8_into::<SET, CMP>(data, match_val);
        self.update_tracking();
    }

    /// Loads the 8-bit elements of inner slice `x_slice` as the plain
    /// bitfield does, then recomputes the masks.
    pub fn load_yz_packed_u8_into<const SET: u8, const CMP: u8>(
        &mut self,
        data: &[u64; 4096],
        x_slice: usize,
        match_val: u8,
    )
        requires
            SET < 4,
            CMP < 4,
            x_slice * 128 <= usize::MAX,
        ensures
            loaded(
                old(self).words(),
                final(self).words(),
                SET,
                CMP,
                8,
                data@,
                match_val as u64,
                |w: int| yz_word(x_slice as int, w),
            ),
            final(self).tracking(),
    {
        self.bitfield.load_yz_packed_u8_into::<SET, CMP>(data, x_slice, match_val);
        self.update_tracking();
    }

    /// Loads the 8-bit elements of the words `y_slice`, `y_slice + 32`,
    /// ... as the plain bitfield does, then recomputes the masks.
    pub fn load_xz_packed_u8_into<const SET: u8, const CMP: u8>(
        &mut self,
        data: &[u64; 4096],
        y_slice: usize,
        match_val: u8,
    )
        requires
            SET < 4,
            CMP < 4,
            y_slice * 4 <= usize::MAX,
            y_slice >= 1024 || y_slice % 64 < 32,
        ensures
            loaded(
                old(self).words(),
                final(self).words(),
                SET,
                CMP,
                8,
                data@,
                match_val as u64,
                |w: int| xz_word(y_slice as int, w),
            ),
            final(self).tracking(),
    {
        self.bitfield.load_xz_packed_u8_into::<SET, CMP>(data, y_slice, match_val);
        self.update_tracking();
    }

    /// Loads 16-bit elements as the plain bitfield does, then
    /// recomputes the masks.
    pub fn load_packed_u16_into<const SET: u8, const CMP: u8>(
        &mut self,
        data: &[u64; 8192],
        match_val: u16,
    )
        requires
            SET < 4,
            CMP < 4,
        ensures
            loaded(
                old(self).words(),
                final(self).words(),
                SET,
                CMP,
                16,
                data@,
                match_val as u64,
                |w: int| true,
            ),
            final(self).tracking(),
    {
        self.bitfield.load_packed_u16_into::<SET, CMP>(data, match_val);
        self.update_tracking();
    }

    /// Loads the 16-bit elements of inner slice `x_slice` as the plain
    /// bitfield does, then recomputes the masks.
    pub fn load_yz_packed_u16_into<const SET: u8, const CMP: u8>(
        &mut self,
        data: &[u64; 8192],
        x_slice: usize,
        match_val: u16,
    )
        requires
            SET < 4,
            CMP < 4,
            x_slice * 256 <= usize::MAX,
        ensures
            loaded(
                old(self).words(),
                final(self).words(),
                SET,
                CMP,
                16,
                data@,
                match_val as u64,
                |w: int| yz_word(x_slice as int, w),
            ),
            final(self).tracking(),
    {
        self.bitfield.load_yz_packed_u16_into::<SET, CMP>(data, x_slice, match_val);
        self.update_tracking();
    }

    /// Loads the 16-bit elements of the words `y_slice`, `y_slice + 32`,
    /// ... as the plain bitfield does, then recomputes the masks.
    pub fn load_xz_packed_u16_into<const SET: u8, const CMP: u8>(
        &mut self,
        data: &[u64; 8192],
        y_slice: usize,
        match_val: u16,
    )
        requires
            SET < 4,
            CMP < 4,
            y_slice * 8 <= usize::MAX,
        ensures
            loaded(
                old(self).words(),
                final(self).words(),
                SET,
                CMP,
                16,
                data@,
                match_val as u64,
                |w: int| xz_word(y_slice as int, w),
            ),
            final(self).tracking(),
    {
        self.bitfield.load_xz_packed_u16_into::<SET, CMP>(data, y_slice, match_val);
        self.update_tracking();
    }
}


impl TrackedBitfield {
    /// Transposes all 1024 elements as a 32x32 matrix; the active rows are
    /// transposed as a bit matrix along with them, and the active-slice mask
    /// is recomputed from the new active rows.
    pub fn outer_transpose(&mut self) -> (r: &mut Self)
        ensures
            r.words() == outer_transposed(old(self).words()),
            bits_transposed_at(old(self).rows(), r.rows(), 0),
            slices_track(r.rows(), r.slices()),
            old(self).tracking() ==> r.tracking(),
            *final(self) == *final(r),
    {
        let ghost old_self = *self;
        self.bitfield.outer_transpose();
        inner_transpose_slice(&mut self.active_rows, 0);
        self.update_all_slices();
        proof {
            if old_self.tracking() {
                assert forall|s: int, r: u32| 0 <= s < 32 && r < 32 implies #[trigger] bit32(
                    self.rows()[s],
                    r,
                ) == (self.words()[32 * s + r] != 0) by {
                    assert(bit32(self.rows()[0 + s], r) == bit32(old_self.rows()[0 + r], s as u32));
                    assert(bit32(old_self.rows()[r as int], s as u32) == (old_self.words()[32 * r + s]
                        != 0));
                    assert((32 * s + r) % 32 == r && (32 * s + r) / 32 == s);
                }
            }
        }
        self
    }

    /// The same as `outer_transpose`.
    pub fn outer_transpose_scalar(&mut self) -> (r: &mut Self)
        ensures
            r.words() == outer_transposed(old(self).words()),
            bits_transposed_at(old(self).rows(), r.rows(), 0),
            slices_track(r.rows(), r.slices()),
            old(self).tracking() ==> r.tracking(),
            *final(self) == *final(r),
    {
        self.outer_transpose()
    }

    /// Whether the 32 words from `index` all have every bit set.
    pub fn all_ones_slice(&self, index: usize) -> (r: bool)
        requires
            index + 32 <= 1024,
        ensures
            r == forall|k: int| 0 <= k < 32 ==> #[trigger] self.words()[index + k] == u32::MAX,
    {
        let mut k: usize = 0;
        while k < 32
            invariant
                0 <= k <= 32,
                index + 32 <= 1024,
                forall|j: int| 0 <= j < k ==> #[trigger] self.words()[index + j] == u32::MAX,
            decreases 32 - k,
        {
            if self.bitfield.word(index + k) != u32::MAX {
                assert(self.words()[index + (k as int)] != u32::MAX);
                return false;
            }
            k += 1;
        }
        true
    }

    /// Whether the 32 words from `index` are all zero, or all have every bit set.
    fn is_homogenous_slice(&self, index: usize) -> (r: bool)
        requires
            index + 32 <= 1024,
        ensures
            r == ((forall|k: int| 0 <= k < 32 ==> #[trigger] self.words()[index + k] == 0u32) || (
            forall|k: int| 0 <= k < 32 ==> #[trigger] self.words()[index + k] == u32::MAX)),
    {
        let mut all_zero = true;
        let mut all_ones = true;
        let mut k: usize = 0;
        while k < 32
            invariant
                0 <= k <= 32,
                index + 32 <= 1024,
                all_zero == forall|j: int| 0 <= j < k ==> #[trigger] self.words()[index + j] == 0u32,
                all_ones == forall|j: int| 0 <= j < k ==> #[trigger] self.words()[index + j] == u32::MAX,
            decreases 32 - k,
        {
            let w = self.bitfield.word(index + k);
            all_zero = all_zero && w == 0;
            all_ones = all_ones && w == u32::MAX;
            k += 1;
        }
        all_zero || all_ones
    }

    /// Transposes inner slice `slice` and recomputes its active rows.
    fn transpose_slice_tracked(&mut self, slice: usize)
        requires
            slice < 32,
        ensures
            bits_transposed_at(old(self).words(), final(self).words(), 32 * slice as int),
            forall|k: int|
                0 <= k < 1024 && !(32 * slice <= k < 32 * slice + 32) ==> #[trigger] final(self).words()[k]
                    == old(self).words()[k],
            final(self).slices() == old(self).slices(),
            final(self).rows() == old(self).rows().update(slice as int, final(self).rows()[slice as int]),
            forall|k: u32|
                k < 32 ==> #[trigger] bit32(final(self).rows()[slice as int], k) == (final(self).words()[32
                    * slice + k] != 0),
    {
        self.bitfield.inner_transpose_one(slice);
        self.update_slice_of_rows(slice);
    }

    /// Transposes each chunk of 32 elements as a 32x32 bit matrix, visiting
    /// only the active slices and skipping those that transposition leaves as
    /// they are; the active rows of the slices it rewrites are recomputed.
    pub fn inner_transpose(&mut self) -> (r: &mut Self)
        ensures
            forall|s: int|
                0 <= s < 32 && slice_visited(old(self).slices(), s) ==> #[trigger] bits_transposed_at(
                    old(self).words(),
                    r.words(),
                    32 * s,
                ),
            forall|w: int|
                0 <= w < 1024 && !transpose_rewrites(old(self).slices(), old(self).words(), w / 32)
                    ==> #[trigger] r.words()[w] == old(self).words()[w],
            r.rows().len() == 32,
            forall|s: int, k: u32|
                0 <= s < 32 && k < 32 ==> #[trigger] bit32(r.rows()[s], k) == if transpose_rewrites(
                    old(self).slices(),
                    old(self).words(),
                    s,
                ) {
                    r.words()[32 * s + k] != 0
                } else {
                    bit32(old(self).rows()[s], k)
                },
            r.slices() == old(self).slices(),
            old(self).tracking() ==> inner_transposed(old(self).words(), r.words()) && r.tracking(),
            *final(self) == *final(r),
    {
        let ghost old_self = *self;
        let ghost g = old_self.slices();
        if self.num_active_slices() > SPARSE_THRESHOLD {
            let mut i: usize = 0;
            while i < 1024
                invariant
                    0 <= i <= 1024,
                    i % 32 == 0,
                    popcount(g) > SPARSE_THRESHOLD,
                    g == old_self.slices(),
                    self.slices() == g,
                    self.words().len() == 1024,
                    self.rows().len() == 32,
                    old_self.words().len() == 1024,
                    forall|s: int|
                        0 <= s < i / 32 ==> #[trigger] bits_transposed_at(
                            old_self.words(),
                            self.words(),
                            32 * s,
                        ),
                    forall|k: int|
                        0 <= k < 1024 && !(k < i && transpose_rewrites(g, old_self.words(), k / 32))
                            ==> #[trigger] self.words()[k] == old_self.words()[k],
                    forall|s: int, k: u32|
                        0 <= s < 32 && k < 32 ==> #[trigger] bit32(self.rows()[s], k) == if s < i / 32
                            && transpose_rewrites(g, old_self.words(), s) {
                            self.words()[32 * s + k] != 0
                        } else {
                            bit32(old_self.rows()[s], k)
                        },
                decreases 1024 - i,
            {
                let ghost prev = *self;
                let ghost sl: int = i as int / 32;
                let ghost changed: bool;
                if !self.is_homogenous_slice(i) {
                    self.transpose_slice_tracked(i / 32);
                    proof {
                        changed = true;
                        assert(!slice_all(old_self.words(), sl, u32::MAX)) by {
                            if slice_all(old_self.words(), sl, u32::MAX) {
                                assert forall|k: int| 0 <= k < 32 implies #[trigger] prev.words()[i + k]
                                    == u32::MAX by {
                                    assert(old_self.words()[32 * sl + k] == u32::MAX);
                                }
                            }
                        }
                        assert(!slice_all(old_self.words(), sl, 0)) by {
                            if slice_all(old_self.words(), sl, 0) {
                                assert forall|k: int| 0 <= k < 32 implies #[trigger] prev.words()[i + k]
                                    == 0u32 by {
                                    assert(old_self.words()[32 * sl + k] == 0u32);
                                }
                            }
                        }
                        lemma_popcount_nonzero(g);
                        assert(transpose_rewrites(g, old_self.words(), sl));
                    }
                } else {
                    proof {
                        changed = false;
                        lemma_homogeneous_fixed(prev.words(), i as int);
                        if forall|k: int| 0 <= k < 32 ==> #[trigger] prev.words()[i + k] == 0u32 {
                            assert forall|k: int| 0 <= k < 32 implies #[trigger] old_self.words()[32 * sl
                                + k] == 0u32 by {
                                assert(prev.words()[i + k] == 0u32);
                            }
                            assert(slice_all(old_self.words(), sl, 0u32));
                        } else {
                            assert forall|k: int| 0 <= k < 32 implies #[trigger] old_self.words()[32 * sl
                                + k] == u32::MAX by {
                                assert(prev.words()[i + k] == u32::MAX);
                            }
                            assert(slice_all(old_self.words(), sl, u32::MAX));
                        }
                        assert(!transpose_rewrites(g, old_self.words(), sl));
                    }
                }
                proof {
                    assert(changed == transpose_rewrites(g, old_self.words(), sl));
                    assert(!changed ==> *self == prev);
                    assert forall|s: int| 0 <= s < (i + 32) / 32 implies #[trigger] bits_transposed_at(
                        old_self.words(),
                        self.words(),
                        32 * s,
                    ) by {
                        assert forall|a: u32, b: u32| a < 32 && b < 32 implies #[trigger] bit32(
                            self.words()[32 * s + b],
                            a,
                        ) == bit32(old_self.words()[32 * s + a], b) by {
                            if s < i / 32 {
                                assert(bits_transposed_at(old_self.words(), prev.words(), 32 * s));
                                assert(bit32(prev.words()[32 * s + b], a) == bit32(
                                    old_self.words()[32 * s + a],
                                    b,
                                ));
                                assert(self.words()[32 * s + b] == prev.words()[32 * s + b]);
                            } else {
                                assert(bit32(self.words()[i + b], a) == bit32(prev.words()[i + a], b));
                                assert(prev.words()[i + a] == old_self.words()[i + a]);
                            }
                        }
                    }
                    assert forall|k: int|
                        0 <= k < 1024 && !(k < i + 32 && transpose_rewrites(g, old_self.words(), k / 32))
                            implies #[trigger] self.words()[k] == old_self.words()[k] by {
                        if i <= k < i + 32 {
                            assert(k / 32 == sl);
                        } else {
                            assert(self.words()[k] == prev.words()[k]);
                        }
                    }
                    assert forall|s: int, k: u32| 0 <= s < 32 && k < 32 implies #[trigger] bit32(
                        self.rows()[s],
                        k,
                    ) == if s < (i + 32) / 32 && transpose_rewrites(g, old_self.words(), s) {
                        self.words()[32 * s + k] != 0
                    } else {
                        bit32(old_self.rows()[s], k)
                    } by {
                        if s != sl {
                            assert(self.rows()[s] == prev.rows()[s]);
                            assert(self.words()[32 * s + k] == prev.words()[32 * s + k]);
                        }
                    }
                }
                i += 32;
            }
            proof {
                assert forall|w: int|
                    0 <= w < 1024 && !transpose_rewrites(g, old_self.words(), w / 32) implies #[trigger] self.words()[w]
                        == old_self.words()[w] by {}
                assert forall|s: int, k: u32| 0 <= s < 32 && k < 32 implies #[trigger] bit32(
                    self.rows()[s],
                    k,
                ) == if transpose_rewrites(g, old_self.words(), s) {
                    self.words()[32 * s + k] != 0
                } else {
                    bit32(old_self.rows()[s], k)
                } by {
                    assert(s < i / 32);
                }
            }
        } else {
            let mut cur_slices = self.active_slices;
            while cur_slices != 0
                invariant
                    popcount(g) <= SPARSE_THRESHOLD,
                    g == old_self.slices(),
                    self.slices() == g,
                    self.words().len() == 1024,
                    self.rows().len() == 32,
                    old_self.words().len() == 1024,
                    forall|s: u32| s < 32 && #[trigger] bit32(cur_slices, s) ==> bit32(g, s),
                    forall|s: int|
                        0 <= s < 32 && bit32(g, s as u32) && !bit32(cur_slices, s as u32)
                            ==> #[trigger] bits_transposed_at(old_self.words(), self.words(), 32 * s),
                    forall|k: int|
                        0 <= k < 1024 && !(!bit32(cur_slices, (k / 32) as u32) && transpose_rewrites(
                            g,
                            old_self.words(),
                            k / 32,
                        )) ==> #[trigger] self.words()[k] == old_self.words()[k],
                    forall|s: int, k: u32|
                        0 <= s < 32 && k < 32 ==> #[trigger] bit32(self.rows()[s], k) == if !bit32(
                            cur_slices,
                            s as u32,
                        ) && transpose_rewrites(g, old_self.words(), s) {
                            self.words()[32 * s + k] != 0
                        } else {
                            bit32(old_self.rows()[s], k)
                        },
                decreases cur_slices,
            {
                let ghost prev = *self;
                let ghost prev_cur = cur_slices;
                let slice = cur_slices.trailing_zeros();
                proof {
                    lemma_lowest_bit(cur_slices);
                }
                let i = slice as usize * 32;
                let ghost sl: int = slice as int;
                let ghost changed: bool;
                proof {
                    assert(bit32(g, slice));
                    if g == 0 {
                        lemma_bit32_zero(slice);
                    }
                    assert(slice_visited(g, sl));
                }
                if !self.all_ones_slice(i) {
                    self.transpose_slice_tracked(slice as usize);
                    proof {
                        changed = true;
                        assert(!slice_all(old_self.words(), sl, u32::MAX)) by {
                            if slice_all(old_self.words(), sl, u32::MAX) {
                                assert forall|k: int| 0 <= k < 32 implies #[trigger] prev.words()[i + k]
                                    == u32::MAX by {
                                    assert(old_self.words()[32 * sl + k] == u32::MAX);
                                }
                            }
                        }
                        assert(transpose_rewrites(g, old_self.words(), sl));
                    }
                } else {
                    proof {
                        changed = false;
                        lemma_homogeneous_fixed(prev.words(), i as int);
                        assert forall|k: int| 0 <= k < 32 implies #[trigger] old_self.words()[32 * sl + k]
                            == u32::MAX by {
                            assert(prev.words()[i + k] == u32::MAX);
                        }
                        assert(slice_all(old_self.words(), sl, u32::MAX));
                        assert(!transpose_rewrites(g, old_self.words(), sl));
                    }
                }
                cur_slices = cur_slices & (cur_slices - 1);
                proof {
                    assert(changed == transpose_rewrites(g, old_self.words(), sl));
                    assert(!changed ==> *self == prev);
                    assert(!bit32(cur_slices, slice));
                    assert forall|s: int|
                        0 <= s < 32 && bit32(g, s as u32) && !bit32(cur_slices, s as u32)
                            implies #[trigger] bits_transposed_at(old_self.words(), self.words(), 32 * s) by {
                        assert forall|a: u32, b: u32| a < 32 && b < 32 implies #[trigger] bit32(
                            self.words()[32 * s + b],
                            a,
                        ) == bit32(old_self.words()[32 * s + a], b) by {
                            if s == sl {
                                assert(bit32(self.words()[i + b], a) == bit32(prev.words()[i + a], b));
                                assert(prev.words()[i + a] == old_self.words()[i + a]);
                            } else {
                                assert(!bit32(prev_cur, s as u32));
                                assert(bits_transposed_at(old_self.words(), prev.words(), 32 * s));
                                assert(bit32(prev.words()[32 * s + b], a) == bit32(
                                    old_self.words()[32 * s + a],
                                    b,
                                ));
                                assert(self.words()[32 * s + b] == prev.words()[32 * s + b]);
                            }
                        }
                    }
                    assert forall|k: int|
                        0 <= k < 1024 && !(!bit32(cur_slices, (k / 32) as u32) && transpose_rewrites(
                            g,
                            old_self.words(),
                            k / 32,
                        )) implies #[trigger] self.words()[k] == old_self.words()[k] by {
                        if i <= k < i + 32 {
                            assert(k / 32 == sl);
                        } else {
                            assert(k / 32 != sl);
                            assert(bit32(cur_slices, (k / 32) as u32) == bit32(prev_cur, (k / 32) as u32));
                            assert(self.words()[k] == prev.words()[k]);
                        }
                    }
                    assert forall|s: int, k: u32| 0 <= s < 32 && k < 32 implies #[trigger] bit32(
                        self.rows()[s],
                        k,
                    ) == if !bit32(cur_slices, s as u32) && transpose_rewrites(g, old_self.words(), s) {
                        self.words()[32 * s + k] != 0
                    } else {
                        bit32(old_self.rows()[s], k)
                    } by {
                        if s != sl {
                            assert(bit32(cur_slices, s as u32) == bit32(prev_cur, s as u32));
                            assert(self.rows()[s] == prev.rows()[s]);
                            assert(self.words()[32 * s + k] == prev.words()[32 * s + k]);
                        }
                    }
                }
            }
            proof {
                assert forall|s: int| 0 <= s < 32 && slice_visited(g, s) implies #[trigger] bits_transposed_at(
                    old_self.words(),
                    self.words(),
                    32 * s,
                ) by {
                    lemma_bit32_zero(s as u32);
                }
                assert forall|w: int|
                    0 <= w < 1024 && !transpose_rewrites(g, old_self.words(), w / 32) implies #[trigger] self.words()[w]
                        == old_self.words()[w] by {}
                assert forall|s: int, k: u32| 0 <= s < 32 && k < 32 implies #[trigger] bit32(
                    self.rows()[s],
                    k,
                ) == if transpose_rewrites(g, old_self.words(), s) {
                    self.words()[32 * s + k] != 0
                } else {
                    bit32(old_self.rows()[s], k)
                } by {
                    lemma_bit32_zero(s as u32);
                }
            }
        }
        proof {
            lemma_bit32_zero(0);
            assert forall|s: int| 0 <= s < 32 && slice_visited(g, s) implies #[trigger] bits_transposed_at(
                old_self.words(),
                self.words(),
                32 * s,
            ) by {}
            lemma_inner_transpose_tracks(old_self, *self);
        }
        self
    }

    /// Transposes each chunk of 32 elements as a 32x32 bit matrix on the plain
    /// bitfield, then recomputes the active-slice mask from the active rows as
    /// they were; the active rows themselves are not recomputed.
    pub fn inner_transpose_scalar(&mut self) -> (r: &mut Self)
        ensures
            inner_transposed(old(self).words(), r.words()),
            r.rows() == old(self).rows(),
            slices_track(r.rows(), r.slices()),
            *final(self) == *final(r),
    {
        self.bitfield.inner_transpose_scalar();
        self.update_all_slices();
        self
    }
}


/// Bit `n` of the cube: bit `n % 32` of word `n / 32`.
pub open spec fn cube_bit(words: Seq<u32>, n: int) -> bool {
    bit32(words[n / 32], (n % 32) as u32)
}

/// The indices of all set bits of the cube.
pub open spec fn set_bits(words: Seq<u32>) -> Set<int> {
    Set::new(|n: int| 0 <= n < 32768 && cube_bit(words, n))
}

/// The indices of the set bits that the masks of `t` lead to: those in a row
/// marked active within a slice marked active. When the masks describe the
/// words, these are all the set bits.
pub open spec fn marked_bits(t: TrackedBitfield) -> Set<int> {
    Set::new(
        |n: int|
            0 <= n < 32768 && cube_bit(t.words(), n) && bit32(t.slices(), (n / 32 / 32) as u32) && bit32(
                t.rows()[n / 32 / 32],
                (n / 32 % 32) as u32,
            ),
    )
}

/// When the masks describe the words, they lead to every set bit.
proof fn lemma_marked_bits_all(t: TrackedBitfield)
    requires
        t.tracking(),
    ensures
        marked_bits(t) == set_bits(t.words()),
{
    assert forall|n: int| #[trigger] marked_bits(t).contains(n) == set_bits(t.words()).contains(n) by {
        if 0 <= n < 32768 && cube_bit(t.words(), n) {
            let w = n / 32;
            let s = w / 32;
            let k = (w % 32) as u32;
            assert(32 * s + k == w);
            assert(n / 32 / 32 == s);
            lemma_bit32_zero((n % 32) as u32);
            assert(t.words()[w] != 0);
            assert(bit32(t.rows()[s], k));
            lemma_bit32_zero(k);
            assert(t.rows()[s] != 0);
            assert(bit32(t.slices(), s as u32));
        }
    }
    assert(marked_bits(t) =~= set_bits(t.words()));
}

/// Walks the indices of the set bits of a tracked bitfield in increasing
/// order, visiting only its active slices and active rows.
pub struct ActiveBitIter<'a> {
    bitfield: &'a TrackedBitfield,
    cur_slices: u32,
    cur_rows: u32,
    cur_bits: u32,
    slice: u32,
    row: u32,
}

impl<'a> ActiveBitIter<'a> {
    /// The bitfield walked over.
    pub closed spec fn source(&self) -> TrackedBitfield {
        *self.bitfield
    }

    /// Whether set bit `n` is still to come.
    spec fn pending(&self, n: int) -> bool {
        let w = n / 32;
        let b = (n % 32) as u32;
        ||| (w == 32 * self.slice + self.row && bit32(self.cur_bits, b))
        ||| (w / 32 == self.slice && bit32(self.cur_rows, (w % 32) as u32))
        ||| (bit32(self.cur_slices, (w / 32) as u32) && bit32(
            self.bitfield.rows()[w / 32],
            (w % 32) as u32,
        ))
    }

    /// The indices still to come.
    pub closed spec fn remaining(&self) -> Set<int> {
        Set::new(|n: int| 0 <= n < 32768 && cube_bit(self.bitfield.words(), n) && self.pending(n))
    }

    /// Every index still to come is the index of a set bit of the cube.
    pub proof fn lemma_remaining_set_bits(&self)
        ensures
            forall|n: int| #[trigger] self.remaining().contains(n) ==> set_bits(self.source().words()).contains(n),
            forall|n: int| #[trigger] self.remaining().contains(n) ==> 0 <= n < 32768,
    {
    }

    /// The walk is consistent with the bitfield: the bits of the current word
    /// still to come are bits of that word, and what is still to come lies
    /// after the current slice and row.
    pub closed spec fn valid(&self) -> bool {
        &&& self.slice < 32
        &&& self.row < 32
        &&& forall|b: u32|
            b < 32 && #[trigger] bit32(self.cur_bits, b) ==> bit32(
                self.bitfield.words()[32 * self.slice + self.row],
                b,
            )
        &&& forall|r: u32| r < 32 && #[trigger] bit32(self.cur_rows, r) ==> r > self.row || self.cur_bits == 0
        &&& forall|s: u32|
            s < 32 && #[trigger] bit32(self.cur_slices, s) ==> s > self.slice || (self.cur_rows == 0
                && self.cur_bits == 0)
    }

    /// A walk over the bits that the masks of `bitfield` lead to.
    fn new(bitfield: &'a TrackedBitfield) -> (r: Self)
        ensures
            r.source() == *bitfield,
            r.valid(),
            r.remaining() == marked_bits(*bitfield),
    {
        let r = ActiveBitIter {
            bitfield,
            cur_slices: bitfield.active_slices,
            cur_rows: 0,
            cur_bits: 0,
            slice: 0,
            row: 0,
        };
        proof {
            lemma_bit32_zero(0);
            assert forall|b: u32| b < 32 implies !#[trigger] bit32(0u32, b) by {
                lemma_bit32_zero(b);
            }
            assert forall|n: int| #[trigger] r.remaining().contains(n) == marked_bits(*bitfield).contains(
                n,
            ) by {
                if 0 <= n < 32768 {
                    lemma_bit32_zero((n % 32) as u32);
                    lemma_bit32_zero((n / 32 % 32) as u32);
                }
            }
            assert(r.remaining() =~= marked_bits(*bitfield));
        }
        r
    }

    /// The next index of a set bit, in increasing order; `None` once all have
    /// been given.
    pub fn next(&mut self) -> (r: Option<usize>)
        requires
            old(self).valid(),
        ensures
            final(self).valid(),
            final(self).source() == old(self).source(),
            r is None ==> old(self).remaining() == Set::<int>::empty() && final(self).remaining()
                == Set::<int>::empty(),
            r matches Some(n) ==> {
                &&& n < 32768
                &&& old(self).remaining().contains(n as int)
                &&& forall|m: int| #[trigger] old(self).remaining().contains(m) ==> n <= m
                &&& forall|m: int| #[trigger] final(self).remaining().contains(m) ==> n < m
                &&& final(self).remaining() == old(self).remaining().remove(n as int)
            },
    {
        let ghost start = self.remaining();
        loop
            invariant
                self.valid(),
                self.source() == old(self).source(),
                self.remaining() == start,
                start == old(self).remaining(),
            decreases self.cur_slices, self.cur_rows,
        {
            if self.cur_bits != 0 {
                let ghost before = *self;
                let bit = self.cur_bits.trailing_zeros();
                proof {
                    lemma_lowest_bit(self.cur_bits);
                }
                let i = (self.slice * 1024 + self.row * 32 + bit) as usize;
                self.cur_bits = self.cur_bits & (self.cur_bits - 1);
                proof {
                    let n = i as int;
                    let w = 32 * before.slice + before.row;
                    assert(n / 32 == w && n % 32 == bit);
                    assert(before.pending(n));
                    assert(start.contains(n));
                    assert forall|m: int| #[trigger] start.contains(m) implies n <= m by {
                        let mw = m / 32;
                        let mb = (m % 32) as u32;
                        if mw == w && bit32(before.cur_bits, mb) {
                            assert(!(mb < bit));
                        } else if mw / 32 == before.slice && bit32(before.cur_rows, (mw % 32) as u32) {
                            assert((mw % 32) as u32 > before.row);
                        } else {
                            assert(bit32(before.cur_slices, (mw / 32) as u32));
                            assert((mw / 32) as u32 > before.slice);
                        }
                    }
                    assert forall|m: int| #[trigger] self.remaining().contains(m) == start.remove(n).contains(m) by {
                        let mw = m / 32;
                        let mb = (m % 32) as u32;
                        if mw == w && 0 <= m < 32768 {
                            assert(bit32(self.cur_bits, mb) == (bit32(before.cur_bits, mb) && mb != bit));
                        }
                        if m == n {
                            assert(!bit32(before.cur_rows, before.row));
                            assert(!bit32(before.cur_slices, before.slice));
                        }
                    }
                    assert(self.remaining() =~= start.remove(n));
                }
                return Some(i);
            }
            if self.cur_rows != 0 {
                let ghost before = *self;
                self.row = self.cur_rows.trailing_zeros();
                proof {
                    lemma_lowest_bit(self.cur_rows);
                }
                let i = self.slice * 32 + self.row;
                self.cur_bits = self.bitfield.bitfield.word(i as usize);
                self.cur_rows = self.cur_rows & (self.cur_rows - 1);
                proof {
                    assert forall|m: int| #[trigger] self.remaining().contains(m) == start.contains(m) by {
                        let mw = m / 32;
                        let mb = (m % 32) as u32;
                        if 0 <= m < 32768 {
                            lemma_bit32_zero(mb);
                        }
                        if 0 <= m < 32768 && mw / 32 == before.slice {
                            assert(bit32(self.cur_rows, (mw % 32) as u32) == (bit32(before.cur_rows, (mw % 32) as u32) && (mw % 32) as u32 != self.row));
                            assert(mw == 32 * before.slice + (mw % 32));
                        }
                        if 0 <= m < 32768 && mw == 32 * self.slice + self.row {
                            assert(mw / 32 == before.slice && mw % 32 == self.row);
                        }
                    }
                    assert(self.remaining() =~= start);
                }
                continue;
            }
            if self.cur_slices != 0 {
                let ghost before = *self;
                self.slice = self.cur_slices.trailing_zeros();
                proof {
                    lemma_lowest_bit(self.cur_slices);
                }
                self.cur_rows = self.bitfield.active_rows[self.slice as usize];
                self.cur_slices = self.cur_slices & (self.cur_slices - 1);
                proof {
                    lemma_bit32_zero(0);
                    assert forall|b: u32| b < 32 implies !#[trigger] bit32(0u32, b) by {
                        lemma_bit32_zero(b);
                    }
                    assert forall|m: int| #[trigger] self.remaining().contains(m) == start.contains(m) by {
                        let mw = m / 32;
                        let mb = (m % 32) as u32;
                        if 0 <= m < 32768 {
                            assert(bit32(self.cur_slices, (mw / 32) as u32) == (bit32(before.cur_slices, (mw / 32) as u32) && (mw / 32) as u32 != self.slice));
                            lemma_bit32_zero(mb);
                            lemma_bit32_zero((mw % 32) as u32);
                        }
                    }
                    assert(self.remaining() =~= start);
                }
                continue;
            }
            proof {
                assert forall|m: int| !#[trigger] start.contains(m) by {
                    if 0 <= m < 32768 {
                        lemma_bit32_zero((m % 32) as u32);
                        lemma_bit32_zero(((m / 32) % 32) as u32);
                        lemma_bit32_zero(((m / 32) / 32) as u32);
                    }
                }
                assert(start =~= Set::<int>::empty());
            }
            return None;
        }
    }
}

impl TrackedBitfield {
    /// A walk, in increasing order, over the indices of the set bits that lie
    /// in active rows of active slices; when the masks describe the words,
    /// that is every set bit.
    pub fn active_bit_iter<'a>(&'a self) -> (r: ActiveBitIter<'a>)
        ensures
            r.source() == *self,
            r.valid(),
            r.remaining() == marked_bits(*self),
            self.tracking() ==> r.remaining() == set_bits(self.words()),
    {
        let r = ActiveBitIter::new(self);
        proof {
            if self.tracking() {
                lemma_marked_bits_all(*self);
            }
        }
        r
    }
}

} // verus!
