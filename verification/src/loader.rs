//! Comparison and combination rules of the loaders, and the scalar kernels that
//! turn a block of packed values into a mask of matching elements.
use vstd::prelude::*;

use crate::bits::{
    bit32, bit64, lemma_bit32_and, lemma_bit32_not, lemma_bit32_or, lemma_bit32_xor,
    lemma_bit32_zero, lemma_bit64_and_le, lemma_bit64_low_half, lemma_bit64_set, lemma_bit64_zero,
};

verus! {

pub const CMP_EQ: u8 = 0;
pub const CMP_NE: u8 = 1;
pub const CMP_GT: u8 = 2;
pub const CMP_LT: u8 = 3;

pub const SET_ASSIGN: u8 = 0;
pub const SET_OR: u8 = 1;
pub const SET_XOR: u8 = 2;
pub const SET_AND: u8 = 3;

/// How a packed element is compared against the requested value; its code is
/// the matching `CMP_*` constant.
pub enum CmpFlag {
    Eq,
    Ne,
    Gt,
    Lt,
}

/// How the freshly computed mask is merged into the bitfield; its code is the
/// matching `SET_*` constant.
pub enum SetFlag {
    Assign,
    Or,
    Xor,
    And,
}

impl CmpFlag {
    pub open spec fn code(self) -> u8 {
        match self {
            CmpFlag::Eq => CMP_EQ,
            CmpFlag::Ne => CMP_NE,
            CmpFlag::Gt => CMP_GT,
            CmpFlag::Lt => CMP_LT,
        }
    }

    /// The flag whose code is `code`.
    pub fn from_code(code: u8) -> (r: CmpFlag)
        requires
            code < 4,
        ensures
            r.code() == code,
    {
        if code == CMP_EQ {
            CmpFlag::Eq
        } else if code == CMP_NE {
            CmpFlag::Ne
        } else if code == CMP_GT {
            CmpFlag::Gt
        } else {
            CmpFlag::Lt
        }
    }
}

impl SetFlag {
    pub open spec fn code(self) -> u8 {
        match self {
            SetFlag::Assign => SET_ASSIGN,
            SetFlag::Or => SET_OR,
            SetFlag::Xor => SET_XOR,
            SetFlag::And => SET_AND,
        }
    }

    /// The flag whose code is `code`.
    pub fn from_code(code: u8) -> (r: SetFlag)
        requires
            code < 4,
        ensures
            r.code() == code,
    {
        if code == SET_ASSIGN {
            SetFlag::Assign
        } else if code == SET_OR {
            SetFlag::Or
        } else if code == SET_XOR {
            SetFlag::Xor
        } else {
            SetFlag::And
        }
    }
}

/// Whether `lhs` stands in relation `op` to `rhs`.
pub open spec fn compare_holds(op: u8, lhs: int, rhs: int) -> bool {
    if op == CMP_EQ {
        lhs == rhs
    } else if op == CMP_NE {
        lhs != rhs
    } else if op == CMP_GT {
        lhs > rhs
    } else {
        lhs < rhs
    }
}

/// The word that `set` leaves in place of `target` when `data` is merged into it.
pub open spec fn set_word(set: u8, target: u32, data: u32) -> u32 {
    if set == SET_ASSIGN {
        data
    } else if set == SET_OR {
        target | data
    } else if set == SET_XOR {
        target ^ data
    } else {
        target & data
    }
}

/// The same rule on a single bit.
pub open spec fn set_bit(set: u8, target: bool, data: bool) -> bool {
    if set == SET_ASSIGN {
        data
    } else if set == SET_OR {
        target || data
    } else if set == SET_XOR {
        target != data
    } else {
        target && data
    }
}

pub proof fn lemma_set_word_bits(set: u8, target: u32, data: u32)
    ensures
        forall|i: u32|
            i < 32 ==> #[trigger] bit32(set_word(set, target, data), i) == set_bit(
                set,
                bit32(target, i),
                bit32(data, i),
            ),
{
    assert forall|i: u32| i < 32 implies #[trigger] bit32(set_word(set, target, data), i)
        == set_bit(set, bit32(target, i), bit32(data, i)) by {
        lemma_bit32_and(target, data, i);
        lemma_bit32_or(target, data, i);
        lemma_bit32_xor(target, data, i);
    }
}

/// The element widths, in bits, that the loaders read.
pub open spec fn valid_width(width: u64) -> bool {
    width == 1 || width == 2 || width == 4 || width == 8 || width == 16
}

/// How many elements of `width` bits one `u64` holds.
pub open spec fn per_word(width: u64) -> int {
    64int / (width as int)
}

pub open spec fn field_mask(width: u64) -> u64 {
    if width == 1 {
        1
    } else if width == 2 {
        3
    } else if width == 4 {
        0xf
    } else if width == 8 {
        0xff
    } else {
        0xffff
    }
}

/// Element `e` of an array of `u64` words read as densely packed unsigned
/// fields of `width` bits, the least significant field of each word first.
pub open spec fn packed_field(data: Seq<u64>, width: u64, e: int) -> u64 {
    (data[e / per_word(width)] >> (((e % per_word(width)) * width) as u64)) & field_mask(width)
}

/// Whether element `e` matches `val` under `op`.
///
/// Elements are compared as unsigned numbers. For 4-bit elements the value in
/// the high nibble of a byte is compared, as a byte, against `val` shifted left
/// by four and truncated to a byte; for a value below 16 that is the same as
/// comparing the nibble against `val`.
pub open spec fn elem_matches(op: u8, width: u64, data: Seq<u64>, val: u64, e: int) -> bool {
    let f = packed_field(data, width, e);
    if width == 4 && e % 2 == 1 {
        compare_holds(op, f * 16, (val * 16) % 256)
    } else {
        compare_holds(op, f as int, val as int)
    }
}

/// Merges `data` into `*target` as `SET` says.
pub(crate) fn apply_set<const SET: u8>(target: &mut u32, data: u32)
    requires
        SET < 4,
    ensures
        *final(target) == set_word(SET, *old(target), data),
{
    match SetFlag::from_code(SET) {
        SetFlag::Assign => *target = data,
        SetFlag::Or => *target = *target | data,
        SetFlag::Xor => *target = *target ^ data,
        SetFlag::And => *target = *target & data,
    }
}

/// Compares `lhs` against `rhs` as `op` says.
pub(crate) fn apply_compare(op: u8, lhs: u64, rhs: u64) -> (r: bool)
    requires
        op < 4,
    ensures
        r == compare_holds(op, lhs as int, rhs as int),
{
    match CmpFlag::from_code(op) {
        CmpFlag::Eq => lhs == rhs,
        CmpFlag::Ne => lhs != rhs,
        CmpFlag::Gt => lhs > rhs,
        CmpFlag::Lt => lhs < rhs,
    }
}

fn field_mask_of(width: u64) -> (r: u64)
    requires
        valid_width(width),
    ensures
        r == field_mask(width),
{
    if width == 1 {
        1
    } else if width == 2 {
        3
    } else if width == 4 {
        0xf
    } else if width == 8 {
        0xff
    } else {
        0xffff
    }
}

/// The mask of `count` consecutive elements starting at element `first`: bit
/// `j` is set when element `first + j` matches.
pub(crate) fn match_bits(data: &[u64], width: u64, op: u8, val: u64, first: usize, count: u64) -> (r: u64)
    requires
        valid_width(width),
        op < 4,
        val <= 0xffff,
        count <= 64,
        first + count <= data@.len() * per_word(width),
        first + count <= usize::MAX,
    ensures
        forall|j: u64|
            j < 64 ==> #[trigger] bit64(r, j) == (j < count && elem_matches(
                op,
                width,
                data@,
                val,
                first + j,
            )),
{
    let per: usize = (64 / width) as usize;
    let mask = field_mask_of(width);
    let mut r: u64 = 0;
    let mut j: u64 = 0;
    assert forall|k: u64| k < 64 implies #[trigger] bit64(r, k) == (k < j && elem_matches(
        op,
        width,
        data@,
        val,
        first + k,
    )) by {
        lemma_bit64_zero(k);
    }
    while j < count
        invariant
            valid_width(width),
            op < 4,
            val <= 0xffff,
            count <= 64,
            first + count <= data@.len() * per_word(width),
            first + count <= usize::MAX,
            per == per_word(width),
            mask == field_mask(width),
            j <= count,
            forall|k: u64|
                k < 64 ==> #[trigger] bit64(r, k) == (k < j && elem_matches(
                    op,
                    width,
                    data@,
                    val,
                    first + k,
                )),
        decreases count - j,
    {
        let e: usize = first + j as usize;
        assert(e / per < data@.len()) by (nonlinear_arith)
            requires
                e < data@.len() * per,
                per > 0,
        ;
        let slot: usize = e % per;
        assert(slot * width < 64) by (nonlinear_arith)
            requires
                slot < per,
                per * width == 64,
        ;
        let shift: usize = slot * (width as usize);
        let field = (data[e / per] >> (shift as u64)) & mask;
        proof {
            lemma_bit64_and_le(data@[(e / per) as int] >> (shift as u64), mask);
        }
        let hit = if width == 4 && e % 2 == 1 {
            apply_compare(op, field * 16, (val * 16) % 256)
        } else {
            apply_compare(op, field, val)
        };
        let ghost old_r = r;
        if hit {
            r = r | (1u64 << j);
        }
        assert forall|k: u64| k < 64 implies #[trigger] bit64(r, k) == (k < j + 1
            && elem_matches(op, width, data@, val, first + k)) by {
            if hit {
                lemma_bit64_set(old_r, j, k);
            }
        }
        j += 1;
    }
    r
}

/// Whether `new_w`, the word at index `w` of a bitfield, is what merging the
/// matches of elements `32 * w` to `32 * w + 31` into `old_w` gives.
pub open spec fn word_loaded(
    set: u8,
    op: u8,
    width: u64,
    data: Seq<u64>,
    val: u64,
    old_w: u32,
    new_w: u32,
    w: int,
) -> bool {
    forall|b: u32|
        b < 32 ==> #[trigger] bit32(new_w, b) == set_bit(
            set,
            bit32(old_w, b),
            elem_matches(op, width, data, val, 32 * w + b),
        )
}

/// Whether `new` is `old` with every word that `touched` selects loaded, and
/// every other word left as it was.
pub open spec fn loaded(
    old: Seq<u32>,
    new: Seq<u32>,
    set: u8,
    op: u8,
    width: u64,
    data: Seq<u64>,
    val: u64,
    touched: spec_fn(int) -> bool,
) -> bool {
    &&& new.len() == old.len()
    &&& forall|w: int|
        0 <= w < old.len() ==> if touched(w) {
            word_loaded(set, op, width, data, val, old[w], #[trigger] new[w], w)
        } else {
            new[w] == old[w]
        }
}

/// The mask of a 1-bit element block: bit `i` tells whether bit `i` of
/// `*data` matches `match_val`.
pub(crate) fn process_packed_u1(data: &u32, op: u8, match_val: bool) -> (r: u32)
    requires
        op < 4,
    ensures
        forall|i: u32|
            i < 32 ==> #[trigger] bit32(r, i) == compare_holds(
                op,
                if bit32(*data, i) { 1int } else { 0int },
                if match_val { 1int } else { 0int },
            ),
{
    let r = if match_val {
        match CmpFlag::from_code(op) {
            CmpFlag::Eq => *data,
            CmpFlag::Ne => !*data,
            CmpFlag::Gt => 0,
            CmpFlag::Lt => !*data,
        }
    } else {
        match CmpFlag::from_code(op) {
            CmpFlag::Eq => !*data,
            CmpFlag::Ne => *data,
            CmpFlag::Gt => *data,
            CmpFlag::Lt => 0,
        }
    };
    assert forall|i: u32| i < 32 implies #[trigger] bit32(r, i) == compare_holds(
        op,
        if bit32(*data, i) { 1int } else { 0int },
        if match_val { 1int } else { 0int },
    ) by {
        lemma_bit32_not(*data, i);
        lemma_bit32_zero(i);
    }
    r
}

/// The masks of the 256 two-bit elements in the eight words from
/// `data[base]`, 64 elements per mask.
pub(crate) fn process_packed_u2(data: &[u64], base: usize, op: u8, match_val: u8) -> (r: (
    u64,
    u64,
    u64,
    u64,
))
    requires
        base + 8 <= data@.len(),
        data@.len() * 32 <= usize::MAX,
        op < 4,
        match_val < 4,
    ensures
        forall|j: u64|
            j < 64 ==> #[trigger] bit64(r.0, j) == elem_matches(
                op,
                2,
                data@,
                match_val as u64,
                32 * base + j,
            ),
        forall|j: u64|
            j < 64 ==> #[trigger] bit64(r.1, j) == elem_matches(
                op,
                2,
                data@,
                match_val as u64,
                32 * base + 64 + j,
            ),
        forall|j: u64|
            j < 64 ==> #[trigger] bit64(r.2, j) == elem_matches(
                op,
                2,
                data@,
                match_val as u64,
                32 * base + 128 + j,
            ),
        forall|j: u64|
            j < 64 ==> #[trigger] bit64(r.3, j) == elem_matches(
                op,
                2,
                data@,
                match_val as u64,
                32 * base + 192 + j,
            ),
{
    assert(base * 32 + 256 <= data@.len() * 32) by (nonlinear_arith)
        requires
            base + 8 <= data@.len(),
    ;
    let first = base * 32;
    let a = match_bits(data, 2, op, match_val as u64, first, 64);
    let b = match_bits(data, 2, op, match_val as u64, first + 64, 64);
    let c = match_bits(data, 2, op, match_val as u64, first + 128, 64);
    let d = match_bits(data, 2, op, match_val as u64, first + 192, 64);
    assert forall|j: u64| j < 64 implies #[trigger] bit64(b, j) == elem_matches(op, 2, data@, match_val as u64, 32 * base + 64 + j) by {
        assert(bit64(b, j) == elem_matches(op, 2, data@, match_val as u64, first + 64 + j));
    }
    assert forall|j: u64| j < 64 implies #[trigger] bit64(c, j) == elem_matches(op, 2, data@, match_val as u64, 32 * base + 128 + j) by {
        assert(bit64(c, j) == elem_matches(op, 2, data@, match_val as u64, first + 128 + j));
    }
    assert forall|j: u64| j < 64 implies #[trigger] bit64(d, j) == elem_matches(op, 2, data@, match_val as u64, 32 * base + 192 + j) by {
        assert(bit64(d, j) == elem_matches(op, 2, data@, match_val as u64, first + 192 + j));
    }
    (a, b, c, d)
}

/// The masks of the 128 four-bit elements in the eight words from
/// `data[base]`, 64 elements per mask.
pub(crate) fn process_packed_u4(data: &[u64], base: usize, op: u8, value: u8) -> (r: (u64, u64))
    requires
        base + 8 <= data@.len(),
        data@.len() * 16 <= usize::MAX,
        op < 4,
    ensures
        forall|j: u64|
            j < 64 ==> #[trigger] bit64(r.0, j) == elem_matches(
                op,
                4,
                data@,
                value as u64,
                16 * base + j,
            ),
        forall|j: u64|
            j < 64 ==> #[trigger] bit64(r.1, j) == elem_matches(
                op,
                4,
                data@,
                value as u64,
                16 * base + 64 + j,
            ),
{
    assert(base * 16 + 128 <= data@.len() * 16) by (nonlinear_arith)
        requires
            base + 8 <= data@.len(),
    ;
    let first = base * 16;
    let a = match_bits(data, 4, op, value as u64, first, 64);
    let b = match_bits(data, 4, op, value as u64, first + 64, 64);
    assert forall|j: u64| j < 64 implies #[trigger] bit64(b, j) == elem_matches(op, 4, data@, value as u64, 16 * base + 64 + j) by {
        assert(bit64(b, j) == elem_matches(op, 4, data@, value as u64, first + 64 + j));
    }
    (a, b)
}

/// The mask of the 64 bytes in the eight words from `data[base]`.
pub(crate) fn process_packed_u8(data: &[u64], base: usize, op: u8, value: u8) -> (r: u64)
    requires
        base + 8 <= data@.len(),
        data@.len() * 8 <= usize::MAX,
        op < 4,
    ensures
        forall|j: u64|
            j < 64 ==> #[trigger] bit64(r, j) == elem_matches(
                op,
                8,
                data@,
                value as u64,
                8 * base + j,
            ),
{
    assert(base * 8 + 64 <= data@.len() * 8) by (nonlinear_arith)
        requires
            base + 8 <= data@.len(),
    ;
    match_bits(data, 8, op, value as u64, base * 8, 64)
}

/// The mask of the 32 sixteen-bit elements in the eight words from
/// `data[base]`.
pub(crate) fn process_packed_u16(data: &[u64], base: usize, op: u8, value: u16) -> (r: u32)
    requires
        base + 8 <= data@.len(),
        data@.len() * 4 <= usize::MAX,
        op < 4,
    ensures
        forall|j: u32|
            j < 32 ==> #[trigger] bit32(r, j) == elem_matches(
                op,
                16,
                data@,
                value as u64,
                4 * base + j,
            ),
{
    assert(base * 4 + 32 <= data@.len() * 4) by (nonlinear_arith)
        requires
            base + 8 <= data@.len(),
    ;
    let bits = match_bits(data, 16, op, value as u64, base * 4, 32);
    assert forall|j: u32| j < 32 implies #[trigger] bit32(#[verifier::truncate] (bits as u32), j) == elem_matches(
        op,
        16,
        data@,
        value as u64,
        4 * base + j,
    ) by {
        lemma_bit64_low_half(bits, j);
    }
    #[verifier::truncate] (bits as u32)
}

/// Loading 1-bit data by assignment: bit `b` of word `w` is how bit `32 * w + b`
/// of `data` (word `n / 64`, bit `n % 64`), as the number 0 or 1, compares with
/// `val` as 0 or 1: equal, different, greater or smaller, as `op` says.
pub proof fn lemma_load_u1_compares(
    old: Seq<u32>,
    new: Seq<u32>,
    op: u8,
    data: Seq<u64>,
    val: bool,
    touched: spec_fn(int) -> bool,
)
    requires
        op < 4,
        loaded(old, new, SET_ASSIGN, op, 1, data, (if val { 1u64 } else { 0u64 }), touched),
    ensures
        forall|w: int, b: u32|
            #![trigger bit32(new[w], b)]
            0 <= w < old.len() && b < 32 && touched(w) ==> {
                let x = (data[(32 * w + b) / 64] >> (((32 * w + b) % 64) as u64)) & 1u64;
                let v = (if val { 1u64 } else { 0u64 });
                &&& op == CMP_EQ ==> (bit32(new[w], b) <==> x == v)
                &&& op == CMP_NE ==> (bit32(new[w], b) <==> x != v)
                &&& op == CMP_GT ==> (bit32(new[w], b) <==> x > v)
                &&& op == CMP_LT ==> (bit32(new[w], b) <==> x < v)
            },
{
    assert forall|w: int, b: u32|
        0 <= w < old.len() && b < 32 && touched(w) implies #[trigger] bit32(new[w], b)
            == elem_matches(op, 1, data, (if val { 1u64 } else { 0u64 }), 32 * w + b) by {
        assert(word_loaded(SET_ASSIGN, op, 1, data, (if val { 1u64 } else { 0u64 }), old[w], new[w], w));
    }
}

/// Loading 2-bit elements by assignment: bit `b` of word `w` is how element
/// `32 * w + b` (word `n / 32`, bits `2 * (n % 32)` up), read as an unsigned
/// number, compares with `val`, the element on the left.
pub proof fn lemma_load_u2_compares(
    old: Seq<u32>,
    new: Seq<u32>,
    op: u8,
    data: Seq<u64>,
    val: u8,
    touched: spec_fn(int) -> bool,
)
    requires
        op < 4,
        loaded(old, new, SET_ASSIGN, op, 2, data, (val as u64), touched),
        val < 4,
    ensures
        forall|w: int, b: u32|
            #![trigger bit32(new[w], b)]
            0 <= w < old.len() && b < 32 && touched(w) ==> {
                let x = (data[(32 * w + b) / 32] >> ((2 * ((32 * w + b) % 32)) as u64)) & 3u64;
                let v = (val as u64);
                &&& op == CMP_EQ ==> (bit32(new[w], b) <==> x == v)
                &&& op == CMP_NE ==> (bit32(new[w], b) <==> x != v)
                &&& op == CMP_GT ==> (bit32(new[w], b) <==> x > v)
                &&& op == CMP_LT ==> (bit32(new[w], b) <==> x < v)
            },
{
    assert forall|w: int, b: u32|
        0 <= w < old.len() && b < 32 && touched(w) implies #[trigger] bit32(new[w], b)
            == elem_matches(op, 2, data, (val as u64), 32 * w + b) by {
        assert(word_loaded(SET_ASSIGN, op, 2, data, (val as u64), old[w], new[w], w));
    }
}

/// Loading 4-bit elements by assignment with a value that fits in four bits:
/// bit `b` of word `w` is how element `32 * w + b` (word `n / 16`, bits
/// `4 * (n % 16)` up), read as an unsigned number, compares with `val`, the
/// element on the left.
pub proof fn lemma_load_u4_compares(
    old: Seq<u32>,
    new: Seq<u32>,
    op: u8,
    data: Seq<u64>,
    val: u8,
    touched: spec_fn(int) -> bool,
)
    requires
        op < 4,
        loaded(old, new, SET_ASSIGN, op, 4, data, (val as u64), touched),
        val < 16,
    ensures
        forall|w: int, b: u32|
            #![trigger bit32(new[w], b)]
            0 <= w < old.len() && b < 32 && touched(w) ==> {
                let x = (data[(32 * w + b) / 16] >> ((4 * ((32 * w + b) % 16)) as u64)) & 0xfu64;
                let v = (val as u64);
                &&& op == CMP_EQ ==> (bit32(new[w], b) <==> x == v)
                &&& op == CMP_NE ==> (bit32(new[w], b) <==> x != v)
                &&& op == CMP_GT ==> (bit32(new[w], b) <==> x > v)
                &&& op == CMP_LT ==> (bit32(new[w], b) <==> x < v)
            },
{
    assert forall|w: int, b: u32|
        0 <= w < old.len() && b < 32 && touched(w) implies #[trigger] bit32(new[w], b)
            == elem_matches(op, 4, data, (val as u64), 32 * w + b) by {
        assert(word_loaded(SET_ASSIGN, op, 4, data, (val as u64), old[w], new[w], w));
    }
}

/// Loading 8-bit elements by assignment: bit `b` of word `w` is how byte
/// `32 * w + b` (word `n / 8`, bits `8 * (n % 8)` up), read as an unsigned
/// number, compares with `val`, the element on the left.
pub proof fn lemma_load_u8_compares(
    old: Seq<u32>,
    new: Seq<u32>,
    op: u8,
    data: Seq<u64>,
    val: u8,
    touched: spec_fn(int) -> bool,
)
    requires
        op < 4,
        loaded(old, new, SET_ASSIGN, op, 8, data, (val as u64), touched),
    ensures
        forall|w: int, b: u32|
            #![trigger bit32(new[w], b)]
            0 <= w < old.len() && b < 32 && touched(w) ==> {
                let x = (data[(32 * w + b) / 8] >> ((8 * ((32 * w + b) % 8)) as u64)) & 0xffu64;
                let v = (val as u64);
                &&& op == CMP_EQ ==> (bit32(new[w], b) <==> x == v)
                &&& op == CMP_NE ==> (bit32(new[w], b) <==> x != v)
                &&& op == CMP_GT ==> (bit32(new[w], b) <==> x > v)
                &&& op == CMP_LT ==> (bit32(new[w], b) <==> x < v)
            },
{
    assert forall|w: int, b: u32|
        0 <= w < old.len() && b < 32 && touched(w) implies #[trigger] bit32(new[w], b)
            == elem_matches(op, 8, data, (val as u64), 32 * w + b) by {
        assert(word_loaded(SET_ASSIGN, op, 8, data, (val as u64), old[w], new[w], w));
    }
}

/// Loading 16-bit elements by assignment: bit `b` of word `w` is how element
/// `32 * w + b` (word `n / 4`, bits `16 * (n % 4)` up), read as an unsigned
/// number, compares with `val`, the element on the left.
pub proof fn lemma_load_u16_compares(
    old: Seq<u32>,
    new: Seq<u32>,
    op: u8,
    data: Seq<u64>,
    val: u16,
    touched: spec_fn(int) -> bool,
)
    requires
        op < 4,
        loaded(old, new, SET_ASSIGN, op, 16, data, (val as u64), touched),
    ensures
        forall|w: int, b: u32|
            #![trigger bit32(new[w], b)]
            0 <= w < old.len() && b < 32 && touched(w) ==> {
                let x = (data[(32 * w + b) / 4] >> ((16 * ((32 * w + b) % 4)) as u64)) & 0xffffu64;
                let v = (val as u64);
                &&& op == CMP_EQ ==> (bit32(new[w], b) <==> x == v)
                &&& op == CMP_NE ==> (bit32(new[w], b) <==> x != v)
                &&& op == CMP_GT ==> (bit32(new[w], b) <==> x > v)
                &&& op == CMP_LT ==> (bit32(new[w], b) <==> x < v)
            },
{
    assert forall|w: int, b: u32|
        0 <= w < old.len() && b < 32 && touched(w) implies #[trigger] bit32(new[w], b)
            == elem_matches(op, 16, data, (val as u64), 32 * w + b) by {
        assert(word_loaded(SET_ASSIGN, op, 16, data, (val as u64), old[w], new[w], w));
    }
}

/// A load that merges is the assigning load merged in: where `fresh` is what
/// loading the same elements by assignment leaves (from any start), every
/// loaded word of `new` is the old word or-ed, xor-ed or and-ed with the
/// word of `fresh`, or that word itself, as `set` says.
pub proof fn lemma_load_merges(
    old: Seq<u32>,
    new: Seq<u32>,
    start: Seq<u32>,
    fresh: Seq<u32>,
    set: u8,
    op: u8,
    width: u64,
    data: Seq<u64>,
    val: u64,
    touched: spec_fn(int) -> bool,
)
    requires
        set < 4,
        loaded(old, new, set, op, width, data, val, touched),
        loaded(start, fresh, SET_ASSIGN, op, width, data, val, touched),
        start.len() == old.len(),
    ensures
        forall|w: int|
            0 <= w < old.len() && touched(w) ==> #[trigger] new[w] == if set == SET_OR {
                old[w] | fresh[w]
            } else if set == SET_XOR {
                old[w] ^ fresh[w]
            } else if set == SET_AND {
                old[w] & fresh[w]
            } else {
                fresh[w]
            },
{
    assert forall|w: int| 0 <= w < old.len() && touched(w) implies #[trigger] new[w] == if set
        == SET_OR {
        old[w] | fresh[w]
    } else if set == SET_XOR {
        old[w] ^ fresh[w]
    } else if set == SET_AND {
        old[w] & fresh[w]
    } else {
        fresh[w]
    } by {
        let expect = if set == SET_OR {
            old[w] | fresh[w]
        } else if set == SET_XOR {
            old[w] ^ fresh[w]
        } else if set == SET_AND {
            old[w] & fresh[w]
        } else {
            fresh[w]
        };
        assert(word_loaded(set, op, width, data, val, old[w], new[w], w));
        assert(word_loaded(SET_ASSIGN, op, width, data, val, start[w], fresh[w], w));
        assert forall|i: u32| i < 32 implies #[trigger] bit32(new[w], i) == bit32(expect, i) by {
            lemma_bit32_and(old[w], fresh[w], i);
            lemma_bit32_or(old[w], fresh[w], i);
            lemma_bit32_xor(old[w], fresh[w], i);
        }
        crate::bits::lemma_bit32_ext(new[w], expect);
    }
}

} // verus!
