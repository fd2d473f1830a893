//! Lane groups: the bits of a 32-bit mask taken `lanes` at a time, as a
//! vector unit of `lanes` lanes would take the rows or slices they stand for.
//! A group starts at a multiple of `lanes`; the walks below yield the start of
//! each group that holds a set bit.
use vstd::prelude::*;
use vstd::std_specs::bits::u32_trailing_zeros;

use crate::bits::{bit32, lemma_bit32_zero, lemma_lowest_bit};

verus! {

/// The lane counts a vector unit offers.
pub open spec fn valid_lanes(lanes: u32) -> bool {
    lanes == 4 || lanes == 8 || lanes == 16
}

/// The mask of the lowest `lanes` bits.
pub open spec fn lane_mask(lanes: u32) -> u32 {
    ((1u32 << lanes) - 1) as u32
}

/// Whether `m` has a set bit in the group of `lanes` bits from bit `g`.
pub open spec fn group_has(m: u32, g: int, lanes: u32) -> bool {
    exists|i: u32| g <= i < g + lanes && i < 32 && #[trigger] bit32(m, i)
}

/// Measure of the bits from `g` up to the top of a word.
pub open spec fn bits_above(g: int) -> int {
    if g < 32 {
        32 - g
    } else {
        0
    }
}

/// The starts, each added to `base`, of the groups from bit `g` on that hold
/// a set bit of `m`, lowest first.
pub open spec fn group_starts(m: u32, lanes: u32, base: int, g: int) -> Seq<int>
    decreases bits_above(g),
{
    if g >= 32 || lanes == 0 {
        Seq::empty()
    } else {
        let rest = group_starts(m, lanes, base, g + lanes);
        if group_has(m, g, lanes) {
            seq![base + g] + rest
        } else {
            rest
        }
    }
}

/// For each slice from `s` on whose bit is set in `slices`, lowest first, the
/// starts of the groups of its row mask in `rows` that hold an active row,
/// counted in words of the cube.
pub open spec fn slice_groups(slices: u32, rows: Seq<u32>, lanes: u32, s: int) -> Seq<int>
    decreases bits_above(s),
{
    if s >= 32 {
        Seq::empty()
    } else {
        let here = if 0 <= s && bit32(slices, s as u32) {
            group_starts(rows[s], lanes, 32 * s, 0)
        } else {
            Seq::empty()
        };
        here + slice_groups(slices, rows, lanes, s + 1)
    }
}

/// Clearing the group of `lanes` bits from `row` leaves the other bits.
proof fn lemma_group_clear(m: u32, lanes: u32, row: u32, i: u32)
    by (bit_vector)
    requires
        lanes == 4u32 || lanes == 8u32 || lanes == 16u32,
        row & ((lanes - 1) as u32) == 0u32,
        row < 32,
        i < 32,
    ensures
        bit32(m & !((((1u32 << lanes) - 1) as u32) << row), i) == (bit32(m, i) && !(row <= i && i
            < row + lanes)),
{
}

/// The start of the group that holds bit `t`.
pub proof fn lemma_group_of(t: u32, lanes: u32)
    by (bit_vector)
    requires
        lanes == 4u32 || lanes == 8u32 || lanes == 16u32,
        t < 32,
    ensures
        t & !((lanes - 1) as u32) <= t,
        t < (t & !((lanes - 1) as u32)) + lanes,
        (t & !((lanes - 1) as u32)) & ((lanes - 1) as u32) == 0u32,
        (t & !((lanes - 1) as u32)) % lanes == 0,
        1u32 << lanes >= 1,
{
}

/// Group starts `x` and `y`, `x` below `y`, are a whole group apart.
proof fn lemma_group_gap(x: int, y: int, lanes: u32)
    requires
        valid_lanes(lanes),
        0 <= x < y,
        x % (lanes as int) == 0,
        y % (lanes as int) == 0,
    ensures
        x + lanes <= y,
{
    let l = lanes as int;
    let qx = x / l;
    let qy = y / l;
    if lanes == 4 {
        assert(x == 4 * qx && y == 4 * qy);
    } else if lanes == 8 {
        assert(x == 8 * qx && y == 8 * qy);
    } else {
        assert(x == 16 * qx && y == 16 * qy);
    }
    assert(qx < qy) by (nonlinear_arith)
        requires
            x == l * qx,
            y == l * qy,
            x < y,
            l > 0,
    ;
    assert(x + l <= y) by (nonlinear_arith)
        requires
            x == l * qx,
            y == l * qy,
            qx + 1 <= qy,
            l > 0,
    ;
}

/// The next group start after a group start is one too.
proof fn lemma_group_next(g: int, lanes: u32)
    requires
        valid_lanes(lanes),
        g % (lanes as int) == 0,
    ensures
        (g + lanes) % (lanes as int) == 0,
{
    vstd::arithmetic::div_mod::lemma_mod_add_multiples_vanish(g, lanes as int);
}

/// Groups that hold no set bit add no start.
proof fn lemma_group_starts_skip(m: u32, lanes: u32, base: int, g: int, h: int)
    requires
        valid_lanes(lanes),
        0 <= g <= h,
        g % (lanes as int) == 0,
        h % (lanes as int) == 0,
        forall|x: int| g <= x < h && x % (lanes as int) == 0 ==> !#[trigger] group_has(m, x, lanes),
    ensures
        group_starts(m, lanes, base, g) == group_starts(m, lanes, base, h),
    decreases h - g,
{
    if g < h && g < 32 {
        assert(!group_has(m, g, lanes));
        lemma_group_gap(g, h, lanes);
        lemma_group_next(g, lanes);
        lemma_group_starts_skip(m, lanes, base, g + lanes, h);
    } else if g < h {
        assert(group_starts(m, lanes, base, g) == Seq::<int>::empty());
        assert(group_starts(m, lanes, base, h) == Seq::<int>::empty());
    }
}

/// Masks with set bits in the same groups from `g` on have the same starts.
proof fn lemma_group_starts_agree(m1: u32, m2: u32, lanes: u32, base: int, g: int)
    requires
        valid_lanes(lanes),
        0 <= g,
        g % (lanes as int) == 0,
        forall|x: int|
            g <= x < 32 && x % (lanes as int) == 0 ==> #[trigger] group_has(m1, x, lanes) == group_has(
                m2,
                x,
                lanes,
            ),
    ensures
        group_starts(m1, lanes, base, g) == group_starts(m2, lanes, base, g),
    decreases bits_above(g),
{
    if g < 32 {
        lemma_group_next(g, lanes);
        lemma_group_starts_agree(m1, m2, lanes, base, g + lanes);
        assert(group_has(m1, g, lanes) == group_has(m2, g, lanes));
    }
}

/// A mask without set bits yields no start.
pub proof fn lemma_group_starts_zero(lanes: u32, base: int)
    requires
        valid_lanes(lanes),
    ensures
        group_starts(0u32, lanes, base, 0) == Seq::<int>::empty(),
{
    assert forall|x: int| 0 <= x < 32 && x % (lanes as int) == 0 implies !#[trigger] group_has(
        0u32,
        x,
        lanes,
    ) by {
        assert forall|i: u32| i < 32 implies !#[trigger] bit32(0u32, i) by {
            lemma_bit32_zero(i);
        }
    }
    lemma_group_starts_skip(0u32, lanes, base, 0, 32);
}

/// The lowest group of a nonzero mask: its start is the lowest start, and
/// clearing it, as `m & !(lane_mask << row)` does, leaves the other groups.
pub proof fn lemma_group_pop(m: u32, lanes: u32, base: int, row: u32, rest: u32)
    requires
        valid_lanes(lanes),
        m != 0,
        row == u32_trailing_zeros(m) & !((lanes - 1) as u32),
        rest == m & !((((1u32 << lanes) - 1) as u32) << row),
    ensures
        row < 32,
        group_starts(m, lanes, base, 0) == seq![base + row] + group_starts(rest, lanes, base, 0),
{
    let t = u32_trailing_zeros(m);
    lemma_lowest_bit(m);
    lemma_group_of(t as u32, lanes);
    assert forall|i: u32| i < 32 implies #[trigger] bit32(rest, i) == (bit32(m, i) && !(row <= i
        && i < row + lanes)) by {
        lemma_group_clear(m, lanes, row, i);
    }
    // No group of `m` below `row`: its bits lie below the lowest set bit.
    assert forall|x: int| 0 <= x < row && x % (lanes as int) == 0 implies !#[trigger] group_has(
        m,
        x,
        lanes,
    ) by {
        lemma_group_gap(x, row as int, lanes);
    }
    lemma_group_starts_skip(m, lanes, base, 0, row as int);
    assert(group_has(m, row as int, lanes)) by {
        assert(bit32(m, t as u32));
    }
    assert(group_starts(m, lanes, base, row as int) == seq![base + row] + group_starts(
        m,
        lanes,
        base,
        row + lanes,
    ));
    // `rest` has no group up to and including `row`.
    assert forall|x: int| 0 <= x < row + lanes && x % (lanes as int) == 0 implies !#[trigger] group_has(
        rest,
        x,
        lanes,
    ) by {
        if x < row {
            lemma_group_gap(x, row as int, lanes);
        } else if x > row {
            lemma_group_gap(row as int, x, lanes);
        }
    }
    lemma_group_next(row as int, lanes);
    lemma_group_starts_skip(rest, lanes, base, 0, row + lanes);
    // Above `row` the groups of `rest` are those of `m`.
    assert forall|x: int| row + lanes <= x < 32 && x % (lanes as int) == 0 implies #[trigger] group_has(
        rest,
        x,
        lanes,
    ) == group_has(m, x, lanes) by {
        if group_has(m, x, lanes) {
            let i = choose|i: u32| x <= i < x + lanes && i < 32 && #[trigger] bit32(m, i);
            assert(bit32(rest, i));
        }
    }
    lemma_group_starts_agree(rest, m, lanes, base, row + lanes);
}

/// Slices whose bit is clear add no start.
proof fn lemma_slice_groups_skip(slices: u32, rows: Seq<u32>, lanes: u32, s: int, h: int)
    requires
        0 <= s <= h <= 32,
        forall|x: u32| s <= x < h ==> !#[trigger] bit32(slices, x),
    ensures
        slice_groups(slices, rows, lanes, s) == slice_groups(slices, rows, lanes, h),
    decreases h - s,
{
    if s < h {
        assert(!bit32(slices, s as u32));
        lemma_slice_groups_skip(slices, rows, lanes, s + 1, h);
        assert(slice_groups(slices, rows, lanes, s) =~= slice_groups(slices, rows, lanes, s + 1));
    }
}

/// Slice masks with the same bits from `s` on give the same starts.
proof fn lemma_slice_groups_agree(a: u32, b: u32, rows: Seq<u32>, lanes: u32, s: int)
    requires
        0 <= s,
        forall|x: u32| s <= x < 32 ==> #[trigger] bit32(a, x) == bit32(b, x),
    ensures
        slice_groups(a, rows, lanes, s) == slice_groups(b, rows, lanes, s),
    decreases bits_above(s),
{
    if s < 32 {
        assert(bit32(a, s as u32) == bit32(b, s as u32));
        lemma_slice_groups_agree(a, b, rows, lanes, s + 1);
    }
}

/// A slice mask without set bits yields no start.
pub proof fn lemma_slice_groups_zero(rows: Seq<u32>, lanes: u32)
    ensures
        slice_groups(0u32, rows, lanes, 0) == Seq::<int>::empty(),
{
    assert forall|x: u32| 0 <= x < 32 implies !#[trigger] bit32(0u32, x) by {
        lemma_bit32_zero(x);
    }
    lemma_slice_groups_skip(0u32, rows, lanes, 0, 32);
}

/// The lowest active slice comes first, and clearing its bit, as
/// `c & (c - 1)` does, leaves the others.
pub proof fn lemma_slice_pop(c: u32, rows: Seq<u32>, lanes: u32)
    requires
        c != 0,
    ensures
        u32_trailing_zeros(c) < 32,
        slice_groups(c, rows, lanes, 0) == group_starts(
            rows[u32_trailing_zeros(c) as int],
            lanes,
            32 * u32_trailing_zeros(c),
            0,
        ) + slice_groups(c & ((c - 1) as u32), rows, lanes, 0),
{
    let t = u32_trailing_zeros(c);
    let d = c & ((c - 1) as u32);
    lemma_lowest_bit(c);
    lemma_slice_groups_skip(c, rows, lanes, 0, t as int);
    assert forall|x: u32| 0 <= x < t + 1 implies !#[trigger] bit32(d, x) by {}
    lemma_slice_groups_skip(d, rows, lanes, 0, t + 1);
    lemma_slice_groups_agree(c, d, rows, lanes, t + 1);
}

} // verus!
