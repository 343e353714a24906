//! A bitboard is a `u64` read as a set of squares: square `j` is a member
//! exactly when bit `j` is set. This module holds that reading and the facts
//! about the machine operations that the rest of the crate reasons with.
use vstd::prelude::*;
use vstd::std_specs::bits::*;

verus! {

/// Whether square `j` is a member of the bitboard `x`.
pub open spec fn bit(x: u64, j: int) -> bool {
    0 <= j < 64 && (x >> (j as u64)) & 1 == 1
}

/// The bitboard with the single member `j`.
pub open spec fn single(j: int) -> u64 {
    1u64 << (j as u64)
}

proof fn bv_bit_ops(a: u64, b: u64, j: u64)
    by (bit_vector)
    requires
        j < 64,
    ensures
        ((a | b) >> j) & 1 == 1 <==> ((a >> j) & 1 == 1 || (b >> j) & 1 == 1),
        ((a & b) >> j) & 1 == 1 <==> ((a >> j) & 1 == 1 && (b >> j) & 1 == 1),
        ((a ^ b) >> j) & 1 == 1 <==> ((a >> j) & 1 == 1) != ((b >> j) & 1 == 1),
        ((!a) >> j) & 1 == 1 <==> !((a >> j) & 1 == 1),
        (0u64 >> j) & 1 == 0,
        ((!0u64) >> j) & 1 == 1,
{
}

proof fn bv_single(k: u64, j: u64)
    by (bit_vector)
    requires
        j < 64,
        k < 64,
    ensures
        ((1u64 << k) >> j) & 1 == 1 <==> j == k,
        (1u64 << k) != 0,
        (1u64 << k) & (((1u64 << k) - 1) as u64) == 0,
{
}

proof fn bv_shift(x: u64, s: u64, j: u64)
    by (bit_vector)
    requires
        j < 64,
        s < 64,
    ensures
        ((x << s) >> j) & 1 == 1 <==> (j >= s && (x >> ((j - s) as u64)) & 1 == 1),
        ((x >> s) >> j) & 1 == 1 <==> (j + s < 64 && (x >> ((j + s) as u64)) & 1 == 1),
{
}

proof fn bv_ext_step(a: u64, b: u64, k: u64)
    by (bit_vector)
    requires
        k < 64,
        k < 63 ==> (a >> ((k + 1) as u64)) == (b >> ((k + 1) as u64)),
        (a >> k) & 1 == (b >> k) & 1,
    ensures
        a >> k == b >> k,
{
}

proof fn bv_lowest(x: u64, t: u64)
    by (bit_vector)
    requires
        t < 64,
        (x >> t) & 1 == 1,
        t > 0 ==> x << ((64 - t) as u64) == 0,
    ensures
        x != 0,
        x & ((x - 1) as u64) == x & !(1u64 << t),
        x ^ (x & ((x - 1) as u64)) == 1u64 << t,
        x & ((x - 1) as u64) < x,
{
}

proof fn bv_bit_values(x: u64, j: u64)
    by (bit_vector)
    requires
        j < 64,
    ensures
        (x >> j) & 1 == 0 || (x >> j) & 1 == 1,
        x == 0 ==> (x >> j) & 1 == 0,
        (x >> j) & 1 == 1 ==> x >= (1u64 << j),
        (1u64 << j) & x != 0 <==> (x >> j) & 1 == 1,
        (1u64 << j) & x == 0 || (1u64 << j) & x == (1u64 << j),
        x & (1u64 << j) == (1u64 << j) & x,
        x >> 0 == x,
{
}

pub broadcast proof fn lemma_bit_or(a: u64, b: u64, j: int)
    ensures
        #[trigger] bit(a | b, j) == (bit(a, j) || bit(b, j)),
{
    if 0 <= j < 64 {
        bv_bit_ops(a, b, j as u64);
    }
}

pub broadcast proof fn lemma_bit_and(a: u64, b: u64, j: int)
    ensures
        #[trigger] bit(a & b, j) == (bit(a, j) && bit(b, j)),
{
    if 0 <= j < 64 {
        bv_bit_ops(a, b, j as u64);
    }
}

pub broadcast proof fn lemma_bit_xor(a: u64, b: u64, j: int)
    ensures
        #[trigger] bit(a ^ b, j) == (bit(a, j) != bit(b, j)),
{
    if 0 <= j < 64 {
        bv_bit_ops(a, b, j as u64);
    }
}

pub broadcast proof fn lemma_bit_not(a: u64, j: int)
    ensures
        #[trigger] bit(!a, j) == (0 <= j < 64 && !bit(a, j)),
{
    if 0 <= j < 64 {
        bv_bit_ops(a, a, j as u64);
    }
}

pub broadcast proof fn lemma_bit_zero(j: int)
    ensures
        !#[trigger] bit(0u64, j),
{
    if 0 <= j < 64 {
        bv_bit_ops(0, 0, j as u64);
    }
}

pub broadcast proof fn lemma_bit_single(k: int, j: int)
    requires
        0 <= k < 64,
    ensures
        #[trigger] bit(single(k), j) == (j == k),
{
    if 0 <= j < 64 {
        bv_single(k as u64, j as u64);
    }
}

pub proof fn lemma_single_nonzero(k: int)
    requires
        0 <= k < 64,
    ensures
        single(k) != 0,
        single(k) & ((single(k) - 1) as u64) == 0,
{
    bv_single(k as u64, 0);
}

pub broadcast proof fn lemma_bit_shl(x: u64, s: int, j: int)
    requires
        0 <= s < 64,
    ensures
        #[trigger] bit(x << (s as u64), j) == (s <= j < 64 && bit(x, j - s)),
{
    if 0 <= j < 64 {
        bv_shift(x, s as u64, j as u64);
    }
}

pub broadcast proof fn lemma_bit_shr(x: u64, s: int, j: int)
    requires
        0 <= s < 64,
    ensures
        #[trigger] bit(x >> (s as u64), j) == (0 <= j && j + s < 64 && bit(x, j + s)),
{
    if 0 <= j < 64 {
        bv_shift(x, s as u64, j as u64);
    }
}

pub broadcast group group_bits {
    lemma_bit_or,
    lemma_bit_and,
    lemma_bit_xor,
    lemma_bit_not,
    lemma_bit_zero,
    lemma_bit_single,
    lemma_bit_shl,
    lemma_bit_shr,
}

/// A bitboard tested against a single square: the intersection is empty or
/// the square itself.
pub proof fn lemma_test_single(x: u64, k: int)
    requires
        0 <= k < 64,
    ensures
        (single(k) & x != 0) == bit(x, k),
        (x & single(k) != 0) == bit(x, k),
        x & single(k) == single(k) & x,
        single(k) & x == 0 || single(k) & x == single(k),
        bit(x, k) ==> x != 0 && x >= single(k),
{
    bv_bit_values(x, k as u64);
}

proof fn lemma_shr_eq(a: u64, b: u64, k: int)
    requires
        0 <= k < 64,
        forall|j: int| k <= j < 64 ==> #[trigger] bit(a, j) == bit(b, j),
    ensures
        a >> (k as u64) == b >> (k as u64),
    decreases 64 - k,
{
    if k < 63 {
        lemma_shr_eq(a, b, k + 1);
    }
    assert(bit(a, k) == bit(b, k));
    bv_bit_values(a, k as u64);
    bv_bit_values(b, k as u64);
    bv_ext_step(a, b, k as u64);
}

/// Two bitboards with the same members are the same bitboard.
pub proof fn lemma_bits_equal(a: u64, b: u64)
    requires
        forall|j: int| 0 <= j < 64 ==> #[trigger] bit(a, j) == bit(b, j),
    ensures
        a == b,
{
    lemma_shr_eq(a, b, 0);
    bv_bit_values(a, 0);
    bv_bit_values(b, 0);
}

/// A bitboard without members is zero.
pub proof fn lemma_no_members(a: u64)
    requires
        forall|j: int| 0 <= j < 64 ==> !bit(a, j),
    ensures
        a == 0,
{
    broadcast use lemma_bit_zero;

    lemma_bits_equal(a, 0);
}

/// The bitboard of the squares below `n` that satisfy `f`.
pub open spec fn mask_upto(f: spec_fn(int) -> bool, n: nat) -> u64
    decreases n,
{
    if n == 0 {
        0
    } else {
        mask_upto(f, (n - 1) as nat) | (if f(n - 1) {
            single(n - 1)
        } else {
            0
        })
    }
}

/// The bitboard of the squares that satisfy `f`.
pub open spec fn mask_of(f: spec_fn(int) -> bool) -> u64 {
    mask_upto(f, 64)
}

proof fn lemma_mask_upto_bit(f: spec_fn(int) -> bool, n: nat, j: int)
    requires
        n <= 64,
    ensures
        bit(mask_upto(f, n), j) == (0 <= j < n && f(j)),
    decreases n,
{
    broadcast use group_bits;

    if n > 0 {
        lemma_mask_upto_bit(f, (n - 1) as nat, j);
    }
}

/// Membership in `mask_of(f)` is `f`, on the board.
pub broadcast proof fn lemma_mask_of_bit(f: spec_fn(int) -> bool, j: int)
    ensures
        #[trigger] bit(mask_of(f), j) == (0 <= j < 64 && f(j)),
{
    lemma_mask_upto_bit(f, 64, j);
}

/// A bitboard whose members are the squares that satisfy `f` is `mask_of(f)`.
pub proof fn lemma_mask_of_unique(x: u64, f: spec_fn(int) -> bool)
    requires
        forall|j: int| 0 <= j < 64 ==> #[trigger] bit(x, j) == f(j),
    ensures
        x == mask_of(f),
{
    assert forall|j: int| 0 <= j < 64 implies #[trigger] bit(x, j) == bit(mask_of(f), j) by {
        lemma_mask_of_bit(f, j);
    }
    lemma_bits_equal(x, mask_of(f));
}

/// The lowest member of a non-empty bitboard is at `trailing_zeros`.
pub proof fn lemma_lowest(x: u64)
    requires
        x != 0,
    ensures
        u64_trailing_zeros(x) < 64,
        bit(x, u64_trailing_zeros(x) as int),
        forall|j: int| 0 <= j < u64_trailing_zeros(x) ==> !bit(x, j),
        x & ((x - 1) as u64) == x & !single(u64_trailing_zeros(x) as int),
        x ^ (x & ((x - 1) as u64)) == single(u64_trailing_zeros(x) as int),
        x & ((x - 1) as u64) < x,
{
    axiom_u64_trailing_zeros(x);
    let t = u64_trailing_zeros(x);
    assert forall|j: int| 0 <= j < t implies !bit(x, j) by {
        let ju = j as u64;
        assert((x >> ju) & 1u64 == 0u64);
    }
    bv_lowest(x, t as u64);
}

/// The highest member of a non-empty bitboard is at `63 - leading_zeros`.
pub proof fn lemma_highest(x: u64)
    requires
        x != 0,
    ensures
        0 <= u64_leading_zeros(x) < 64,
        bit(x, 63 - u64_leading_zeros(x)),
        forall|j: int| 63 - u64_leading_zeros(x) < j < 64 ==> !bit(x, j),
{
    axiom_u64_leading_zeros(x);
    let l = u64_leading_zeros(x);
    bv_bit_values(x, (63 - l) as u64);
    assert forall|j: int| 63 - l < j < 64 implies !bit(x, j) by {
        let ju = j as u64;
        assert((x >> ju) & 1u64 == 0u64);
    }
}

/// `trailing_zeros` of a bitboard with one member is that member.
pub proof fn lemma_single_index(k: int)
    requires
        0 <= k < 64,
    ensures
        u64_trailing_zeros(single(k)) == k,
        u64_leading_zeros(single(k)) == 63 - k,
{
    broadcast use group_bits;

    let x = single(k);
    lemma_single_nonzero(k);
    lemma_lowest(x);
    lemma_highest(x);
}

/// A non-empty bitboard has a member.
pub proof fn lemma_has_member(x: u64)
    requires
        x != 0,
    ensures
        exists|j: int| 0 <= j < 64 && bit(x, j),
{
    lemma_lowest(x);
    assert(bit(x, u64_trailing_zeros(x) as int));
}

/// Index of the lowest member of `x`; 64 for the empty bitboard.
pub open spec fn lowest(x: u64) -> int {
    u64_trailing_zeros(x) as int
}

/// `x` without its lowest member.
pub open spec fn rest(x: u64) -> u64 {
    x & !single(lowest(x))
}

/// Taking the lowest member away makes a non-empty bitboard smaller, and
/// leaves the other members as they were.
pub proof fn lemma_rest(x: u64)
    requires
        x != 0,
    ensures
        rest(x) < x,
        0 <= lowest(x) < 64,
        bit(x, lowest(x)),
        forall|j: int| #[trigger] bit(rest(x), j) == (bit(x, j) && j != lowest(x)),
        forall|j: int| 0 <= j < lowest(x) ==> !bit(x, j),
{
    lemma_lowest(x);
    assert forall|j: int| #[trigger] bit(rest(x), j) == (bit(x, j) && j != lowest(x)) by {
        lemma_bit_and(x, !single(lowest(x)), j);
        lemma_bit_not(single(lowest(x)), j);
        lemma_bit_single(lowest(x), j);
    }
}

/// Whether `x` has two members or more.
pub open spec fn has_several(x: u64) -> bool {
    x != 0 && rest(x) != 0
}

} // verus!
