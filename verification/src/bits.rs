//! Candidate masks: nine-bit sets of digits, where bit `d` stands for the value `d + 1`.

use vstd::prelude::*;

verus! {

/// The mask in which every one of the nine values is still possible.
pub const FULL_MASK: u16 = 0x1FF;

/// Bit `d` of `m` is set.
pub open spec fn holds(m: u16, d: u16) -> bool {
    d < 16 && m & (1u16 << d) != 0
}

/// `m` uses only the nine low bits.
pub open spec fn is_mask(m: u16) -> bool {
    m <= 0x1FF
}

/// The mask that holds the single digit `d`.
pub open spec fn single(d: u16) -> u16 {
    1u16 << d
}

/// 1 if bit `d` of `m` is set, else 0.
pub open spec fn bit_count(m: u16, d: u16) -> nat {
    if holds(m, d) {
        1
    } else {
        0
    }
}

/// How many of the bits below `n` are set in `m`.
pub open spec fn count_below(m: u16, n: u16) -> nat
    decreases n,
{
    if n == 0 {
        0
    } else {
        count_below(m, (n - 1) as u16) + bit_count(m, (n - 1) as u16)
    }
}

/// How many of the nine candidate bits are set in `m`.
pub open spec fn count(m: u16) -> nat {
    bit_count(m, 0) + bit_count(m, 1) + bit_count(m, 2) + bit_count(m, 3) + bit_count(m, 4)
        + bit_count(m, 5) + bit_count(m, 6) + bit_count(m, 7) + bit_count(m, 8)
}

/// Every digit of `a` is a digit of `b`.
pub open spec fn subset(a: u16, b: u16) -> bool {
    a & !b == 0
}

/// How `holds` reads through the bitwise operators.
pub proof fn lemma_holds_ops()
    ensures
        forall|a: u16, b: u16, d: u16| #[trigger] holds(a & b, d) == (holds(a, d) && holds(b, d)),
        forall|a: u16, b: u16, d: u16| #[trigger] holds(a | b, d) == (holds(a, d) || holds(b, d)),
        forall|a: u16, b: u16, d: u16| #[trigger] holds(a ^ b, d) == (holds(a, d) != holds(b, d)),
        forall|a: u16, b: u16, d: u16| #[trigger] holds(a & !b, d) == (holds(a, d) && !holds(b, d)),
        forall|d: u16| !#[trigger] holds(0, d),
        forall|d: u16| #[trigger] holds(0x1FF, d) == (d < 9),
{
    lemma_holds_and_or();
    lemma_holds_xor_not();
}

/// `holds` through `&` and `|`, and on the empty and the full mask.
proof fn lemma_holds_and_or()
    by (bit_vector)
    ensures
        forall|a: u16, b: u16, d: u16| #[trigger] holds(a & b, d) == (holds(a, d) && holds(b, d)),
        forall|a: u16, b: u16, d: u16| #[trigger] holds(a | b, d) == (holds(a, d) || holds(b, d)),
        forall|d: u16| !#[trigger] holds(0, d),
        forall|d: u16| #[trigger] holds(0x1FF, d) == (d < 9),
{
}

/// `holds` through `^` and through `& !`.
proof fn lemma_holds_xor_not()
    by (bit_vector)
    ensures
        forall|a: u16, b: u16, d: u16| #[trigger] holds(a ^ b, d) == (holds(a, d) != holds(b, d)),
        forall|a: u16, b: u16, d: u16| #[trigger] holds(a & !b, d) == (holds(a, d) && !holds(b, d)),
{
}

/// The mask `single(e)` holds the digit `e` and no other.
pub proof fn lemma_holds_single()
    by (bit_vector)
    ensures
        forall|e: u16, d: u16| e < 16 ==> #[trigger] holds(single(e), d) == (d == e),
        forall|e: u16| e < 9 ==> #[trigger] single(e) <= 0x1FF,
{
}

/// Two masks with the same bits are the same mask.
pub proof fn lemma_mask_ext(a: u16, b: u16)
    requires
        forall|d: u16| d < 16 ==> holds(a, d) == holds(b, d),
    ensures
        a == b,
{
    assert(a == b) by (bit_vector)
        requires
            holds(a, 0) == holds(b, 0),
            holds(a, 1) == holds(b, 1),
            holds(a, 2) == holds(b, 2),
            holds(a, 3) == holds(b, 3),
            holds(a, 4) == holds(b, 4),
            holds(a, 5) == holds(b, 5),
            holds(a, 6) == holds(b, 6),
            holds(a, 7) == holds(b, 7),
            holds(a, 8) == holds(b, 8),
            holds(a, 9) == holds(b, 9),
            holds(a, 10) == holds(b, 10),
            holds(a, 11) == holds(b, 11),
            holds(a, 12) == holds(b, 12),
            holds(a, 13) == holds(b, 13),
            holds(a, 14) == holds(b, 14),
            holds(a, 15) == holds(b, 15),
    ;
}

/// A nine-bit mask has none of the seven high bits, and the other way round.
pub proof fn lemma_is_mask(m: u16)
    ensures
        is_mask(m) <==> (forall|d: u16| 9 <= d < 16 ==> !holds(m, d)),
{
    assert(m <= 0x1FF ==> (forall|d: u16| 9 <= d < 16 ==> !holds(m, d))) by (bit_vector);
    assert(!holds(m, 9) && !holds(m, 10) && !holds(m, 11) && !holds(m, 12) && !holds(m, 13) && !holds(m, 14)
        && !holds(m, 15) ==> m <= 0x1FF) by (bit_vector);
}

/// `subset` read bit by bit.
pub proof fn lemma_subset(a: u16, b: u16)
    ensures
        subset(a, b) <==> (forall|d: u16| d < 16 ==> (holds(a, d) ==> holds(b, d))),
{
    lemma_holds_ops();
    if subset(a, b) {
        assert forall|d: u16| d < 16 && holds(a, d) implies holds(b, d) by {
            assert(holds(a & !b, d) == (holds(a, d) && !holds(b, d)));
        }
    }
    if forall|d: u16| d < 16 ==> (holds(a, d) ==> holds(b, d)) {
        assert forall|d: u16| d < 16 implies holds(a & !b, d) == holds(0, d) by {}
        lemma_mask_ext(a & !b, 0);
    }
}

/// The lowest digit of `m`, or 9 where `m` has none of the nine.
pub open spec fn lowest(m: u16) -> u16 {
    if holds(m, 0) {
        0
    } else if holds(m, 1) {
        1
    } else if holds(m, 2) {
        2
    } else if holds(m, 3) {
        3
    } else if holds(m, 4) {
        4
    } else if holds(m, 5) {
        5
    } else if holds(m, 6) {
        6
    } else if holds(m, 7) {
        7
    } else if holds(m, 8) {
        8
    } else {
        9
    }
}

/// `count_below` reaches `count` at nine.
pub proof fn lemma_count_below_nine(m: u16)
    ensures
        count_below(m, 9) == count(m),
{
    reveal_with_fuel(count_below, 10);
}

/// A nine-bit mask with exactly one digit is the mask of its lowest digit.
pub proof fn lemma_count_one(m: u16)
    requires
        is_mask(m),
        count(m) == 1,
    ensures
        lowest(m) < 9,
        m == single(lowest(m)),
        forall|d: u16| holds(m, d) <==> d == lowest(m),
{
    lemma_holds_single();
    lemma_is_mask(m);
    let e = lowest(m);
    assert forall|d: u16| d < 16 implies holds(m, d) == holds(single(e), d) by {}
    lemma_mask_ext(m, single(e));
}

/// A mask with exactly one of the nine digits has its lowest digit below nine.
pub proof fn lemma_count_one_low(m: u16)
    requires
        count(m) == 1,
    ensures
        lowest(m) < 9,
        holds(m, lowest(m)),
{
}

/// The mask of one digit counts one.
pub proof fn lemma_single_count(d: u16)
    requires
        d < 9,
    ensures
        count(single(d)) == 1,
        lowest(single(d)) == d,
        is_mask(single(d)),
{
    lemma_holds_single();
}

/// Whether a mask has the digit `x`, read off the nine digits one by one.
pub proof fn lemma_holds_cases(m: u16, x: u16)
    requires
        x < 9,
    ensures
        holds(m, x) == ((x == 0 && holds(m, 0)) || (x == 1 && holds(m, 1)) || (x == 2 && holds(
            m,
            2,
        )) || (x == 3 && holds(m, 3)) || (x == 4 && holds(m, 4)) || (x == 5 && holds(m, 5)) || (x
            == 6 && holds(m, 6)) || (x == 7 && holds(m, 7)) || (x == 8 && holds(m, 8))),
{
}

/// A mask with at most one digit has no digit beside `x`.
pub proof fn lemma_count_at_most_one(m: u16, x: u16)
    requires
        count(m) <= 1,
        x < 9,
        holds(m, x),
    ensures
        forall|z: u16| z < 9 && holds(m, z) ==> z == x,
{
    lemma_holds_cases(m, x);
    assert forall|z: u16| z < 9 && holds(m, z) implies z == x by {
        lemma_holds_cases(m, z);
    }
}

/// A mask with at most two digits has no digit beside `x` and `y`.
pub proof fn lemma_count_at_most_two(m: u16, x: u16, y: u16)
    requires
        count(m) <= 2,
        x < 9,
        y < 9,
        x != y,
        holds(m, x),
        holds(m, y),
    ensures
        forall|z: u16| z < 9 && holds(m, z) ==> z == x || z == y,
{
    lemma_holds_cases(m, x);
    lemma_holds_cases(m, y);
    assert forall|z: u16| z < 9 && holds(m, z) implies z == x || z == y by {
        lemma_holds_cases(m, z);
    }
}

/// A mask with at most three digits has no digit beside `x`, `y` and `w`.
pub proof fn lemma_count_at_most_three(m: u16, x: u16, y: u16, w: u16)
    requires
        count(m) <= 3,
        x < 9,
        y < 9,
        w < 9,
        x != y,
        x != w,
        y != w,
        holds(m, x),
        holds(m, y),
        holds(m, w),
    ensures
        forall|z: u16| z < 9 && holds(m, z) ==> z == x || z == y || z == w,
{
    lemma_holds_cases(m, x);
    lemma_holds_cases(m, y);
    lemma_holds_cases(m, w);
    assert forall|z: u16| z < 9 && holds(m, z) implies z == x || z == y || z == w by {
        lemma_holds_cases(m, z);
    }
}

/// A part of a mask has no more digits than the mask.
pub proof fn lemma_count_subset(a: u16, b: u16)
    requires
        subset(a, b),
    ensures
        count(a) <= count(b),
{
    lemma_subset(a, b);
}

/// The mask of the digit `d`.
pub fn digit_bit(d: usize) -> (r: u16)
    requires
        d < 9,
    ensures
        r == single(d as u16),
        is_mask(r),
{
    let e: u16 = d as u16;
    proof {
        lemma_holds_single();
        assert(is_mask(single(e)));
    }
    1u16 << e
}

/// Whether the digit `d` is in `m`.
pub fn test_digit(m: u16, d: usize) -> (r: bool)
    requires
        d < 9,
    ensures
        r == holds(m, d as u16),
{
    let e: u16 = d as u16;
    m & (1u16 << e) != 0
}

/// The number of digits in `m`.
pub fn count_ones(m: u16) -> (r: u32)
    ensures
        r == count(m),
        r <= 9,
{
    let mut r: u32 = 0;
    let mut d: u16 = 0;
    while d < 9
        invariant
            d <= 9,
            r == count_below(m, d),
            r <= d,
        decreases 9 - d,
    {
        if m & (1u16 << d) != 0 {
            r += 1;
        }
        d += 1;
    }
    proof {
        lemma_count_below_nine(m);
    }
    r
}

/// The lowest digit of `m`; 9 where there is none.
pub fn trailing_zeros(m: u16) -> (r: usize)
    ensures
        r == lowest(m),
        r <= 9,
{
    let mut d: u16 = 0;
    while d < 9
        invariant
            d <= 9,
            forall|e: u16| e < d ==> !holds(m, e),
        decreases 9 - d,
    {
        if m & (1u16 << d) != 0 {
            return d as usize;
        }
        d += 1;
    }
    9
}

} // verus!
