//! Eight-digit lane arithmetic used by the block kernel.

use vstd::prelude::*;
use crate::number::{carry_at, digits_valid, pair_sum, sum_digit};

verus! {

/// Eight byte lanes packed little-endian into one 64-bit word.
pub open spec fn pack8(x0: u64, x1: u64, x2: u64, x3: u64, x4: u64, x5: u64, x6: u64, x7: u64) -> int {
    x0 + x1 * 0x100 + x2 * 0x1_0000 + x3 * 0x100_0000 + x4 * 0x1_0000_0000 + x5 * 0x100_0000_0000
        + x6 * 0x1_0000_0000_0000 + x7 * 0x100_0000_0000_0000
}

/// A lane after the biased addition: either a digit (the lane carried) or a
/// digit plus 246 (the lane did not carry).
pub open spec fn biased_lane(e: u64) -> bool {
    e <= 9 || (246 <= e && e <= 255)
}

/// Removing the bias from the lanes that did not carry.
pub open spec fn unbias(e: u64) -> u64 {
    if e >= 128 { (e - 246) as u64 } else { e }
}

pub proof fn lemma_unbias_lanes(e0: u64, e1: u64, e2: u64, e3: u64, e4: u64, e5: u64, e6: u64, e7: u64, r: u64)
    requires
        biased_lane(e0), biased_lane(e1), biased_lane(e2), biased_lane(e3),
        biased_lane(e4), biased_lane(e5), biased_lane(e6), e7 <= 19,
        r == pack8(e0, e1, e2, e3, e4, e5, e6, e7),
    ensures
        ((r & 0x0080_8080_8080_8080u64) >> 7u64) * 0xF6 <= r,
        r - ((r & 0x0080_8080_8080_8080u64) >> 7u64) * 0xF6 == pack8(unbias(e0), unbias(e1), unbias(e2), unbias(e3), unbias(e4), unbias(e5), unbias(e6), e7),
{
    assert(((r & 0x0080_8080_8080_8080u64) >> 7u64) * 0xF6 <= r
        && r - ((r & 0x0080_8080_8080_8080u64) >> 7u64) * 0xF6 == (if e0 >= 128 { (e0 - 246) as u64 } else { e0 })
            + (if e1 >= 128 { (e1 - 246) as u64 } else { e1 }) * 0x100
            + (if e2 >= 128 { (e2 - 246) as u64 } else { e2 }) * 0x1_0000
            + (if e3 >= 128 { (e3 - 246) as u64 } else { e3 }) * 0x100_0000
            + (if e4 >= 128 { (e4 - 246) as u64 } else { e4 }) * 0x1_0000_0000
            + (if e5 >= 128 { (e5 - 246) as u64 } else { e5 }) * 0x100_0000_0000
            + (if e6 >= 128 { (e6 - 246) as u64 } else { e6 }) * 0x1_0000_0000_0000
            + e7 * 0x100_0000_0000_0000) by (bit_vector)
        requires
            e0 <= 9 || (246 <= e0 && e0 <= 255),
            e1 <= 9 || (246 <= e1 && e1 <= 255),
            e2 <= 9 || (246 <= e2 && e2 <= 255),
            e3 <= 9 || (246 <= e3 && e3 <= 255),
            e4 <= 9 || (246 <= e4 && e4 <= 255),
            e5 <= 9 || (246 <= e5 && e5 <= 255),
            e6 <= 9 || (246 <= e6 && e6 <= 255),
            e7 <= 19,
            r == e0 + e1 * 0x100 + e2 * 0x1_0000 + e3 * 0x100_0000 + e4 * 0x1_0000_0000 + e5 * 0x100_0000_0000
                + e6 * 0x1_0000_0000_0000 + e7 * 0x100_0000_0000_0000,
    ;
}

/// Reading the lanes of a packed word back one byte at a time.
pub proof fn lemma_unpack_lanes(d0: u64, d1: u64, d2: u64, d3: u64, d4: u64, d5: u64, d6: u64, d7: u64, w: u64)
    requires
        d0 <= 255, d1 <= 255, d2 <= 255, d3 <= 255, d4 <= 255, d5 <= 255, d6 <= 255, d7 <= 255,
        w == pack8(d0, d1, d2, d3, d4, d5, d6, d7),
    ensures
        w as u8 == d0,
        (w >> 8u64) as u8 == d1,
        (w >> 16u64) as u8 == d2,
        (w >> 24u64) as u8 == d3,
        (w >> 32u64) as u8 == d4,
        (w >> 40u64) as u8 == d5,
        (w >> 48u64) as u8 == d6,
        (w >> 56u64) as u8 == d7,
        w >> 56u64 == d7,
{
    assert(w as u8 == d0 && (w >> 8u64) as u8 == d1 && (w >> 16u64) as u8 == d2
        && (w >> 24u64) as u8 == d3 && (w >> 32u64) as u8 == d4 && (w >> 40u64) as u8 == d5
        && (w >> 48u64) as u8 == d6 && (w >> 56u64) as u8 == d7 && w >> 56u64 == d7) by (bit_vector)
        requires
            d0 <= 255, d1 <= 255, d2 <= 255, d3 <= 255, d4 <= 255, d5 <= 255, d6 <= 255, d7 <= 255,
            w == d0 + d1 * 0x100 + d2 * 0x1_0000 + d3 * 0x100_0000 + d4 * 0x1_0000_0000 + d5 * 0x100_0000_0000
                + d6 * 0x1_0000_0000_0000 + d7 * 0x100_0000_0000_0000,
    ;
}

/// Bias added to the seven low lanes so that a lane which reaches ten
/// overflows into the next lane.
pub const LANE_OFFSET: u64 = 0x00F6_F6F6_F6F6_F6F6;

/// The top bit of each of the seven low lanes.
pub const SIGN_MASK: u64 = 0x0080_8080_8080_8080;

/// The digits `s[i], ..., s[i + 7]` packed into one word.
pub open spec fn forward_word(s: Seq<u8>, i: int) -> int {
    pack8(s[i] as u64, s[i + 1] as u64, s[i + 2] as u64, s[i + 3] as u64, s[i + 4] as u64,
        s[i + 5] as u64, s[i + 6] as u64, s[i + 7] as u64)
}

/// The mirror digits of positions `i, ..., i + 7` packed into one word.
pub open spec fn backward_word(s: Seq<u8>, i: int) -> int {
    let m = s.len() - 1 - i;
    pack8(s[m] as u64, s[m - 1] as u64, s[m - 2] as u64, s[m - 3] as u64, s[m - 4] as u64,
        s[m - 5] as u64, s[m - 6] as u64, s[m - 7] as u64)
}

/// The eight result digits of positions `i, ..., i + 7` packed into one word.
pub open spec fn sum_word(s: Seq<u8>, start: int, cin: nat, i: int) -> int {
    pack8(sum_digit(s, start, cin, i) as u64, sum_digit(s, start, cin, i + 1) as u64,
        sum_digit(s, start, cin, i + 2) as u64, sum_digit(s, start, cin, i + 3) as u64,
        sum_digit(s, start, cin, i + 4) as u64, sum_digit(s, start, cin, i + 5) as u64,
        sum_digit(s, start, cin, i + 6) as u64, sum_digit(s, start, cin, i + 7) as u64)
}

/// The lane value of position `j` after the biased addition.
spec fn biased(s: Seq<u8>, start: int, cin: nat, j: int) -> u64 {
    (pair_sum(s, j) + carry_at(s, start, cin, j) + 246 - 256 * carry_at(s, start, cin, j + 1)) as u64
}

proof fn lemma_biased_lane(s: Seq<u8>, start: int, cin: nat, j: int)
    requires
        digits_valid(s),
        cin <= 1,
        start <= j,
        0 <= j < s.len(),
    ensures
        biased_lane(biased(s, start, cin, j)),
        unbias(biased(s, start, cin, j)) == sum_digit(s, start, cin, j) as u64,
        biased(s, start, cin, j) as int == pair_sum(s, j) + carry_at(s, start, cin, j) + 246 - 256
            * carry_at(s, start, cin, j + 1),
        carry_at(s, start, cin, j + 1) == (if pair_sum(s, j) + carry_at(s, start, cin, j) >= 10 { 1nat } else { 0nat }),
        pair_sum(s, j) + carry_at(s, start, cin, j) <= 19,
{
    assert(s[j] < 10 && s[s.len() - 1 - j] < 10);
    assert(carry_at(s, start, cin, j) <= 1);
}

/// Adding the bias and the incoming carry to eight lane sums, then letting each
/// lane pass its carry to the next, telescopes: the result is the same number.
proof fn lemma_lane_telescope(
    p0: int, p1: int, p2: int, p3: int, p4: int, p5: int, p6: int, p7: int,
    c0: int, c1: int, c2: int, c3: int, c4: int, c5: int, c6: int, c7: int,
)
    ensures
        p0 + p1 * 0x100 + p2 * 0x1_0000 + p3 * 0x100_0000 + p4 * 0x1_0000_0000 + p5 * 0x100_0000_0000
            + p6 * 0x1_0000_0000_0000 + p7 * 0x100_0000_0000_0000 + 0x00F6_F6F6_F6F6_F6F6 + c0
            == (p0 + c0 + 246 - 256 * c1) + (p1 + c1 + 246 - 256 * c2) * 0x100 + (p2 + c2 + 246 - 256 * c3)
            * 0x1_0000 + (p3 + c3 + 246 - 256 * c4) * 0x100_0000 + (p4 + c4 + 246 - 256 * c5) * 0x1_0000_0000
            + (p5 + c5 + 246 - 256 * c6) * 0x100_0000_0000 + (p6 + c6 + 246 - 256 * c7) * 0x1_0000_0000_0000
            + (p7 + c7) * 0x100_0000_0000_0000,
{
}

/// One block step of eight positions: the biased sum of the forward and backward
/// words, once the lanes that did not carry are unbiased and the top lane is
/// reduced, holds the eight result digits, and its top lane tells the carry out.
pub proof fn lemma_block_lanes(s: Seq<u8>, start: int, cin: nat, i: int, r: u64)
    requires
        digits_valid(s),
        cin <= 1,
        0 <= start <= i,
        i + 8 <= s.len(),
        r == forward_word(s, i) + LANE_OFFSET + backward_word(s, i) + carry_at(s, start, cin, i),
    ensures
        ((r & SIGN_MASK) >> 7u64) * 0xF6 <= r,
        ({
            let r2 = (r - ((r & SIGN_MASK) >> 7u64) * 0xF6) as u64;
            &&& (r2 >> 56u64 >= 10) == (carry_at(s, start, cin, i + 8) == 1)
            &&& carry_at(s, start, cin, i + 8) * 0x0A00_0000_0000_0000 <= r2
            &&& r2 - carry_at(s, start, cin, i + 8) * 0x0A00_0000_0000_0000 == sum_word(s, start, cin, i)
        }),
{
    let n = s.len() as int;
    let m = n - 1 - i;
    assert(m - 1 == n - 1 - (i + 1) && m - 2 == n - 1 - (i + 2) && m - 3 == n - 1 - (i + 3));
    assert(m - 4 == n - 1 - (i + 4) && m - 5 == n - 1 - (i + 5) && m - 6 == n - 1 - (i + 6));
    assert(m - 7 == n - 1 - (i + 7));
    lemma_biased_lane(s, start, cin, i);
    lemma_biased_lane(s, start, cin, i + 1);
    lemma_biased_lane(s, start, cin, i + 2);
    lemma_biased_lane(s, start, cin, i + 3);
    lemma_biased_lane(s, start, cin, i + 4);
    lemma_biased_lane(s, start, cin, i + 5);
    lemma_biased_lane(s, start, cin, i + 6);
    lemma_biased_lane(s, start, cin, i + 7);
    let e0 = biased(s, start, cin, i);
    let e1 = biased(s, start, cin, i + 1);
    let e2 = biased(s, start, cin, i + 2);
    let e3 = biased(s, start, cin, i + 3);
    let e4 = biased(s, start, cin, i + 4);
    let e5 = biased(s, start, cin, i + 5);
    let e6 = biased(s, start, cin, i + 6);
    let c7 = carry_at(s, start, cin, i + 7);
    let c8 = carry_at(s, start, cin, i + 8);
    let e7 = (pair_sum(s, i + 7) + c7) as u64;
    assert(forward_word(s, i) + backward_word(s, i) == pair_sum(s, i) + pair_sum(s, i + 1) * 0x100
        + pair_sum(s, i + 2) * 0x1_0000 + pair_sum(s, i + 3) * 0x100_0000 + pair_sum(s, i + 4) * 0x1_0000_0000
        + pair_sum(s, i + 5) * 0x100_0000_0000 + pair_sum(s, i + 6) * 0x1_0000_0000_0000 + pair_sum(s, i + 7)
        * 0x100_0000_0000_0000);
    lemma_lane_telescope(
        pair_sum(s, i) as int, pair_sum(s, i + 1) as int, pair_sum(s, i + 2) as int, pair_sum(s, i + 3) as int,
        pair_sum(s, i + 4) as int, pair_sum(s, i + 5) as int, pair_sum(s, i + 6) as int, pair_sum(s, i + 7) as int,
        carry_at(s, start, cin, i) as int, carry_at(s, start, cin, i + 1) as int,
        carry_at(s, start, cin, i + 2) as int, carry_at(s, start, cin, i + 3) as int,
        carry_at(s, start, cin, i + 4) as int, carry_at(s, start, cin, i + 5) as int,
        carry_at(s, start, cin, i + 6) as int, c7 as int,
    );
    assert(r == pack8(e0, e1, e2, e3, e4, e5, e6, e7));
    lemma_unbias_lanes(e0, e1, e2, e3, e4, e5, e6, e7, r);
    let r2 = (r - ((r & SIGN_MASK) >> 7u64) * 0xF6) as u64;
    lemma_unpack_lanes(unbias(e0), unbias(e1), unbias(e2), unbias(e3), unbias(e4), unbias(e5), unbias(e6), e7, r2);
    assert(e7 - 10 * c8 == sum_digit(s, start, cin, i + 7));
}

} // verus!
