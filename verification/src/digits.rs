//! Digit arrays as decimal text, and the small digit-array queries of a run.

use vstd::prelude::*;
use vstd::arithmetic::div_mod::lemma_mul_mod_noop_right;
use vstd::arithmetic::power2::{lemma_pow2_unfold, lemma2_to64, pow2};
use vstd::string::StringSliceAdditionalSpecFns;
use crate::number::{digit_sum, digits_valid, iterate, lemma_iterate_mod9};

verus! {

/// Every byte is an ASCII decimal digit.
pub open spec fn is_decimal_text(t: Seq<u8>) -> bool {
    forall|i: int| 0 <= i < t.len() ==> 48 <= #[trigger] t[i] <= 57
}

/// The digit array of a decimal text: its bytes in reverse order, each less `b'0'`.
pub open spec fn digits_of_text(t: Seq<u8>) -> Seq<u8> {
    Seq::new(t.len(), |i: int| (t[t.len() - 1 - i] - 48) as u8)
}

/// The decimal text of a digit array, most significant digit first.
pub open spec fn text_of_digits(d: Seq<u8>) -> Seq<u8> {
    Seq::new(d.len(), |i: int| (d[d.len() - 1 - i] + 48) as u8)
}

/// `2^e mod 9` by the period-six cycle 1, 2, 4, 8, 7, 5.
pub open spec fn pow2_mod9_cycle(r: int) -> u64 {
    if r == 0 {
        1
    } else if r == 1 {
        2
    } else if r == 2 {
        4
    } else if r == 3 {
        8
    } else if r == 4 {
        7
    } else {
        5
    }
}

/// Reads the decimal text `t[lo .. hi]` as a digit array, least significant
/// digit first.
pub fn digits_of_range(t: &[u8], lo: usize, hi: usize) -> (digits: Vec<u8>)
    requires
        lo <= hi <= t@.len(),
        forall|i: int| lo <= i < hi ==> #[trigger] t@[i] >= 48,
    ensures
        digits@ == digits_of_text(t@.subrange(lo as int, hi as int)),
{
    let ghost u = t@.subrange(lo as int, hi as int);
    let mut digits: Vec<u8> = Vec::with_capacity(hi - lo);
    let mut j = hi;
    while j > lo
        invariant
            lo <= j <= hi <= t@.len(),
            u == t@.subrange(lo as int, hi as int),
            forall|i: int| lo <= i < hi ==> #[trigger] t@[i] >= 48,
            digits@ == digits_of_text(u).take(hi - j),
        decreases j - lo,
    {
        j -= 1;
        assert(t@[j as int] >= 48);
        digits.push(t[j] - 48u8);
        assert(digits@ =~= digits_of_text(u).take(hi - j));
    }
    assert(digits@ =~= digits_of_text(u));
    digits
}

/// Parses a decimal string into a digit array, least significant digit first.
pub fn parse_digits(s: &str) -> (digits: Vec<u8>)
    requires
        forall|i: int| 0 <= i < s.spec_bytes().len() ==> #[trigger] s.spec_bytes()[i] >= 48,
    ensures
        digits@ == digits_of_text(s.spec_bytes()),
{
    let bytes = s.as_bytes();
    let digits = digits_of_range(bytes, 0, bytes.len());
    assert(bytes@.subrange(0, bytes@.len() as int) =~= bytes@);
    digits
}

/// The digits of `digits[lo .. hi]` rendered most significant first, as ASCII text.
fn render_range(digits: &[u8], lo: usize, hi: usize) -> (text: Vec<u8>)
    requires
        lo <= hi <= digits@.len(),
        digits_valid(digits@),
    ensures
        text@ == text_of_digits(digits@.subrange(lo as int, hi as int)),
{
    let mut text: Vec<u8> = Vec::with_capacity(hi - lo);
    let mut j = hi;
    while j > lo
        invariant
            lo <= j <= hi <= digits@.len(),
            digits_valid(digits@),
            text@ == text_of_digits(digits@.subrange(lo as int, hi as int)).take(hi - j),
        decreases j - lo,
    {
        j -= 1;
        assert(digits@[j as int] < 10);
        text.push(digits[j] + 48u8);
        assert(text@ =~= text_of_digits(digits@.subrange(lo as int, hi as int)).take(hi - j));
    }
    assert(text@ =~= text_of_digits(digits@.subrange(lo as int, hi as int)));
    text
}

/// The whole number as decimal text, most significant digit first.
pub fn to_string(digits: &[u8]) -> (text: Vec<u8>)
    requires
        digits_valid(digits@),
    ensures
        text@ == text_of_digits(digits@),
{
    let text = render_range(digits, 0, digits.len());
    assert(digits@.subrange(0, digits@.len() as int) =~= digits@);
    text
}

/// The first `n` digits in reading order (the most significant end), or the
/// whole number when it is shorter.
pub fn first_n(digits: &[u8], n: usize) -> (text: Vec<u8>)
    requires
        digits_valid(digits@),
    ensures
        text@ == text_of_digits(digits@).take(if n <= digits@.len() { n as int } else { digits@.len() as int }),
{
    let len = digits.len();
    let n = if n <= len { n } else { len };
    let text = render_range(digits, len - n, len);
    assert(text@ =~= text_of_digits(digits@).take(n as int));
    text
}

/// The last `n` digits in reading order (the least significant end), or the
/// whole number when it is shorter.
pub fn last_n(digits: &[u8], n: usize) -> (text: Vec<u8>)
    requires
        digits_valid(digits@),
    ensures
        text@ == text_of_digits(digits@).skip(
            digits@.len() - if n <= digits@.len() { n as int } else { digits@.len() as int },
        ),
{
    let len = digits.len();
    let n = if n <= len { n } else { len };
    let text = render_range(digits, 0, n);
    assert(text@ =~= text_of_digits(digits@).skip(len - n));
    text
}

/// Whether the number reads the same in both directions.
pub fn is_palindrome(digits: &[u8]) -> (b: bool)
    ensures
        b == (digits@ == digits@.reverse()),
{
    let len = digits.len();
    let mut i: usize = 0;
    while i < len / 2
        invariant
            len == digits@.len(),
            i <= len / 2,
            forall|j: int| 0 <= j < i ==> #[trigger] digits@[j] == digits@[len - 1 - j],
        decreases len / 2 - i,
    {
        if digits[i] != digits[len - 1 - i] {
            assert(digits@.reverse()[i as int] == digits@[len - 1 - i]);
            return false;
        }
        i += 1;
    }
    assert(digits@ =~= digits@.reverse()) by {
        assert forall|j: int| 0 <= j < len implies #[trigger] digits@[j] == digits@[len - 1 - j] by {
            if j >= len / 2 && len - 1 - j < len / 2 {
                assert(digits@[len - 1 - j] == digits@[len - 1 - (len - 1 - j)]);
            }
        }
    }
    true
}

proof fn lemma_digit_sum_take(s: Seq<u8>, i: int)
    requires
        0 <= i < s.len(),
    ensures
        digit_sum(s.take(i + 1)) == digit_sum(s.take(i)) + s[i] as nat,
{
    assert(s.take(i + 1).drop_last() =~= s.take(i));
}

/// The digit sum modulo 9 (the value of the number modulo 9).
pub fn digit_sum_mod9(digits: &[u8]) -> (r: u64)
    ensures
        r == digit_sum(digits@) % 9,
{
    let n = digits.len();
    let mut sum: u64 = 0;
    let mut i: usize = 0;
    while i < n
        invariant
            n == digits@.len(),
            i <= n,
            sum == digit_sum(digits@.take(i as int)) % 9,
        decreases n - i,
    {
        proof {
            lemma_digit_sum_take(digits@, i as int);
            vstd::arithmetic::div_mod::lemma_add_mod_noop(digit_sum(digits@.take(i as int)) as int, digits@[i as int] as int, 9);
        }
        sum = (sum + digits[i] as u64) % 9;
        i += 1;
    }
    assert(digits@.take(n as int) =~= digits@);
    sum
}

/// `2^e mod 9` follows the period-six cycle.
pub proof fn lemma_pow2_mod9(e: nat)
    ensures
        pow2(e) % 9 == pow2_mod9_cycle((e % 6) as int) as int,
    decreases e,
{
    if e == 0 {
        lemma2_to64();
    } else {
        lemma_pow2_mod9((e - 1) as nat);
        lemma_pow2_unfold(e);
        lemma_mul_mod_noop_right(2, pow2((e - 1) as nat) as int, 9);
        assert(e % 6 == ((e - 1) % 6 + 1) % 6);
    }
}

/// `2^exp mod 9`, read from the period-six cycle.
pub fn pow2_mod9(exp: u64) -> (r: u64)
    ensures
        r == pow2(exp as nat) % 9,
{
    proof {
        lemma_pow2_mod9(exp as nat);
    }
    let r = exp % 6;
    if r == 0 {
        1
    } else if r == 1 {
        2
    } else if r == 2 {
        4
    } else if r == 3 {
        8
    } else if r == 4 {
        7
    } else {
        5
    }
}

/// Reading a decimal text as a digit array and rendering it back gives the text.
pub proof fn lemma_text_roundtrip(t: Seq<u8>)
    requires
        is_decimal_text(t),
    ensures
        digits_valid(digits_of_text(t)),
        text_of_digits(digits_of_text(t)) == t,
{
    let d = digits_of_text(t);
    assert forall|i: int| 0 <= i < d.len() implies d[i] < 10 by {
        assert(48 <= t[t.len() - 1 - i] <= 57);
    }
    assert(text_of_digits(d) =~= t) by {
        assert forall|i: int| 0 <= i < t.len() implies text_of_digits(d)[i] == t[i] by {
            assert(d[d.len() - 1 - i] == (t[i] - 48) as u8);
        }
    }
}

/// Rendering a digit array as text and reading it back gives the digit array.
pub proof fn lemma_digits_roundtrip(d: Seq<u8>)
    requires
        digits_valid(d),
    ensures
        is_decimal_text(text_of_digits(d)),
        digits_of_text(text_of_digits(d)) == d,
{
    let t = text_of_digits(d);
    assert forall|i: int| 0 <= i < t.len() implies 48 <= #[trigger] t[i] <= 57 by {
        assert(d[d.len() - 1 - i] < 10);
    }
    assert(digits_of_text(t) =~= d) by {
        assert forall|i: int| 0 <= i < d.len() implies digits_of_text(t)[i] == d[i] by {
            assert(d[i] < 10);
            assert(t[t.len() - 1 - i] == (d[i] + 48) as u8);
        }
    }
}

/// The digit-sum part of the published fingerprint of the run from 196 at
/// step 53,000,000: whatever the number is there, its digit sum modulo 9 is 1.
pub proof fn lemma_fingerprint_mod9_196()
    ensures
        digit_sum(iterate(digits_of_text(seq![49u8, 57, 54]), 53_000_000)) % 9 == 1,
{
    let start = digits_of_text(seq![49u8, 57, 54]);
    assert(start =~= seq![6u8, 9, 1]);
    assert(digits_valid(start));
    assert(start.drop_last() =~= seq![6u8, 9]);
    assert(start.drop_last().drop_last() =~= seq![6u8]);
    assert(start.drop_last().drop_last().drop_last() =~= Seq::<u8>::empty());
    assert(digit_sum(Seq::<u8>::empty()) == 0);
    assert(digit_sum(seq![6u8]) == 6);
    assert(digit_sum(seq![6u8, 9]) == 15);
    assert(digit_sum(seq![6u8, 9, 1]) == 16);
    lemma_iterate_mod9(start, 53_000_000);
    lemma_pow2_mod9(53_000_000);
    assert(53_000_000nat % 6 == 2);
}

} // verus!
