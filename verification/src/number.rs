//! The mathematical model of a digit array and of one reverse-and-add step.

use vstd::prelude::*;
use vstd::arithmetic::div_mod::{lemma_add_mod_noop, lemma_mul_mod_noop_right};
use vstd::arithmetic::power2::{lemma_pow2_unfold, pow2};

verus! {

/// `10^k`.
pub open spec fn pow10(k: nat) -> nat
    decreases k,
{
    if k == 0 {
        1
    } else {
        10 * pow10((k - 1) as nat)
    }
}

/// Every entry is a decimal digit.
pub open spec fn digits_valid(s: Seq<u8>) -> bool {
    forall|i: int| 0 <= i < s.len() ==> #[trigger] s[i] < 10
}

/// The number denoted by a digit array, least significant digit first.
pub open spec fn value(s: Seq<u8>) -> nat
    decreases s.len(),
{
    if s.len() == 0 {
        0
    } else {
        value(s.drop_last()) + (s.last() as nat) * pow10((s.len() - 1) as nat)
    }
}

/// Sum of the entries of a digit array.
pub open spec fn digit_sum(s: Seq<u8>) -> nat
    decreases s.len(),
{
    if s.len() == 0 {
        0
    } else {
        digit_sum(s.drop_last()) + s.last() as nat
    }
}

/// The two digits that meet at position `i` when a number is added to its reversal.
pub open spec fn pair_sum(s: Seq<u8>, i: int) -> nat {
    (s[i] + s[s.len() - 1 - i]) as nat
}

/// The carry entering position `i` of the sum of `s` and its reversal, when the
/// addition starts at position `start` with incoming carry `cin`.
pub open spec fn carry_at(s: Seq<u8>, start: int, cin: nat, i: int) -> nat
    decreases i - start,
{
    if i <= start {
        cin
    } else if pair_sum(s, i - 1) + carry_at(s, start, cin, i - 1) >= 10 {
        1
    } else {
        0
    }
}

/// The digit written at position `i` by the same addition.
pub open spec fn sum_digit(s: Seq<u8>, start: int, cin: nat, i: int) -> u8 {
    ((pair_sum(s, i) + carry_at(s, start, cin, i)) % 10) as u8
}

/// The digits written at positions `0 .. s.len()` by the addition of `s` and its reversal.
pub open spec fn sum_digits(s: Seq<u8>) -> Seq<u8> {
    Seq::new(s.len(), |i: int| sum_digit(s, 0, 0, i))
}

/// The digit array of `s + reverse(s)`: one digit per position, and a leading
/// `1` when the addition carries out of the top position.
pub open spec fn reverse_add(s: Seq<u8>) -> Seq<u8> {
    let low = sum_digits(s);
    if carry_at(s, 0, 0, s.len() as int) == 1 {
        low.push(1u8)
    } else {
        low
    }
}

pub proof fn lemma_pow10_positive(k: nat)
    ensures
        pow10(k) >= 1,
    decreases k,
{
    if k > 0 {
        lemma_pow10_positive((k - 1) as nat);
    }
}

/// The value of a prefix grows by the next digit times its place value.
pub proof fn lemma_value_take_step(t: Seq<u8>, k: int)
    requires
        0 <= k < t.len(),
    ensures
        value(t.take(k + 1)) == value(t.take(k)) + (t[k] as nat) * pow10(k as nat),
{
    assert(t.take(k + 1).drop_last() =~= t.take(k));
}

pub proof fn lemma_value_push(t: Seq<u8>, d: u8)
    ensures
        value(t.push(d)) == value(t) + (d as nat) * pow10(t.len()),
{
    assert(t.push(d).drop_last() =~= t);
}

pub proof fn lemma_carry_bit(s: Seq<u8>, start: int, cin: nat, i: int)
    requires
        cin <= 1,
    ensures
        carry_at(s, start, cin, i) <= 1,
{
}

/// Running invariant of the schoolbook addition of `s` and its reversal.
proof fn lemma_reverse_add_prefix(s: Seq<u8>, k: int)
    requires
        digits_valid(s),
        0 <= k <= s.len(),
    ensures
        value(sum_digits(s).take(k)) + carry_at(s, 0, 0, k)
            * pow10(k as nat) == value(s.take(k)) + value(s.reverse().take(k)),
    decreases k,
{
    let low = sum_digits(s);
    let r = s.reverse();
    if k == 0 {
        assert(low.take(0) =~= Seq::<u8>::empty());
        assert(s.take(0) =~= Seq::<u8>::empty());
        assert(r.take(0) =~= Seq::<u8>::empty());
        assert(value(Seq::<u8>::empty()) == 0);
        assert(pow10(0) == 1);
    } else {
        let j = k - 1;
        lemma_reverse_add_prefix(s, j);
        lemma_value_take_step(low, j);
        lemma_value_take_step(s, j);
        lemma_value_take_step(r, j);
        let p = pair_sum(s, j);
        let c = carry_at(s, 0, 0, j);
        let c2 = carry_at(s, 0, 0, k);
        let d = low[j] as nat;
        let pw = pow10(j as nat);
        assert(r[j] == s[s.len() - 1 - j]);
        assert(s[j] < 10 && s[s.len() - 1 - j] < 10);
        assert(c <= 1);
        assert(d + 10 * c2 == p + c);
        assert(pow10(k as nat) == 10 * pw);
        assert(d * pw + c2 * (10 * pw) == (s[j] as nat) * pw + (r[j] as nat) * pw + c * pw)
            by (nonlinear_arith)
            requires
                d + 10 * c2 == (s[j] as nat) + (r[j] as nat) + c,
        ;
        assert(value(low.take(j)) + c * pw == value(s.take(j)) + value(r.take(j)));
        assert(value(low.take(k)) == value(low.take(j)) + d * pw);
        assert(value(s.take(k)) == value(s.take(j)) + (s[j] as nat) * pw);
        assert(value(r.take(k)) == value(r.take(j)) + (r[j] as nat) * pw);
        assert(c2 * pow10(k as nat) == c2 * (10 * pw));
    }
}

/// Reverse-and-add computes `N + reverse(N)`, as a valid digit array whose
/// length grows by at most one.
pub proof fn lemma_reverse_add_value(s: Seq<u8>)
    requires
        digits_valid(s),
    ensures
        value(reverse_add(s)) == value(s) + value(s.reverse()),
        digits_valid(reverse_add(s)),
        reverse_add(s).len() == s.len() || reverse_add(s).len() == s.len() + 1,
        // no more digits than the sum needs: one more only when it reaches 10^n
        reverse_add(s).len() == if value(s) + value(s.reverse()) >= pow10(s.len()) {
            s.len() + 1
        } else {
            s.len()
        },
        // a number without a leading zero gives a sum without one
        s.len() > 0 && s.last() != 0 ==> reverse_add(s).last() != 0,
{
    let n = s.len() as int;
    let low = sum_digits(s);
    lemma_reverse_add_prefix(s, n);
    assert(low.take(n) =~= low);
    assert(s.take(n) =~= s);
    assert(s.reverse().take(n) =~= s.reverse());
    assert(digits_valid(low));
    lemma_value_bound(low);
    if carry_at(s, 0, 0, n) == 1 {
        lemma_value_push(low, 1u8);
    } else if n > 0 {
        assert(pair_sum(s, n - 1) == s[n - 1] + s[0]);
        assert(carry_at(s, 0, 0, n - 1) <= 1);
        assert(reverse_add(s).last() == low[n - 1]);
    }
}

/// Carry-select: restarting the addition at position `a` with the carry that
/// the full addition brings into `a` reproduces the full addition from there on.
pub proof fn lemma_carry_restart(s: Seq<u8>, a: int, i: int)
    requires
        0 <= a <= i,
    ensures
        carry_at(s, a, carry_at(s, 0, 0, a), i) == carry_at(s, 0, 0, i),
        sum_digit(s, a, carry_at(s, 0, 0, a), i) == sum_digit(s, 0, 0, i),
    decreases i - a,
{
    if i > a {
        lemma_carry_restart(s, a, i - 1);
    }
}

/// The number after `k` reverse-and-add steps.
pub open spec fn iterate(s: Seq<u8>, k: nat) -> Seq<u8>
    decreases k,
{
    if k == 0 {
        s
    } else {
        reverse_add(iterate(s, (k - 1) as nat))
    }
}

pub proof fn lemma_pow10_mod9(k: nat)
    ensures
        pow10(k) % 9 == 1,
    decreases k,
{
    if k > 0 {
        lemma_pow10_mod9((k - 1) as nat);
        lemma_mul_mod_noop_right(10, pow10((k - 1) as nat) as int, 9);
    }
}

/// A number and its digit sum agree modulo 9.
pub proof fn lemma_digit_sum_mod9(s: Seq<u8>)
    ensures
        digit_sum(s) % 9 == value(s) % 9,
    decreases s.len(),
{
    if s.len() > 0 {
        let t = s.drop_last();
        let d = s.last() as nat;
        let p = pow10((s.len() - 1) as nat);
        lemma_digit_sum_mod9(t);
        lemma_pow10_mod9((s.len() - 1) as nat);
        lemma_mul_mod_noop_right(d as int, p as int, 9);
        lemma_add_mod_noop(value(t) as int, (d * p) as int, 9);
        lemma_add_mod_noop(digit_sum(t) as int, d as int, 9);
    }
}

pub proof fn lemma_digit_sum_append(a: Seq<u8>, b: Seq<u8>)
    ensures
        digit_sum(a + b) == digit_sum(a) + digit_sum(b),
    decreases b.len(),
{
    if b.len() > 0 {
        lemma_digit_sum_append(a, b.drop_last());
        assert((a + b).drop_last() =~= a + b.drop_last());
    }
}

/// Reversal keeps the digit sum.
pub proof fn lemma_digit_sum_reverse(s: Seq<u8>)
    ensures
        digit_sum(s.reverse()) == digit_sum(s),
    decreases s.len(),
{
    if s.len() > 0 {
        let t = s.drop_last();
        lemma_digit_sum_reverse(t);
        assert(s.reverse() =~= seq![s.last()] + t.reverse());
        lemma_digit_sum_append(seq![s.last()], t.reverse());
        assert(seq![s.last()].drop_last() =~= Seq::<u8>::empty());
        assert(digit_sum(Seq::<u8>::empty()) == 0);
        assert(digit_sum(seq![s.last()]) == s.last() as nat);
        assert(digit_sum(s) == digit_sum(t) + s.last() as nat);
    }
}

/// Each reverse-and-add step doubles the digit sum modulo 9.
pub proof fn lemma_reverse_add_mod9(s: Seq<u8>)
    requires
        digits_valid(s),
    ensures
        digit_sum(reverse_add(s)) % 9 == (2 * digit_sum(s)) % 9,
{
    lemma_reverse_add_value(s);
    lemma_digit_sum_mod9(reverse_add(s));
    lemma_digit_sum_mod9(s);
    lemma_digit_sum_mod9(s.reverse());
    lemma_digit_sum_reverse(s);
    lemma_add_mod_noop(value(s) as int, value(s.reverse()) as int, 9);
    lemma_add_mod_noop(digit_sum(s) as int, digit_sum(s) as int, 9);
}

/// Iterating keeps a valid digit array.
pub proof fn lemma_iterate_valid(s: Seq<u8>, k: nat)
    requires
        digits_valid(s),
    ensures
        digits_valid(iterate(s, k)),
    decreases k,
{
    if k > 0 {
        lemma_iterate_valid(s, (k - 1) as nat);
        lemma_reverse_add_value(iterate(s, (k - 1) as nat));
    }
}

/// After `k` steps the digit sum modulo 9 is the starting one times `2^k`.
pub proof fn lemma_iterate_mod9(s: Seq<u8>, k: nat)
    requires
        digits_valid(s),
    ensures
        digit_sum(iterate(s, k)) % 9 == ((digit_sum(s) % 9) * (pow2(k) % 9)) % 9,
    decreases k,
{
    if k == 0 {
        assert(pow2(0) == 1) by {
            vstd::arithmetic::power2::lemma2_to64();
        }
        lemma_mod_twice_local(digit_sum(s));
    } else {
        let k1 = (k - 1) as nat;
        let t = iterate(s, k1);
        lemma_iterate_mod9(s, k1);
        lemma_iterate_valid(s, k1);
        lemma_reverse_add_mod9(t);
        lemma_pow2_unfold(k);
        let a = digit_sum(s) % 9;
        let p = pow2(k1);
        // digit_sum(t) % 9 == (a * (p % 9)) % 9
        lemma_mul_mod_noop_right(2, digit_sum(t) as int, 9);
        lemma_mul_mod_noop_right(2, (a * (p % 9)) as int, 9);
        lemma_mul_mod_noop_right(a as int, p as int, 9);
        lemma_mul_mod_noop_right(a as int, (2 * p) as int, 9);
        lemma_mul_mod_noop_right(2, (a * p) as int, 9);
        assert(2 * (a * p) == a * (2 * p)) by (nonlinear_arith);
    }
}

proof fn lemma_mod_twice_local(x: nat)
    ensures
        ((x % 9) * (1nat % 9)) % 9 == x % 9,
{
}

/// A valid digit array of length `n` denotes less than `10^n`.
pub proof fn lemma_value_bound(s: Seq<u8>)
    requires
        digits_valid(s),
    ensures
        value(s) < pow10(s.len()),
    decreases s.len(),
{
    if s.len() > 0 {
        let t = s.drop_last();
        let p = pow10(t.len());
        lemma_value_bound(t);
        assert(s.last() < 10);
        assert(value(s) == value(t) + (s.last() as nat) * p);
        assert((s.last() as nat) * p <= 9 * p) by (nonlinear_arith)
            requires s.last() < 10;
    }
}

pub proof fn lemma_pow10_monotone(a: nat, b: nat)
    requires
        a <= b,
    ensures
        pow10(a) <= pow10(b),
    decreases b - a,
{
    if a < b {
        lemma_pow10_monotone(a, (b - 1) as nat);
        lemma_pow10_positive((b - 1) as nat);
    }
}

/// A number is at least its digit sum.
pub proof fn lemma_value_at_least_digit_sum(s: Seq<u8>)
    ensures
        value(s) >= digit_sum(s),
        value(s) > 0 ==> digit_sum(s) > 0,
    decreases s.len(),
{
    if s.len() > 0 {
        let t = s.drop_last();
        let p = pow10(t.len());
        lemma_value_at_least_digit_sum(t);
        lemma_pow10_positive(t.len());
        assert((s.last() as nat) * p >= s.last() as nat) by (nonlinear_arith)
            requires p >= 1;
        assert(s.last() as nat == 0 ==> (s.last() as nat) * p == 0);
    }
}

/// A positive number strictly grows under reverse-and-add, and gains at most
/// one digit.
pub proof fn lemma_reverse_add_grows(s: Seq<u8>)
    requires
        digits_valid(s),
        value(s) > 0,
    ensures
        value(reverse_add(s)) > value(s),
        value(reverse_add(s)) < pow10(s.len() + 1),
{
    lemma_reverse_add_value(s);
    lemma_value_at_least_digit_sum(s);
    lemma_value_at_least_digit_sum(s.reverse());
    lemma_digit_sum_reverse(s);
    lemma_value_bound(s);
    let r = s.reverse();
    assert(digits_valid(r)) by {
        assert forall|i: int| 0 <= i < r.len() implies r[i] < 10 by {
            assert(r[i] == s[s.len() - 1 - i]);
        }
    }
    lemma_value_bound(r);
}

} // verus!
