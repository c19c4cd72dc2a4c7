//! Byte-level text handling for the program's small text formats: lines,
//! whitespace trimming, field splitting and unsigned decimal numbers. Texts
//! are the UTF-8 bytes of a `str`.

use vstd::prelude::*;
use vstd::string::StrSliceExecFns;

verus! {

/// The first position at or after `i` that holds byte `b`, or the length.
pub open spec fn find_byte(t: Seq<u8>, b: u8, i: int) -> int
    decreases t.len() - i,
{
    if i >= t.len() {
        t.len() as int
    } else if t[i] == b {
        i
    } else {
        find_byte(t, b, i + 1)
    }
}

pub proof fn lemma_find_byte(t: Seq<u8>, b: u8, i: int)
    requires
        0 <= i <= t.len(),
    ensures
        i <= find_byte(t, b, i) <= t.len(),
        find_byte(t, b, i) < t.len() ==> t[find_byte(t, b, i)] == b,
        forall|j: int| i <= j < find_byte(t, b, i) ==> t[j] != b,
    decreases t.len() - i,
{
    if i < t.len() && t[i] != b {
        lemma_find_byte(t, b, i + 1);
    }
}

/// Finds the first `b` in `t[from .. to]`, or returns `to`.
pub fn find_byte_in(t: &[u8], b: u8, from: usize, to: usize) -> (k: usize)
    requires
        from <= to <= t@.len(),
    ensures
        k == from + find_byte(t@.subrange(from as int, to as int), b, 0),
{
    let ghost u = t@.subrange(from as int, to as int);
    let mut k = from;
    while k < to
        invariant
            from <= k <= to <= t@.len(),
            u == t@.subrange(from as int, to as int),
            find_byte(u, b, (k - from) as int) == find_byte(u, b, 0),
        decreases to - k,
    {
        if t[k] == b {
            return k;
        }
        k += 1;
    }
    k
}

/// A line without the carriage return of a `\r\n` ending.
pub open spec fn strip_cr(l: Seq<u8>) -> Seq<u8> {
    if l.len() > 0 && l.last() == 13 {
        l.drop_last()
    } else {
        l
    }
}

/// The lines of a text from position `p` on, as `str::lines` gives them: split
/// at `\n`, a `\r` just before a `\n` dropped, no empty line after a final `\n`.
pub open spec fn lines_from(t: Seq<u8>, p: int) -> Seq<Seq<u8>>
    decreases t.len() - p,
{
    if p < 0 || p >= t.len() {
        Seq::empty()
    } else {
        let k = find_byte(t, 10, p);
        if p <= k < t.len() {
            seq![strip_cr(t.subrange(p, k))] + lines_from(t, k + 1)
        } else {
            seq![t.subrange(p, t.len() as int)]
        }
    }
}

/// The lines of a text.
pub open spec fn lines(t: Seq<u8>) -> Seq<Seq<u8>> {
    lines_from(t, 0)
}

/// The line that starts at `p`: its bounds and the start of the next line.
pub fn next_line(t: &[u8], p: usize) -> (res: (usize, usize, usize))
    requires
        p < t@.len(),
    ensures
        p <= res.0 <= res.1 <= t@.len(),
        p < res.2 <= t@.len(),
        lines_from(t@, p as int) == seq![t@.subrange(res.0 as int, res.1 as int)] + lines_from(t@, res.2 as int),
{
    let n = t.len();
    let k = find_byte_in(t, 10, p, n);
    proof {
        lemma_find_byte_shift(t@, 10, p as int, p as int);
        lemma_find_byte(t@, 10, p as int);
    }
    if k < n {
        let hi = if k > p && t[k - 1] == 13 { k - 1 } else { k };
        assert(strip_cr(t@.subrange(p as int, k as int)) =~= t@.subrange(p as int, hi as int));
        (p, hi, k + 1)
    } else {
        proof {
            assert(lines_from(t@, n as int) =~= Seq::<Seq<u8>>::empty());
            assert(lines_from(t@, p as int) =~= seq![t@.subrange(p as int, n as int)] + Seq::<Seq<u8>>::empty());
        }
        (p, n, n)
    }
}

/// Searching a suffix of a text is searching the text from the same place.
pub proof fn lemma_find_byte_shift(t: Seq<u8>, b: u8, from: int, j: int)
    requires
        0 <= from <= j <= t.len(),
    ensures
        find_byte(t, b, j) == from + find_byte(t.subrange(from, t.len() as int), b, j - from),
    decreases t.len() - j,
{
    if j < t.len() && t[j] != b {
        lemma_find_byte_shift(t, b, from, j + 1);
    }
}

/// An ASCII whitespace byte: space, tab, line feed, vertical tab, form feed or
/// carriage return.
pub open spec fn ascii_space(b: u8) -> bool {
    b == 32 || (9 <= b && b <= 13)
}

/// The UTF-8 encodings, three bytes long, of the non-ASCII whitespace
/// characters U+1680, U+2000 to U+200A, U+2028, U+2029, U+202F, U+205F, U+3000.
pub open spec fn space3(a: u8, b: u8, c: u8) -> bool {
    ||| (a == 0xE1 && b == 0x9A && c == 0x80)
    ||| (a == 0xE2 && b == 0x80 && ((0x80 <= c && c <= 0x8A) || c == 0xA8 || c == 0xA9 || c == 0xAF))
    ||| (a == 0xE2 && b == 0x81 && c == 0x9F)
    ||| (a == 0xE3 && b == 0x80 && c == 0x80)
}

/// The UTF-8 encodings, two bytes long, of U+0085 and U+00A0.
pub open spec fn space2(a: u8, b: u8) -> bool {
    a == 0xC2 && (b == 0x85 || b == 0xA0)
}

/// Byte length of the whitespace character (in the sense of
/// `char::is_whitespace`) that `t` starts with, or 0.
pub open spec fn leading_space_len(t: Seq<u8>) -> int {
    if t.len() >= 1 && ascii_space(t[0]) {
        1
    } else if t.len() >= 2 && space2(t[0], t[1]) {
        2
    } else if t.len() >= 3 && space3(t[0], t[1], t[2]) {
        3
    } else {
        0
    }
}

/// Byte length of the whitespace character that `t` ends with, or 0.
pub open spec fn trailing_space_len(t: Seq<u8>) -> int {
    let n = t.len() as int;
    if n >= 1 && ascii_space(t[n - 1]) {
        1
    } else if n >= 2 && space2(t[n - 2], t[n - 1]) {
        2
    } else if n >= 3 && space3(t[n - 3], t[n - 2], t[n - 1]) {
        3
    } else {
        0
    }
}

pub open spec fn trim_start(t: Seq<u8>) -> Seq<u8>
    decreases t.len(),
{
    let k = leading_space_len(t);
    if 0 < k <= t.len() {
        trim_start(t.skip(k))
    } else {
        t
    }
}

pub open spec fn trim_end(t: Seq<u8>) -> Seq<u8>
    decreases t.len(),
{
    let k = trailing_space_len(t);
    if 0 < k <= t.len() {
        trim_end(t.take(t.len() - k))
    } else {
        t
    }
}

/// A text without its leading and trailing whitespace, as `str::trim` gives it.
pub open spec fn trim(t: Seq<u8>) -> Seq<u8> {
    trim_end(trim_start(t))
}

fn leading_space_len_in(t: &[u8], lo: usize, hi: usize) -> (k: usize)
    requires
        lo <= hi <= t@.len(),
    ensures
        k as int == leading_space_len(t@.subrange(lo as int, hi as int)),
{
    let n = hi - lo;
    if n >= 1 && (t[lo] == 32 || (9 <= t[lo] && t[lo] <= 13)) {
        1
    } else if n >= 2 && t[lo] == 0xC2 && (t[lo + 1] == 0x85 || t[lo + 1] == 0xA0) {
        2
    } else if n >= 3 && ((t[lo] == 0xE1 && t[lo + 1] == 0x9A && t[lo + 2] == 0x80) || (t[lo] == 0xE2
        && t[lo + 1] == 0x80 && ((0x80 <= t[lo + 2] && t[lo + 2] <= 0x8A) || t[lo + 2] == 0xA8 || t[lo + 2]
        == 0xA9 || t[lo + 2] == 0xAF)) || (t[lo] == 0xE2 && t[lo + 1] == 0x81 && t[lo + 2] == 0x9F) || (
    t[lo] == 0xE3 && t[lo + 1] == 0x80 && t[lo + 2] == 0x80)) {
        3
    } else {
        0
    }
}

fn trailing_space_len_in(t: &[u8], lo: usize, hi: usize) -> (k: usize)
    requires
        lo <= hi <= t@.len(),
    ensures
        k as int == trailing_space_len(t@.subrange(lo as int, hi as int)),
{
    let n = hi - lo;
    if n >= 1 && (t[hi - 1] == 32 || (9 <= t[hi - 1] && t[hi - 1] <= 13)) {
        1
    } else if n >= 2 && t[hi - 2] == 0xC2 && (t[hi - 1] == 0x85 || t[hi - 1] == 0xA0) {
        2
    } else if n >= 3 && ((t[hi - 3] == 0xE1 && t[hi - 2] == 0x9A && t[hi - 1] == 0x80) || (t[hi - 3]
        == 0xE2 && t[hi - 2] == 0x80 && ((0x80 <= t[hi - 1] && t[hi - 1] <= 0x8A) || t[hi - 1] == 0xA8
        || t[hi - 1] == 0xA9 || t[hi - 1] == 0xAF)) || (t[hi - 3] == 0xE2 && t[hi - 2] == 0x81 && t[hi
        - 1] == 0x9F) || (t[hi - 3] == 0xE3 && t[hi - 2] == 0x80 && t[hi - 1] == 0x80)) {
        3
    } else {
        0
    }
}

/// The bounds of `trim(t[lo .. hi])` inside `t`.
pub fn trim_range(t: &[u8], lo: usize, hi: usize) -> (res: (usize, usize))
    requires
        lo <= hi <= t@.len(),
    ensures
        lo <= res.0 <= res.1 <= hi,
        t@.subrange(res.0 as int, res.1 as int) == trim(t@.subrange(lo as int, hi as int)),
{
    let mut a = lo;
    loop
        invariant
            lo <= a <= hi <= t@.len(),
            trim_start(t@.subrange(a as int, hi as int)) == trim_start(t@.subrange(lo as int, hi as int)),
        ensures
            lo <= a <= hi,
            trim_start(t@.subrange(a as int, hi as int)) == trim_start(t@.subrange(lo as int, hi as int)),
            leading_space_len(t@.subrange(a as int, hi as int)) == 0,
        decreases hi - a,
    {
        let k = leading_space_len_in(t, a, hi);
        if k == 0 {
            break;
        }
        proof {
            assert(t@.subrange(a as int, hi as int).skip(k as int) =~= t@.subrange(a + k, hi as int));
        }
        a = a + k;
    }
    assert(trim_start(t@.subrange(a as int, hi as int)) == t@.subrange(a as int, hi as int));
    let mut b = hi;
    loop
        invariant
            lo <= a <= b <= hi <= t@.len(),
            trim_end(t@.subrange(a as int, b as int)) == trim(t@.subrange(lo as int, hi as int)),
        ensures
            lo <= a <= b <= hi,
            trim_end(t@.subrange(a as int, b as int)) == trim(t@.subrange(lo as int, hi as int)),
            trailing_space_len(t@.subrange(a as int, b as int)) == 0,
        decreases b - a,
    {
        let k = trailing_space_len_in(t, a, b);
        if k == 0 {
            break;
        }
        proof {
            assert(t@.subrange(a as int, b as int).take(b - a - k) =~= t@.subrange(a as int, b - k));
        }
        b = b - k;
    }
    (a, b)
}

/// The value of a decimal text, most significant digit first.
pub open spec fn decimal_value(d: Seq<u8>) -> nat
    decreases d.len(),
{
    if d.len() == 0 {
        0
    } else {
        decimal_value(d.drop_last()) * 10 + (d.last() - 48) as nat
    }
}

/// Every byte is an ASCII decimal digit.
pub open spec fn all_decimal(t: Seq<u8>) -> bool {
    forall|i: int| 0 <= i < t.len() ==> 48 <= #[trigger] t[i] <= 57
}

/// `u64::from_str`: an optional `+`, then one or more ASCII digits, with a
/// value that fits in 64 bits.
pub open spec fn parse_u64(t: Seq<u8>) -> Option<u64> {
    let d = if t.len() > 0 && t[0] == 43 { t.drop_first() } else { t };
    if d.len() == 0 || !all_decimal(d) || decimal_value(d) > u64::MAX {
        None
    } else {
        Some(decimal_value(d) as u64)
    }
}

proof fn lemma_decimal_value_step(d: Seq<u8>, i: int)
    requires
        0 <= i < d.len(),
    ensures
        decimal_value(d.take(i + 1)) == decimal_value(d.take(i)) * 10 + (d[i] - 48) as nat,
{
    assert(d.take(i + 1).drop_last() =~= d.take(i));
}

/// A decimal value only grows as digits are appended.
proof fn lemma_decimal_value_prefix(d: Seq<u8>, i: int)
    requires
        0 <= i <= d.len(),
        all_decimal(d),
    ensures
        decimal_value(d.take(i)) <= decimal_value(d),
    decreases d.len() - i,
{
    if i < d.len() {
        lemma_decimal_value_step(d, i);
        assert(48 <= d[i]);
        lemma_decimal_value_prefix(d, i + 1);
    } else {
        assert(d.take(i) =~= d);
    }
}

/// Parses `t[lo .. hi]` as `u64::from_str` does.
pub fn parse_u64_in(t: &[u8], lo: usize, hi: usize) -> (r: Option<u64>)
    requires
        lo <= hi <= t@.len(),
    ensures
        r == parse_u64(t@.subrange(lo as int, hi as int)),
{
    let ghost u = t@.subrange(lo as int, hi as int);
    let start = if hi > lo && t[lo] == 43 { lo + 1 } else { lo };
    let ghost d = t@.subrange(start as int, hi as int);
    assert(d =~= if u.len() > 0 && u[0] == 43 { u.drop_first() } else { u });
    if start == hi {
        return None;
    }
    let mut v: u64 = 0;
    let mut i = start;
    while i < hi
        invariant
            start <= i <= hi <= t@.len(),
            d == t@.subrange(start as int, hi as int),
            u == t@.subrange(lo as int, hi as int),
            d == (if u.len() > 0 && u[0] == 43 { u.drop_first() } else { u }),
            d.len() > 0,
            all_decimal(d.take(i - start)),
            v as nat == decimal_value(d.take(i - start)),
        decreases hi - i,
    {
        let c = t[i];
        if c < 48 || c > 57 {
            assert(d[i - start] == c);
            assert(!all_decimal(d));
            return None;
        }
        proof {
            lemma_decimal_value_step(d, i - start);
            assert(all_decimal(d.take(i - start + 1)));
        }
        let next = match v.checked_mul(10) {
            Some(x) => x.checked_add((c - 48) as u64),
            None => None,
        };
        match next {
            Some(x) => {
                v = x;
            },
            None => {
                proof {
                    if all_decimal(d) {
                        lemma_decimal_value_prefix(d, i - start + 1);
                    }
                }
                return None;
            },
        }
        i += 1;
    }
    assert(d.take(hi - start) =~= d);
    Some(v)
}

/// The bytes spell the characters one for one (as they do for ASCII text).
pub open spec fn spells(b: Seq<u8>, s: Seq<char>) -> bool {
    b.len() == s.len() && forall|i: int| 0 <= i < b.len() ==> (#[trigger] b[i]) as char == s[i]
}

/// Whether `t[lo .. hi]` spells the string `s`.
pub fn spells_in(t: &[u8], lo: usize, hi: usize, s: &str) -> (b: bool)
    requires
        lo <= hi <= t@.len(),
    ensures
        b == spells(t@.subrange(lo as int, hi as int), s@),
{
    let n = s.unicode_len();
    if hi - lo != n {
        return false;
    }
    let mut i: usize = 0;
    while i < n
        invariant
            n == s@.len(),
            hi - lo == n,
            lo <= hi <= t@.len(),
            i <= n,
            forall|j: int| 0 <= j < i ==> (#[trigger] t@[lo + j]) as char == s@[j],
        decreases n - i,
    {
        if (t[lo + i] as char) != s.get_char(i) {
            assert(t@.subrange(lo as int, hi as int)[i as int] == t@[lo + i]);
            return false;
        }
        i += 1;
    }
    assert forall|j: int| 0 <= j < n implies (#[trigger] t@.subrange(lo as int, hi as int)[j]) as char == s@[j] by {
        assert(t@.subrange(lo as int, hi as int)[j] == t@[lo + j]);
    }
    true
}

/// Whether two byte strings are equal.
pub fn bytes_equal(a: &[u8], b: &[u8]) -> (r: bool)
    ensures
        r == (a@ == b@),
{
    let n = a.len();
    if n != b.len() {
        return false;
    }
    let mut i: usize = 0;
    while i < n
        invariant
            n == a@.len(),
            n == b@.len(),
            i <= n,
            forall|j: int| 0 <= j < i ==> a@[j] == b@[j],
        decreases n - i,
    {
        if a[i] != b[i] {
            return false;
        }
        i += 1;
    }
    assert(a@ =~= b@);
    true
}

/// Copies `t[lo .. hi]`.
pub fn copy_range(t: &[u8], lo: usize, hi: usize) -> (v: Vec<u8>)
    requires
        lo <= hi <= t@.len(),
    ensures
        v@ == t@.subrange(lo as int, hi as int),
{
    let mut v: Vec<u8> = Vec::with_capacity(hi - lo);
    let mut i = lo;
    while i < hi
        invariant
            lo <= i <= hi <= t@.len(),
            v@ == t@.subrange(lo as int, i as int),
        decreases hi - i,
    {
        v.push(t[i]);
        i += 1;
        assert(v@ =~= t@.subrange(lo as int, i as int));
    }
    v
}

/// Searching a concatenation past its first part is searching the second part.
pub proof fn lemma_find_byte_append(a: Seq<u8>, b: Seq<u8>, c: u8, j: int)
    requires
        0 <= j <= b.len(),
    ensures
        find_byte(a + b, c, a.len() + j) == a.len() + find_byte(b, c, j),
    decreases b.len() - j,
{
    if j < b.len() {
        assert((a + b)[a.len() + j] == b[j]);
        if b[j] != c {
            lemma_find_byte_append(a, b, c, j + 1);
        }
    }
}

/// The lines of a concatenation past its first part are the lines of the second part.
pub proof fn lemma_lines_append(a: Seq<u8>, b: Seq<u8>, q: int)
    requires
        0 <= q,
    ensures
        lines_from(a + b, a.len() + q) == lines_from(b, q),
    decreases b.len() - q,
{
    if q < b.len() {
        lemma_find_byte_append(a, b, 10, q);
        lemma_find_byte(b, 10, q);
        let k = find_byte(b, 10, q);
        if k < b.len() {
            lemma_lines_append(a, b, k + 1);
            assert((a + b).subrange(a.len() + q, a.len() + k) =~= b.subrange(q, k));
        } else {
            assert((a + b).subrange(a.len() + q, (a + b).len() as int) =~= b.subrange(q, b.len() as int));
        }
    }
}

/// A line without a line feed, then a line feed, then the rest.
pub proof fn lemma_lines_cons(l: Seq<u8>, rest: Seq<u8>)
    requires
        forall|i: int| 0 <= i < l.len() ==> #[trigger] l[i] != 10,
    ensures
        lines(l + seq![10u8] + rest) == seq![strip_cr(l)] + lines(rest),
{
    let head = l + seq![10u8];
    let t = head + rest;
    assert(t =~= l + seq![10u8] + rest);
    lemma_find_until(t, l.len() as int, 0);
    assert(t.subrange(0, l.len() as int) =~= l);
    lemma_lines_append(head, rest, 0);
}

proof fn lemma_find_until(t: Seq<u8>, k: int, j: int)
    requires
        0 <= j <= k < t.len(),
        t[k] == 10,
        forall|i: int| j <= i < k ==> #[trigger] t[i] != 10,
    ensures
        find_byte(t, 10, j) == k,
    decreases k - j,
{
    if j < k {
        lemma_find_until(t, k, j + 1);
    }
}

} // verus!
