//! The reverse-and-add kernels.

use vstd::prelude::*;
use vstd::string::StrSliceExecFns;
use crate::number::{
    carry_at, digits_valid, lemma_carry_bit, lemma_carry_restart, reverse_add, sum_digit, sum_digits,
};
use vstd::arithmetic::div_mod::{
    lemma_div_decreases, lemma_div_is_ordered, lemma_fundamental_div_mod, lemma_mod_pos_bound,
};
use crate::par::{chunk_count, chunk_end, chunk_start, par_block_chunks, par_select_chunks};
use crate::swar::{
    backward_word, forward_word, lemma_block_lanes, lemma_unpack_lanes, pack8, sum_word, LANE_OFFSET,
    SIGN_MASK,
};

verus! {

/// Per-digit reverse-and-add: `next` becomes `current + reverse(current)`.
pub fn reverse_and_add_naive_into(current: &[u8], next: &mut Vec<u8>)
    requires
        digits_valid(current@),
    ensures
        final(next)@ == reverse_add(current@),
{
    let n = current.len();
    next.clear();
    next.resize(n, 0);
    let mut carry: u8 = 0;
    for i in 0..n
        invariant
            n == current@.len(),
            digits_valid(current@),
            next@.len() == n,
            carry as nat == carry_at(current@, 0, 0, i as int),
            forall|j: int| 0 <= j < i ==> next@[j] == sum_digit(current@, 0, 0, j),
    {
        assert(current@[i as int] < 10 && current@[n - 1 - i] < 10);
        let mut intermediate = current[i] + current[n - 1 - i] + carry;
        if intermediate >= 10 {
            carry = 1;
            intermediate -= 10;
        } else {
            carry = 0;
        }
        next.set(i, intermediate);
    }
    if carry == 1 {
        next.push(1);
    }
    assert(next@ =~= reverse_add(current@)) by {
        let low = sum_digits(current@);
        if carry == 1 {
            assert(next@ =~= low.push(1u8));
        } else {
            assert(next@ =~= low);
        }
    }
}

/// The eight digits `s[pos], ..., s[pos + 7]` as one little-endian word.
fn load_word(s: &[u8], pos: usize) -> (w: u64)
    requires
        pos + 8 <= s@.len(),
        digits_valid(s@),
    ensures
        w == forward_word(s@, pos as int),
{
    let b0 = s[pos] as u64;
    let b1 = s[pos + 1] as u64;
    let b2 = s[pos + 2] as u64;
    let b3 = s[pos + 3] as u64;
    let b4 = s[pos + 4] as u64;
    let b5 = s[pos + 5] as u64;
    let b6 = s[pos + 6] as u64;
    let b7 = s[pos + 7] as u64;
    assert(b0 < 10 && b1 < 10 && b2 < 10 && b3 < 10 && b4 < 10 && b5 < 10 && b6 < 10 && b7 < 10);
    b0 + b1 * 0x100 + b2 * 0x1_0000 + b3 * 0x100_0000 + b4 * 0x1_0000_0000 + b5 * 0x100_0000_0000 + b6
        * 0x1_0000_0000_0000 + b7 * 0x100_0000_0000_0000
}

/// The eight digits `s[pos + 7], ..., s[pos]` as one little-endian word: the
/// byte-swapped load of the same eight digits.
fn load_word_reversed(s: &[u8], pos: usize) -> (w: u64)
    requires
        pos + 8 <= s@.len(),
        digits_valid(s@),
    ensures
        w == pack8(s@[pos + 7] as u64, s@[pos + 6] as u64, s@[pos + 5] as u64, s@[pos + 4] as u64,
            s@[pos + 3] as u64, s@[pos + 2] as u64, s@[pos + 1] as u64, s@[pos as int] as u64),
{
    let b7 = s[pos] as u64;
    let b6 = s[pos + 1] as u64;
    let b5 = s[pos + 2] as u64;
    let b4 = s[pos + 3] as u64;
    let b3 = s[pos + 4] as u64;
    let b2 = s[pos + 5] as u64;
    let b1 = s[pos + 6] as u64;
    let b0 = s[pos + 7] as u64;
    assert(b0 < 10 && b1 < 10 && b2 < 10 && b3 < 10 && b4 < 10 && b5 < 10 && b6 < 10 && b7 < 10);
    b0 + b1 * 0x100 + b2 * 0x1_0000 + b3 * 0x100_0000 + b4 * 0x1_0000_0000 + b5 * 0x100_0000_0000 + b6
        * 0x1_0000_0000_0000 + b7 * 0x100_0000_0000_0000
}

/// One eight-position step of the block kernel at positions `i .. i + 8`:
/// the packed result digits and the carry out of position `i + 7`.
fn add_block8(current: &[u8], i: usize, start: Ghost<int>, cin: Ghost<nat>, carry: u64) -> (res: (u64, u64))
    requires
        digits_valid(current@),
        0 <= start@ <= i,
        i + 8 <= current@.len(),
        cin@ <= 1,
        carry as nat == carry_at(current@, start@, cin@, i as int),
    ensures
        res.0 == sum_word(current@, start@, cin@, i as int),
        res.1 as nat == carry_at(current@, start@, cin@, i + 8),
{
    let n = current.len();
    let forward = load_word(current, i);
    let backward = load_word_reversed(current, n - 8 - i);
    proof {
        lemma_carry_bit(current@, start@, cin@, i as int);
        assert(backward == backward_word(current@, i as int));
    }
    let mut result = forward + LANE_OFFSET + backward + carry;
    proof {
        lemma_block_lanes(current@, start@, cin@, i as int, result);
    }
    let signs = result & SIGN_MASK;
    result -= (signs >> 7) * 0xF6;
    let msb = result >> 56;
    let carry_out: u64 = if msb >= 10 { 1 } else { 0 };
    proof {
        assert((10u64 << 56u64) == 0x0A00_0000_0000_0000u64) by (bit_vector);
    }
    result -= carry_out * (10u64 << 56);
    (result, carry_out)
}

/// Writes the eight lanes of `w` to `out[pos], ..., out[pos + 7]`.
fn store_word(out: &mut [u8], pos: usize, w: u64, d: Ghost<Seq<u8>>)
    requires
        pos + 8 <= old(out)@.len(),
        d@.len() == 8,
        w == pack8(d@[0] as u64, d@[1] as u64, d@[2] as u64, d@[3] as u64, d@[4] as u64,
            d@[5] as u64, d@[6] as u64, d@[7] as u64),
    ensures
        final(out)@.len() == old(out)@.len(),
        forall|j: int| 0 <= j < pos ==> final(out)@[j] == old(out)@[j],
        forall|k: int| 0 <= k < 8 ==> final(out)@[pos + k] == d@[k],
{
    proof {
        lemma_unpack_lanes(d@[0] as u64, d@[1] as u64, d@[2] as u64, d@[3] as u64, d@[4] as u64,
            d@[5] as u64, d@[6] as u64, d@[7] as u64, w);
    }
    out[pos] = w as u8;
    out[pos + 1] = (w >> 8) as u8;
    out[pos + 2] = (w >> 16) as u8;
    out[pos + 3] = (w >> 24) as u8;
    out[pos + 4] = (w >> 32) as u8;
    out[pos + 5] = (w >> 40) as u8;
    out[pos + 6] = (w >> 48) as u8;
    out[pos + 7] = (w >> 56) as u8;
}

/// Block kernel over the absolute positions `start .. start + next_out.len()`:
/// eight positions per step through one 64-bit word, then one position at a
/// time. Position `start + j` is written to `next_out[j]`; the carry out of the
/// range is returned.
pub fn reverse_and_add_block_range(current: &[u8], next_out: &mut [u8], start: usize, carry: u64) -> (carry_out: u64)
    requires
        digits_valid(current@),
        start + old(next_out)@.len() <= current@.len(),
        carry <= 1,
    ensures
        final(next_out)@.len() == old(next_out)@.len(),
        forall|j: int|
            0 <= j < old(next_out)@.len() ==> final(next_out)@[j] == sum_digit(
                current@,
                start as int,
                carry as nat,
                start + j,
            ),
        carry_out == carry_at(current@, start as int, carry as nat, start + old(next_out)@.len()),
{
    let n = current.len();
    let end = start + next_out.len();
    let ghost cin = carry as nat;
    let ghost len = next_out@.len();
    let mut carry = carry;
    let mut i = start;
    let mut local: usize = 0;
    while end - i >= 8
        invariant
            n == current@.len(),
            digits_valid(current@),
            end == start + len,
            end <= n,
            cin <= 1,
            next_out@.len() == len,
            start <= i <= end,
            i == start + local,
            carry as nat == carry_at(current@, start as int, cin, i as int),
            forall|j: int| 0 <= j < local ==> next_out@[j] == sum_digit(current@, start as int, cin, start + j),
        decreases end - i,
    {
        let ghost digits8 = Seq::new(8, |k: int| sum_digit(current@, start as int, cin, i + k));
        let (word, carry_out) = add_block8(current, i, Ghost(start as int), Ghost(cin), carry);
        store_word(next_out, local, word, Ghost(digits8));
        carry = carry_out;
        assert forall|j: int| 0 <= j < local + 8 implies next_out@[j] == sum_digit(
            current@,
            start as int,
            cin,
            start + j,
        ) by {
            if j >= local {
                assert(next_out@[local + (j - local)] == digits8[j - local]);
            }
        }
        i += 8;
        local += 8;
    }
    while i < end
        invariant
            n == current@.len(),
            digits_valid(current@),
            end == start + len,
            end <= n,
            cin <= 1,
            next_out@.len() == len,
            start <= i <= end,
            i == start + local,
            carry as nat == carry_at(current@, start as int, cin, i as int),
            forall|j: int| 0 <= j < local ==> next_out@[j] == sum_digit(current@, start as int, cin, start + j),
        decreases end - i,
    {
        proof {
            lemma_carry_bit(current@, start as int, cin, i as int);
            assert(current@[i as int] < 10 && current@[n - 1 - i] < 10);
        }
        let mut intermediate = current[i] as u64 + current[n - 1 - i] as u64 + carry;
        if intermediate >= 10 {
            carry = 1;
            intermediate -= 10;
        } else {
            carry = 0;
        }
        next_out[local] = intermediate as u8;
        i += 1;
        local += 1;
    }
    carry
}

/// Serial block-level reverse-and-add: `next` becomes `current + reverse(current)`.
pub fn reverse_and_add_block_into(current: &[u8], next: &mut Vec<u8>)
    requires
        digits_valid(current@),
    ensures
        final(next)@ == reverse_add(current@),
{
    let n = current.len();
    next.clear();
    next.resize(n, 0);
    let carry = reverse_and_add_block_range(current, next.as_mut_slice(), 0, 0);
    proof {
        lemma_carry_bit(current@, 0, 0, n as int);
    }
    if carry == 1 {
        next.push(1);
    }
    assert(next@ =~= reverse_add(current@)) by {
        let low = sum_digits(current@);
        if carry == 1 {
            assert(next@ =~= low.push(1u8));
        } else {
            assert(next@ =~= low);
        }
    }
}

/// Below this many digits per chunk the parallel kernel does not split the work.
pub const PARALLEL_MIN_CHUNK: usize = 100_000;

/// Number of chunks the parallel kernel uses for `n` digits and `threads` threads.
pub open spec fn parallel_chunks(n: int, threads: int) -> int {
    let m = if threads <= n / (PARALLEL_MIN_CHUNK as int) { threads } else { n / (PARALLEL_MIN_CHUNK as int) };
    if m >= 1 { m } else { 1 }
}

/// Number of chunks the parallel kernel uses: as many as there are threads,
/// but at most one per `PARALLEL_MIN_CHUNK` digits, and at least one.
pub fn parallel_chunk_count(n: usize, threads: usize) -> (k: usize)
    ensures
        k == parallel_chunks(n as int, threads as int),
        k >= 1,
{
    let by_size = n / PARALLEL_MIN_CHUNK;
    let fewest = if threads <= by_size { threads } else { by_size };
    if fewest >= 1 { fewest } else { 1 }
}

/// Chunk size that splits `n` digits into `k` chunks, rounding up.
pub open spec fn parallel_chunk_size(n: int, k: int) -> int {
    n / k + if n % k == 0 { 0int } else { 1int }
}

/// Chunk `j` exists exactly when its first position lies inside the number.
proof fn lemma_chunk_index(n: int, cs: int, j: int)
    requires
        cs >= 1,
        0 <= n,
        0 <= j,
    ensures
        (j < chunk_count(n, cs)) == (j * cs < n),
{
    lemma_fundamental_div_mod(n, cs);
    lemma_mod_pos_bound(n, cs);
    if j < chunk_count(n, cs) {
        if j < n / cs {
            assert(j * cs <= (n / cs - 1) * cs) by (nonlinear_arith)
                requires j <= n / cs - 1, cs >= 1;
            assert((n / cs - 1) * cs == cs * (n / cs) - cs) by (nonlinear_arith);
        } else {
            assert(j * cs == cs * (n / cs)) by (nonlinear_arith)
                requires j == n / cs;
        }
    } else {
        assert(j * cs >= chunk_count(n, cs) * cs) by (nonlinear_arith)
            requires j >= chunk_count(n, cs), cs >= 1;
        if n % cs == 0 {
            assert(chunk_count(n, cs) * cs == cs * (n / cs)) by (nonlinear_arith)
                requires chunk_count(n, cs) == n / cs;
        } else {
            assert(chunk_count(n, cs) * cs == cs * (n / cs) + cs) by (nonlinear_arith)
                requires chunk_count(n, cs) == n / cs + 1;
        }
    }
}

/// The chunks of size `cs` cover the `n` digits in at most `k` chunks, and
/// position `i` lies in the chunk `i / cs`.
proof fn lemma_chunk_geometry(n: int, k: int, cs: int, i: int)
    requires
        k >= 1,
        n >= k,
        cs == parallel_chunk_size(n, k),
        0 <= i < n,
    ensures
        cs >= 1,
        k * cs >= n,
        chunk_count(n, cs) <= k,
        chunk_start(i, cs) <= i,
        0 <= i / cs < chunk_count(n, cs),
        (i / cs) * cs < n,
        chunk_start(i, cs) == (i / cs) * cs,
{
    lemma_fundamental_div_mod(n, k);
    lemma_mod_pos_bound(n, k);
    assert(n / k >= 1) by (nonlinear_arith)
        requires n >= k, k >= 1;
    assert(k * cs >= n) by (nonlinear_arith)
        requires
            cs == n / k + if n % k == 0 { 0int } else { 1int },
            k >= 1,
            n == k * (n / k) + n % k,
            0 <= n % k < k,
    ;
    lemma_fundamental_div_mod(n, cs);
    lemma_mod_pos_bound(n, cs);
    lemma_fundamental_div_mod(i, cs);
    lemma_mod_pos_bound(i, cs);
    lemma_div_is_ordered(i, n, cs);
    assert(chunk_count(n, cs) <= k) by (nonlinear_arith)
        requires
            k * cs >= n,
            cs >= 1,
            n == cs * (n / cs) + n % cs,
            0 <= n % cs < cs,
            k >= 1,
    {
        if n / cs >= k {
            assert(cs * (n / cs) >= cs * k);
        }
        if n % cs != 0 && n / cs >= k - 1 {
            assert(cs * (n / cs) >= cs * (k - 1));
        }
    }
    assert(0 <= i / cs && (i / cs) * cs <= i) by (nonlinear_arith)
        requires
            cs >= 1,
            0 <= i,
            i == cs * (i / cs) + i % cs,
            0 <= i % cs < cs,
    ;
    assert(i / cs < chunk_count(n, cs)) by (nonlinear_arith)
        requires
            cs >= 1,
            0 <= i < n,
            i / cs <= n / cs,
            n == cs * (n / cs) + n % cs,
            i == cs * (i / cs) + i % cs,
            0 <= i % cs < cs,
            0 <= n % cs < cs,
    {
        if n % cs == 0 && i / cs == n / cs {
            assert(cs * (i / cs) == cs * (n / cs));
        }
    }
}

/// What the parallel kernel leaves in its scratch buffer: untouched when it
/// does not split the work, else every chunk computed with incoming carry 1.
pub open spec fn parallel_scratch(current: Seq<u8>, threads: int, before: Seq<u8>, after: Seq<u8>) -> bool {
    let n = current.len() as int;
    let k = parallel_chunks(n, threads);
    if k <= 1 {
        after == before
    } else {
        let cs = parallel_chunk_size(n, k);
        &&& after.len() == n
        &&& forall|i: int| 0 <= i < n ==> after[i] == sum_digit(current, chunk_start(i, cs), 1, i)
    }
}

/// Multi-threaded reverse-and-add by carry-select: every chunk is computed in
/// parallel both with incoming carry 0 (into `next`) and 1 (into `scratch`),
/// then a short serial pass picks each chunk's true incoming carry and the
/// chunks whose carry is 1 are copied over from `scratch`. Small numbers go to
/// the serial block kernel.
pub fn reverse_and_add_parallel_into(current: &[u8], next: &mut Vec<u8>, scratch: &mut Vec<u8>, threads: usize)
    requires
        digits_valid(current@),
    ensures
        final(next)@ == reverse_add(current@),
        parallel_scratch(current@, threads as int, old(scratch)@, final(scratch)@),
{
    let n = current.len();
    let num_chunks = parallel_chunk_count(n, threads);
    if num_chunks <= 1 {
        reverse_and_add_block_into(current, next);
        return;
    }
    next.clear();
    next.resize(n, 0);
    scratch.clear();
    scratch.resize(n, 0);

    proof {
        lemma_div_decreases(n as int, num_chunks as int);
    }
    let chunk_size = n / num_chunks + if n % num_chunks == 0 { 0 } else { 1 };
    let ghost cs = chunk_size as int;
    let ghost nn = n as int;
    proof {
        assert(n >= num_chunks) by (nonlinear_arith)
            requires num_chunks <= n / 100_000usize, num_chunks >= 1;
        lemma_chunk_geometry(n as int, num_chunks as int, cs, 0);
        lemma_fundamental_div_mod(nn, cs);
        lemma_mod_pos_bound(nn, cs);
    }

    let couts_0 = par_block_chunks(current, next, chunk_size, 0);
    let couts_1 = par_block_chunks(current, scratch, chunk_size, 1);
    let ghost count = chunk_count(n as int, cs);

    let mut cins: Vec<u64> = vec![0u64; num_chunks];
    let mut cin: u64 = 0;
    let mut c: usize = 0;
    while c < num_chunks
        invariant_except_break
            c <= count,
        invariant
            n == current@.len(),
            nn == n,
            nn == cs * (nn / cs) + nn % cs,
            0 <= nn % cs < cs,
            cs == chunk_size,
            chunk_size >= 1,
            num_chunks * cs >= n,
            count <= num_chunks,
            count == chunk_count(n as int, cs),
            couts_0@.len() == count,
            couts_1@.len() == count,
            forall|j: int|
                0 <= j < count ==> couts_0@[j] as nat == carry_at(current@, j * cs, 0, chunk_end(n as int, cs, j)),
            forall|j: int|
                0 <= j < count ==> couts_1@[j] as nat == carry_at(current@, j * cs, 1, chunk_end(n as int, cs, j)),
            cins@.len() == num_chunks,
            c <= num_chunks,
            cin as nat == carry_at(current@, 0, 0, if c * cs <= n { c * cs } else { n as int }),
            forall|j: int| 0 <= j < c ==> cins@[j] as nat == carry_at(current@, 0, 0, j * cs),
        ensures
            cin as nat == carry_at(current@, 0, 0, n as int),
            forall|j: int| 0 <= j < count ==> cins@[j] as nat == carry_at(current@, 0, 0, j * cs),
        decreases num_chunks - c,
    {
        let start = match c.checked_mul(chunk_size) {
            Some(s) => s,
            None => n,
        };
        if start >= n {
            proof {
                assert(c * cs >= n);
                assert forall|j: int| 0 <= j < count implies cins@[j] as nat == carry_at(current@, 0, 0, j * cs) by {
                    lemma_chunk_index(nn, cs, j);
                    if j >= c {
                        assert(j * cs >= c * cs) by (nonlinear_arith)
                            requires j >= c, cs >= 1;
                    }
                }
            }
            break;
        }
        proof {
            lemma_chunk_index(nn, cs, c as int);
            lemma_carry_bit(current@, 0, 0, c * cs);
            let e = chunk_end(n as int, cs, c as int);
            assert(e == if (c + 1) * cs <= n { (c + 1) * cs } else { n as int });
            assert((c + 1) * cs == c * cs + cs) by (nonlinear_arith);
            lemma_carry_restart(current@, c * cs, e);
        }
        cins.set(c, cin);
        cin = if cin == 0 { couts_0[c] } else { couts_1[c] };
        c += 1;
    }
    let final_carry = cin;

    let ghost before = next@;
    par_select_chunks(next, chunk_size, cins.as_slice(), scratch.as_slice());
    assert forall|i: int| 0 <= i < n implies next@[i] == sum_digit(current@, 0, 0, i) by {
        lemma_chunk_geometry(n as int, num_chunks as int, cs, i);
        let k = i / cs;
        lemma_carry_bit(current@, 0, 0, k * cs);
        lemma_carry_restart(current@, k * cs, i);
    }
    proof {
        lemma_carry_bit(current@, 0, 0, n as int);
    }
    if final_carry == 1 {
        next.push(1);
    }
    assert(next@ =~= reverse_add(current@)) by {
        let low = sum_digits(current@);
        if final_carry == 1 {
            assert(next@ =~= low.push(1u8));
        } else {
            assert(next@ =~= low);
        }
    }
}

/// Which reverse-and-add kernel a run uses.
#[derive(Clone, Copy, Debug, PartialEq, Eq, Structural)]
pub enum Kernel {
    /// Per-digit carry loop; the reference.
    Naive,
    /// Eight digits per 64-bit word with the biased-lane carry trick.
    Block,
    /// Chunks computed on all threads with carry-select.
    Parallel,
}

/// Whether two strings hold the same characters.
fn str_equals(s: &str, t: &str) -> (b: bool)
    ensures
        b == (s@ == t@),
{
    let n = s.unicode_len();
    if n != t.unicode_len() {
        return false;
    }
    let mut i: usize = 0;
    while i < n
        invariant
            n == s@.len(),
            n == t@.len(),
            i <= n,
            forall|j: int| 0 <= j < i ==> s@[j] == t@[j],
        decreases n - i,
    {
        if s.get_char(i) != t.get_char(i) {
            return false;
        }
        i += 1;
    }
    assert(s@ =~= t@);
    true
}

impl Kernel {
    /// The kernel named by a command-line word.
    pub fn parse(s: &str) -> (k: Option<Kernel>)
        ensures
            k == if s@ == "naive"@ {
                Some(Kernel::Naive)
            } else if s@ == "block"@ {
                Some(Kernel::Block)
            } else if s@ == "parallel"@ {
                Some(Kernel::Parallel)
            } else {
                None
            },
    {
        if str_equals(s, "naive") {
            Some(Kernel::Naive)
        } else if str_equals(s, "block") {
            Some(Kernel::Block)
        } else if str_equals(s, "parallel") {
            Some(Kernel::Parallel)
        } else {
            None
        }
    }

    /// The command-line word of a kernel.
    pub fn name(self) -> (s: &'static str)
        ensures
            s@ == match self {
                Kernel::Naive => "naive"@,
                Kernel::Block => "block"@,
                Kernel::Parallel => "parallel"@,
            },
    {
        match self {
            Kernel::Naive => "naive",
            Kernel::Block => "block",
            Kernel::Parallel => "parallel",
        }
    }
}

/// One reverse-and-add step with the chosen kernel. Only the parallel kernel
/// touches `scratch`.
pub fn reverse_and_add_into(kernel: Kernel, threads: usize, current: &[u8], next: &mut Vec<u8>, scratch: &mut Vec<u8>)
    requires
        digits_valid(current@),
    ensures
        final(next)@ == reverse_add(current@),
        kernel != Kernel::Parallel ==> final(scratch)@ == old(scratch)@,
        kernel == Kernel::Parallel ==> parallel_scratch(current@, threads as int, old(scratch)@, final(scratch)@),
{
    match kernel {
        Kernel::Naive => reverse_and_add_naive_into(current, next),
        Kernel::Block => reverse_and_add_block_into(current, next),
        Kernel::Parallel => reverse_and_add_parallel_into(current, next, scratch, threads),
    }
}

} // verus!
