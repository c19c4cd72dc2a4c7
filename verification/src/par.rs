//! Chunked work of the parallel kernel, handed to rayon's thread pool.

use vstd::prelude::*;
use rayon::iter::{IndexedParallelIterator, ParallelIterator};
use rayon::slice::ParallelSliceMut;
use crate::kernels::reverse_and_add_block_range;
use crate::number::{carry_at, digits_valid, sum_digit};

verus! {

/// Number of chunks of size `chunk_size` (the last one possibly shorter) that
/// cover `n` positions.
pub open spec fn chunk_count(n: int, chunk_size: int) -> int {
    n / chunk_size + if n % chunk_size == 0 { 0int } else { 1int }
}

/// First position of the chunk that holds position `i`.
pub open spec fn chunk_start(i: int, chunk_size: int) -> int {
    (i / chunk_size) * chunk_size
}

/// One past the last position of chunk `c`.
pub open spec fn chunk_end(n: int, chunk_size: int, c: int) -> int {
    if (c + 1) * chunk_size <= n { (c + 1) * chunk_size } else { n }
}

/// Block kernel on chunk `c` of the output, whose first absolute position is
/// `c * chunk_size`.
pub fn block_chunk(current: &[u8], chunk: &mut [u8], c: usize, chunk_size: usize, carry: u64) -> (carry_out: u64)
    requires
        digits_valid(current@),
        c * chunk_size + old(chunk)@.len() <= current@.len(),
        carry <= 1,
    ensures
        final(chunk)@.len() == old(chunk)@.len(),
        forall|j: int|
            0 <= j < old(chunk)@.len() ==> final(chunk)@[j] == sum_digit(
                current@,
                c * chunk_size,
                carry as nat,
                c * chunk_size + j,
            ),
        carry_out == carry_at(current@, c * chunk_size, carry as nat, c * chunk_size + old(chunk)@.len()),
{
    let n = current.len();
    assert(c * chunk_size <= n);
    let start = c * chunk_size;
    reverse_and_add_block_range(current, chunk, start, carry)
}

/// Carry-select fix-up of chunk `c`: where the chunk's incoming carry is one,
/// its digits are taken from the carry-one results in `scratch`.
pub fn select_chunk(chunk: &mut [u8], c: usize, chunk_size: usize, cins: &[u64], scratch: &[u8], n: usize)
    requires
        n == scratch@.len(),
        c * chunk_size + old(chunk)@.len() <= n,
    ensures
        final(chunk)@.len() == old(chunk)@.len(),
        forall|j: int|
            0 <= j < old(chunk)@.len() ==> final(chunk)@[j] == if c < cins@.len() && cins@[c as int] != 0 {
                scratch@[c * chunk_size + j]
            } else {
                old(chunk)@[j]
            },
{
    if c >= cins.len() || cins[c] == 0 {
        return;
    }
    assert(c * chunk_size <= n);
    let start = c * chunk_size;
    if start >= n {
        return;
    }
    let len = chunk.len();
    let mut j: usize = 0;
    while j < len
        invariant
            len == chunk@.len(),
            len == old(chunk)@.len(),
            start == c * chunk_size,
            start + len <= scratch@.len(),
            scratch@.len() == n,
            j <= len,
            forall|k: int| 0 <= k < j ==> chunk@[k] == scratch@[start + k],
            forall|k: int| j <= k < len ==> chunk@[k] == old(chunk)@[k],
        decreases len - j,
    {
        chunk[j] = scratch[start + j];
        j += 1;
    }
}

/// Runs [`block_chunk`] on every chunk of `out`, in parallel.
///
/// Calls rayon's `par_chunks_mut(chunk_size).enumerate().map(..).collect()`.
/// Trusted: that rayon splits `out` into consecutive, non-overlapping chunks of
/// `chunk_size` elements (the last one possibly shorter), numbers them from
/// zero in order, runs the closure once on each, and collects the results in
/// chunk order; the closure only calls the verified `block_chunk`, whose
/// contract then gives each chunk's digits and carry out.
#[verifier::external_body]
pub(crate) fn par_block_chunks(current: &[u8], out: &mut Vec<u8>, chunk_size: usize, carry: u64) -> (couts: Vec<u64>)
    requires
        digits_valid(current@),
        old(out)@.len() == current@.len(),
        chunk_size > 0,
        carry <= 1,
    ensures
        final(out)@.len() == old(out)@.len(),
        couts@.len() == chunk_count(current@.len() as int, chunk_size as int),
        forall|i: int|
            0 <= i < current@.len() ==> final(out)@[i] == sum_digit(
                current@,
                chunk_start(i, chunk_size as int),
                carry as nat,
                i,
            ),
        forall|c: int|
            0 <= c < couts@.len() ==> couts@[c] as nat == carry_at(
                current@,
                c * chunk_size,
                carry as nat,
                chunk_end(current@.len() as int, chunk_size as int, c),
            ),
{
    out.par_chunks_mut(chunk_size)
        .enumerate()
        .map(|(c, chunk)| block_chunk(current, chunk, c, chunk_size, carry))
        .collect()
}

/// Runs [`select_chunk`] on every chunk of `out`, in parallel.
///
/// Calls rayon's `par_chunks_mut(chunk_size).enumerate().for_each(..)`.
/// Trusted: that rayon splits `out` into consecutive, non-overlapping chunks of
/// `chunk_size` elements (the last one possibly shorter), numbers them from
/// zero in order and runs the closure once on each; the closure only calls the
/// verified `select_chunk`, whose contract then gives each chunk's contents.
#[verifier::external_body]
pub(crate) fn par_select_chunks(out: &mut Vec<u8>, chunk_size: usize, cins: &[u64], scratch: &[u8])
    requires
        old(out)@.len() == scratch@.len(),
        chunk_size > 0,
    ensures
        final(out)@.len() == old(out)@.len(),
        forall|i: int|
            0 <= i < old(out)@.len() ==> final(out)@[i] == if i / (chunk_size as int) < cins@.len()
                && cins@[i / (chunk_size as int)] != 0 {
                scratch@[i]
            } else {
                old(out)@[i]
            },
{
    let n = scratch.len();
    out.par_chunks_mut(chunk_size)
        .enumerate()
        .for_each(|(c, chunk)| select_chunk(chunk, c, chunk_size, cins, scratch, n));
}

/// Sizes rayon's global thread pool.
///
/// Calls `rayon::ThreadPoolBuilder::new().num_threads(threads).build_global()`
/// and drops its result, which is an error when the global pool was already
/// built. Nothing is claimed of it.
#[verifier::external_body]
pub(crate) fn init_thread_pool(threads: usize) {
    let _ = rayon::ThreadPoolBuilder::new().num_threads(threads).build_global();
}

} // verus!
