//! The decisions of a long reverse-and-add run: when to stop, when to save,
//! the milestone and integrity checks, and the kernel self-test.

use vstd::prelude::*;
use vstd::arithmetic::power2::pow2;
use crate::digits::{digit_sum_mod9, is_palindrome, pow2_mod9, text_of_digits};
use crate::kernels::{parallel_scratch, reverse_and_add_block_into, reverse_and_add_into, reverse_and_add_naive_into,
    reverse_and_add_parallel_into, Kernel};
use crate::milestones::{check_milestone, first_unchecked, Checkpoint, MilestoneReport};
use crate::number::{digit_sum, digits_valid, iterate, lemma_iterate_valid,
    lemma_reverse_add_grows, lemma_reverse_add_value, lemma_pow10_monotone, lemma_value_bound, pow10,
    reverse_add, value};
use crate::text::bytes_equal;
use crate::par::init_thread_pool;
use vstd::slice::slice_to_vec;

verus! {

/// Why a run stops.
#[derive(Clone, Copy, Debug, PartialEq, Eq, Structural)]
pub enum Stop {
    /// The number reads the same both ways (after at least one step).
    Palindrome,
    /// The iteration cap was reached.
    MaxIterations,
}

/// Why a run holding `digits` at step `iteration` stops before its next step.
pub open spec fn stop_for(digits: Seq<u8>, iteration: u64, max_iterations: Option<u64>) -> Option<Stop> {
    if iteration > 0 && digits == digits.reverse() {
        Some(Stop::Palindrome)
    } else if cap_reached(iteration, max_iterations) {
        Some(Stop::MaxIterations)
    } else {
        None
    }
}

/// Whether the step count has reached the cap, if there is one.
pub open spec fn cap_reached(iteration: u64, max_iterations: Option<u64>) -> bool {
    match max_iterations {
        Some(max) => iteration >= max,
        None => false,
    }
}

/// When a run stops: a palindrome reached after at least one step stops it,
/// whatever the cap; the cap stops it otherwise; a run that has not taken a
/// step or holds no palindrome goes on below the cap.
pub proof fn lemma_stop_rules(digits: Seq<u8>, iteration: u64, max_iterations: Option<u64>)
    ensures
        iteration > 0 && digits == digits.reverse() ==> stop_for(digits, iteration, max_iterations) == Some(
            Stop::Palindrome,
        ),
        stop_for(digits, iteration, max_iterations) == Some(Stop::Palindrome) ==> iteration > 0 && digits
            == digits.reverse(),
        stop_for(digits, iteration, max_iterations) == Some(Stop::MaxIterations) ==> cap_reached(iteration, max_iterations),
        !(iteration > 0 && digits == digits.reverse()) && cap_reached(iteration, max_iterations)
            ==> stop_for(digits, iteration, max_iterations) == Some(Stop::MaxIterations),
        stop_for(digits, iteration, max_iterations) is None <==> !(iteration > 0 && digits == digits.reverse())
            && !(cap_reached(iteration, max_iterations)),
{
}

/// What one turn of a run did.
pub enum StepOutcome {
    /// The run stops here, unchanged.
    Stopped(Stop),
    /// The run took one step; a milestone may have been reached, and a full
    /// save may be due.
    Advanced { milestone: Option<MilestoneReport>, full_save_due: bool },
}

/// The state of a run: the current number, the step count, the step of the
/// last full save and the next milestone to check.
pub struct Search {
    pub digits: Vec<u8>,
    pub iteration: u64,
    pub full_save_iteration: u64,
    pub next_check_idx: usize,
}

impl Search {
    /// The current number is a valid digit array, and the last full save is
    /// not ahead of the current step.
    pub open spec fn wf(&self) -> bool {
        &&& digits_valid(self.digits@)
        &&& self.full_save_iteration <= self.iteration
    }

    /// A run at step `iteration` holding `digits`, fully saved at that step,
    /// whose next milestone is the first one beyond its digit count.
    pub fn new(digits: Vec<u8>, iteration: u64, table: &[Checkpoint]) -> (s: Search)
        requires
            digits_valid(digits@),
        ensures
            s.wf(),
            s.digits@ == digits@,
            s.iteration == iteration,
            s.full_save_iteration == iteration,
            s.next_check_idx <= table@.len(),
            forall|j: int| 0 <= j < s.next_check_idx ==> table@[j].digit_count <= digits@.len(),
            s.next_check_idx < table@.len() ==> table@[s.next_check_idx as int].digit_count > digits@.len(),
    {
        let next_check_idx = first_unchecked(table, digits.len());
        Search { digits, iteration, full_save_iteration: iteration, next_check_idx }
    }

    /// Whether the run stops before its next step: a palindrome reached after
    /// at least one step, else the iteration cap.
    pub fn stop_reason(&self, max_iterations: Option<u64>) -> (r: Option<Stop>)
        ensures
            r == stop_for(self.digits@, self.iteration, max_iterations),
            self.iteration > 0 && self.digits@ == self.digits@.reverse() ==> r == Some(Stop::Palindrome),
            r == Some(Stop::Palindrome) ==> self.iteration > 0 && self.digits@ == self.digits@.reverse(),
            r == Some(Stop::MaxIterations) ==> cap_reached(self.iteration, max_iterations),
            r is None ==> !(cap_reached(self.iteration, max_iterations)),
    {
        if self.iteration > 0 && is_palindrome(self.digits.as_slice()) {
            return Some(Stop::Palindrome);
        }
        if let Some(max) = max_iterations {
            if self.iteration >= max {
                return Some(Stop::MaxIterations);
            }
        }
        None
    }

    /// One reverse-and-add step with the chosen kernel; `other` and `scratch`
    /// are reused buffers, and `other` ends up holding the previous number.
    pub fn advance(&mut self, kernel: Kernel, threads: usize, other: &mut Vec<u8>, scratch: &mut Vec<u8>)
        requires
            old(self).wf(),
            old(self).iteration < u64::MAX,
        ensures
            final(self).wf(),
            final(self).digits@ == reverse_add(old(self).digits@),
            final(self).iteration == old(self).iteration + 1,
            final(self).full_save_iteration == old(self).full_save_iteration,
            final(self).next_check_idx == old(self).next_check_idx,
            final(other)@ == old(self).digits@,
            kernel != Kernel::Parallel ==> final(scratch)@ == old(scratch)@,
            kernel == Kernel::Parallel ==> parallel_scratch(old(self).digits@, threads as int, old(scratch)@, final(scratch)@),
    {
        reverse_and_add_into(kernel, threads, self.digits.as_slice(), other, scratch);
        proof {
            lemma_reverse_add_value(self.digits@);
        }
        std::mem::swap(&mut self.digits, other);
        self.iteration = self.iteration + 1;
    }

    /// Checks the next milestone against the current number and step.
    pub fn check_milestone(&mut self, table: &[Checkpoint]) -> (report: Option<MilestoneReport>)
        requires
            old(self).wf(),
        ensures
            final(self).wf(),
            final(self).digits == old(self).digits,
            final(self).iteration == old(self).iteration,
            final(self).full_save_iteration == old(self).full_save_iteration,
            ({
                let i = old(self).next_check_idx;
                let digits = old(self).digits@;
                if i < table@.len() && digits.len() == table@[i as int].digit_count {
                    &&& final(self).next_check_idx == i + 1
                    &&& report matches Some(r) && r.index == i && r.matched == (table@[i as int].iteration
                        == old(self).iteration && r.ours@ == table@[i as int].first_25@)
                        && r.ours@ == text_of_digits(digits).take(if 25 <= digits.len() { 25 } else { digits.len() as int })
                } else {
                    &&& final(self).next_check_idx == i
                    &&& report is None
                }
            }),
    {
        check_milestone(table, &mut self.next_check_idx, self.digits.as_slice(), self.iteration)
    }

    /// Whether `every` steps have passed since the last full save.
    pub fn full_save_due(&self, every: u64) -> (due: bool)
        requires
            self.wf(),
        ensures
            due == (self.iteration - self.full_save_iteration >= every),
    {
        self.iteration - self.full_save_iteration >= every
    }

    /// Records a full save at the current step.
    pub fn mark_full_save(&mut self)
        requires
            old(self).wf(),
        ensures
            final(self).wf(),
            final(self).digits == old(self).digits,
            final(self).iteration == old(self).iteration,
            final(self).full_save_iteration == old(self).iteration,
            final(self).next_check_idx == old(self).next_check_idx,
    {
        self.full_save_iteration = self.iteration;
    }
}

impl Search {
    /// One turn of a run, in order: stop on a palindrome or at the cap;
    /// otherwise take one step, check the next milestone against the new
    /// number, and tell whether a full save is due.
    pub fn step(
        &mut self,
        kernel: Kernel,
        threads: usize,
        max_iterations: Option<u64>,
        full_save_every: u64,
        table: &[Checkpoint],
        other: &mut Vec<u8>,
        scratch: &mut Vec<u8>,
    ) -> (out: StepOutcome)
        requires
            old(self).wf(),
            old(self).iteration < u64::MAX,
        ensures
            final(self).wf(),
            final(self).full_save_iteration == old(self).full_save_iteration,
            match out {
                StepOutcome::Stopped(reason) => {
                    &&& stop_for(old(self).digits@, old(self).iteration, max_iterations) == Some(reason)
                    &&& final(self).digits@ == old(self).digits@
                    &&& final(self).iteration == old(self).iteration
                    &&& final(self).next_check_idx == old(self).next_check_idx
                },
                StepOutcome::Advanced { milestone, full_save_due } => {
                    let i = old(self).next_check_idx;
                    let d = final(self).digits@;
                    &&& stop_for(old(self).digits@, old(self).iteration, max_iterations) is None
                    &&& d == reverse_add(old(self).digits@)
                    &&& final(self).iteration == old(self).iteration + 1
                    &&& if i < table@.len() && d.len() == table@[i as int].digit_count {
                        &&& final(self).next_check_idx == i + 1
                        &&& milestone matches Some(r) && r.index == i && r.matched == (table@[i as int].iteration
                            == final(self).iteration && r.ours@ == table@[i as int].first_25@)
                            && r.ours@ == text_of_digits(d).take(if 25 <= d.len() { 25 } else { d.len() as int })
                    } else {
                        &&& final(self).next_check_idx == i
                        &&& milestone is None
                    }
                    &&& full_save_due == (final(self).iteration - final(self).full_save_iteration >= full_save_every)
                },
            },
    {
        match self.stop_reason(max_iterations) {
            Some(reason) => StepOutcome::Stopped(reason),
            None => {
                self.advance(kernel, threads, other, scratch);
                let milestone = self.check_milestone(table);
                let full_save_due = self.full_save_due(full_save_every);
                StepOutcome::Advanced { milestone, full_save_due }
            },
        }
    }
}

/// The digit-sum check of a run at a checkpoint.
pub struct IntegrityReport {
    /// Digit sum of the current number, modulo 9.
    pub actual: u64,
    /// `c0 * 2^iteration` modulo 9, where `c0` is the start's digit sum modulo 9.
    pub predicted: u64,
    /// Whether the two agree.
    pub ok: bool,
}

/// Compares the digit sum modulo 9 with the value every step must give:
/// doubling modulo 9, from `c0_mod9` at step 0.
pub fn integrity_check(digits: &[u8], c0_mod9: u64, iteration: u64) -> (r: IntegrityReport)
    requires
        c0_mod9 * (pow2(iteration as nat) % 9) <= u64::MAX,
    ensures
        r.actual == digit_sum(digits@) % 9,
        r.predicted == (c0_mod9 * (pow2(iteration as nat) % 9)) % 9,
        r.ok == (r.actual == r.predicted),
{
    let actual = digit_sum_mod9(digits);
    let predicted = (c0_mod9 * pow2_mod9(iteration)) % 9;
    IntegrityReport { actual, predicted, ok: actual == predicted }
}

/// A disagreement found by the self-test: the step and each kernel's result.
pub struct SelfTestFailure {
    pub iteration: u64,
    pub naive: Vec<u8>,
    pub block: Vec<u8>,
    pub parallel: Vec<u8>,
}

/// Runs the kernels side by side for `iters` steps from `start` and compares
/// their results after every step (the naive kernel only when `with_naive`).
/// The kernels are proved to agree, so the comparison never fails and the
/// result is the number after `iters` steps.
pub fn compare_kernels(start: &[u8], iters: u64, threads: usize, with_naive: bool) -> (r: Result<Vec<u8>, SelfTestFailure>)
    requires
        digits_valid(start@),
    ensures
        r matches Ok(v) && v@ == iterate(start@, iters as nat),
{
    let mut naive: Vec<u8> = slice_to_vec(start);
    let mut block: Vec<u8> = slice_to_vec(start);
    let mut parallel: Vec<u8> = slice_to_vec(start);
    let mut tmp_n: Vec<u8> = Vec::new();
    let mut tmp_b: Vec<u8> = Vec::new();
    let mut tmp_p: Vec<u8> = Vec::new();
    let mut scratch: Vec<u8> = Vec::new();
    let mut i: u64 = 0;
    while i < iters
        invariant
            i <= iters,
            digits_valid(start@),
            with_naive ==> naive@ == iterate(start@, i as nat),
            block@ == iterate(start@, i as nat),
            parallel@ == iterate(start@, i as nat),
        decreases iters - i,
    {
        proof {
            lemma_iterate_valid(start@, i as nat);
        }
        if with_naive {
            reverse_and_add_naive_into(naive.as_slice(), &mut tmp_n);
        }
        reverse_and_add_block_into(block.as_slice(), &mut tmp_b);
        reverse_and_add_parallel_into(parallel.as_slice(), &mut tmp_p, &mut scratch, threads);
        if (with_naive && !bytes_equal(tmp_n.as_slice(), tmp_b.as_slice())) || !bytes_equal(tmp_b.as_slice(), tmp_p.as_slice()) {
            return Err(SelfTestFailure { iteration: i + 1, naive: tmp_n, block: tmp_b, parallel: tmp_p });
        }
        if with_naive {
            std::mem::swap(&mut naive, &mut tmp_n);
        }
        std::mem::swap(&mut block, &mut tmp_b);
        std::mem::swap(&mut parallel, &mut tmp_p);
        i += 1;
    }
    Ok(block)
}

/// Steps a positive number with the block kernel until it has at least
/// `target` digits: the first number of its trajectory that long.
pub fn grow_to(base: Vec<u8>, target: usize) -> (r: Vec<u8>)
    requires
        digits_valid(base@),
        value(base@) > 0,
    ensures
        r@.len() >= target,
        exists|k: nat| {
            &&& r@ == iterate(base@, k)
            &&& forall|j: nat| j < k ==> (#[trigger] iterate(base@, j)).len() < target
        },
{
    let mut base = base;
    let ghost start = base@;
    let ghost mut k: nat = 0;
    let mut next: Vec<u8> = Vec::new();
    while base.len() < target
        invariant
            digits_valid(start),
            base@ == iterate(start, k),
            digits_valid(base@),
            value(base@) > 0,
            forall|j: nat| j < k ==> (#[trigger] iterate(start, j)).len() < target,
        decreases pow10(target as nat) - value(base@),
    {
        proof {
            lemma_reverse_add_grows(base@);
            lemma_reverse_add_value(base@);
            lemma_value_bound(base@);
            lemma_pow10_monotone((base@.len() + 1) as nat, target as nat);
        }
        reverse_and_add_block_into(base.as_slice(), &mut next);
        std::mem::swap(&mut base, &mut next);
        proof {
            assert forall|j: nat| j < k + 1 implies (#[trigger] iterate(start, j)).len() < target by {
                if j == k {
                    assert(iterate(start, j) == next@);
                }
            }
            k = k + 1;
        }
    }
    base
}

/// Sets a run up for its kernel: the parallel kernel gets a global thread
/// pool of `threads` threads.
pub fn prepare_kernel(kernel: Kernel, threads: usize) {
    if kernel == Kernel::Parallel {
        init_thread_pool(threads);
    }
}

/// The comparison phase of the self-test: with a thread pool of `threads`
/// threads, runs all three kernels side by side for `iters` steps from
/// `start`.
pub fn run_self_test_compare(start: &[u8], iters: u64, threads: usize) -> (r: Result<Vec<u8>, SelfTestFailure>)
    requires
        digits_valid(start@),
    ensures
        r matches Ok(v) && v@ == iterate(start@, iters as nat),
{
    init_thread_pool(threads);
    compare_kernels(start, iters, threads, true)
}

} // verus!
