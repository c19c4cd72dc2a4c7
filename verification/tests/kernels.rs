use lychrel196::digits::{parse_digits, to_string};
use lychrel196::kernels::{
    parallel_chunk_count, reverse_and_add_block_into, reverse_and_add_block_range, reverse_and_add_into,
    reverse_and_add_naive_into, reverse_and_add_parallel_into, Kernel,
};

fn text(d: &[u8]) -> String {
    String::from_utf8(to_string(d)).unwrap()
}

fn step_naive(d: &[u8]) -> Vec<u8> {
    let mut out = Vec::new();
    reverse_and_add_naive_into(d, &mut out);
    out
}

/// A long number with a mix of digits, so carries appear everywhere.
fn long_number(len: usize, seed: u64) -> Vec<u8> {
    let mut x = seed;
    let mut v = Vec::with_capacity(len);
    for _ in 0..len {
        x = x.wrapping_mul(6364136223846793005).wrapping_add(1442695040888963407);
        v.push(((x >> 33) % 10) as u8);
    }
    if let Some(last) = v.last_mut() {
        if *last == 0 {
            *last = 7;
        }
    }
    v
}

#[test]
fn naive_first_steps_from_196() {
    let mut d = parse_digits("196");
    let expected = ["887", "1675", "7436", "13783", "52514"];
    for e in expected.iter() {
        d = step_naive(&d);
        assert_eq!(text(&d), *e);
    }
}

#[test]
fn naive_on_empty_number() {
    assert_eq!(step_naive(&[]), Vec::<u8>::new());
}

#[test]
fn naive_grows_by_one_digit_on_carry() {
    // 99 + 99 = 198
    assert_eq!(text(&step_naive(&parse_digits("99"))), "198");
    // 10 + 01 = 11
    assert_eq!(text(&step_naive(&parse_digits("10"))), "11");
}

#[test]
fn eighty_nine_becomes_a_palindrome_after_24_steps() {
    let mut d = parse_digits("89");
    for _ in 0..24 {
        d = step_naive(&d);
    }
    assert_eq!(text(&d), "8813200023188");
    assert!(lychrel196::digits::is_palindrome(&d));
}

#[test]
fn block_matches_naive_from_196() {
    let mut a = parse_digits("196");
    let mut b = a.clone();
    let mut tmp = Vec::new();
    for _ in 0..300 {
        a = step_naive(&a);
        reverse_and_add_block_into(&b, &mut tmp);
        std::mem::swap(&mut b, &mut tmp);
        assert_eq!(a, b);
    }
}

#[test]
fn block_after_100_steps_from_196() {
    let mut d = parse_digits("196");
    let mut tmp = Vec::new();
    for _ in 0..100 {
        reverse_and_add_block_into(&d, &mut tmp);
        std::mem::swap(&mut d, &mut tmp);
    }
    let t = text(&d);
    assert_eq!(t.len(), 47);
    assert!(t.starts_with("4475777153449051561729069"));
    assert!(t.ends_with("71561508443627774644"));
}

#[test]
fn block_range_reports_carry_and_digits() {
    // 99999999 99 (ten digits, all nines): every position sums to 18.
    let d = vec![9u8; 10];
    let mut out = vec![0u8; 10];
    let carry = reverse_and_add_block_range(&d, &mut out, 0, 0);
    assert_eq!(carry, 1);
    assert_eq!(out, vec![8, 9, 9, 9, 9, 9, 9, 9, 9, 9]);
    // A middle range with incoming carry 1.
    let mut mid = vec![0u8; 3];
    let carry = reverse_and_add_block_range(&d, &mut mid, 4, 1);
    assert_eq!(carry, 1);
    assert_eq!(mid, vec![9, 9, 9]);
}

#[test]
fn block_range_with_no_carries() {
    let d = parse_digits("1234567890123");
    let mut out = vec![0u8; 13];
    let carry = reverse_and_add_block_range(&d, &mut out, 0, 0);
    assert_eq!(carry, 0);
    let mut full = Vec::new();
    reverse_and_add_block_into(&d, &mut full);
    assert_eq!(out, full);
}

#[test]
fn parallel_small_number_uses_block_and_leaves_scratch() {
    let d = parse_digits("196");
    let mut next = Vec::new();
    let mut scratch = vec![5u8, 5];
    reverse_and_add_parallel_into(&d, &mut next, &mut scratch, 8);
    assert_eq!(text(&next), "887");
    assert_eq!(scratch, vec![5u8, 5]);
}

#[test]
fn parallel_matches_naive_on_two_chunks() {
    let d = long_number(250_000, 3);
    assert_eq!(parallel_chunk_count(d.len(), 4), 2);
    let mut next = Vec::new();
    let mut scratch = Vec::new();
    reverse_and_add_parallel_into(&d, &mut next, &mut scratch, 4);
    assert_eq!(next, step_naive(&d));
    assert_eq!(scratch.len(), d.len());
}

#[test]
fn parallel_matches_naive_on_uneven_chunks() {
    let d = long_number(350_001, 11);
    assert_eq!(parallel_chunk_count(d.len(), 3), 3);
    let mut next = Vec::new();
    let mut scratch = Vec::new();
    reverse_and_add_parallel_into(&d, &mut next, &mut scratch, 3);
    assert_eq!(next, step_naive(&d));
    let mut again = Vec::new();
    reverse_and_add_parallel_into(&next, &mut again, &mut scratch, 3);
    assert_eq!(again, step_naive(&next));
}

#[test]
fn parallel_carry_select_across_chunk_boundary() {
    // All nines: every chunk boundary receives a carry.
    let d = vec![9u8; 200_000];
    let mut next = Vec::new();
    let mut scratch = Vec::new();
    reverse_and_add_parallel_into(&d, &mut next, &mut scratch, 2);
    assert_eq!(next, step_naive(&d));
    assert_eq!(next.len(), 200_001);
    assert_eq!(next[200_000], 1);
}

#[test]
fn chunk_count_rule() {
    assert_eq!(parallel_chunk_count(0, 8), 1);
    assert_eq!(parallel_chunk_count(99_999, 8), 1);
    assert_eq!(parallel_chunk_count(250_000, 8), 2);
    assert_eq!(parallel_chunk_count(10_000_000, 28), 28);
    assert_eq!(parallel_chunk_count(10_000_000, 0), 1);
}

#[test]
fn dispatch_by_kernel() {
    let d = parse_digits("196");
    for k in [Kernel::Naive, Kernel::Block, Kernel::Parallel] {
        let mut next = Vec::new();
        let mut scratch = vec![1u8];
        reverse_and_add_into(k, 2, &d, &mut next, &mut scratch);
        assert_eq!(text(&next), "887");
    }
}

#[test]
fn kernel_names() {
    assert_eq!(Kernel::parse("naive"), Some(Kernel::Naive));
    assert_eq!(Kernel::parse("block"), Some(Kernel::Block));
    assert_eq!(Kernel::parse("parallel"), Some(Kernel::Parallel));
    assert_eq!(Kernel::parse("Parallel"), None);
    assert_eq!(Kernel::parse(""), None);
    assert_eq!(Kernel::Naive.name(), "naive");
    assert_eq!(Kernel::Block.name(), "block");
    assert_eq!(Kernel::Parallel.name(), "parallel");
}
