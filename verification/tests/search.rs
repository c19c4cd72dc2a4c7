use lychrel196::digits::{digit_sum_mod9, parse_digits, to_string};
use lychrel196::kernels::Kernel;
use lychrel196::milestones::{check_milestone, first_unchecked, parse_verification_table, Checkpoint};
use lychrel196::search::{compare_kernels, grow_to, integrity_check, run_self_test_compare, Search, StepOutcome, Stop};

fn table() -> Vec<Checkpoint> {
    parse_verification_table(b"# digits,iteration,first\n3,1,887\n4,2,1675\n5,4,13783\n").unwrap()
}

#[test]
fn stop_on_palindrome_only_after_a_step() {
    let s = Search::new(parse_digits("121"), 0, &[]);
    assert_eq!(s.stop_reason(None), None);
    let s = Search::new(parse_digits("121"), 3, &[]);
    assert_eq!(s.stop_reason(None), Some(Stop::Palindrome));
}

#[test]
fn stop_at_iteration_cap() {
    let s = Search::new(parse_digits("196"), 10, &[]);
    assert_eq!(s.stop_reason(Some(10)), Some(Stop::MaxIterations));
    assert_eq!(s.stop_reason(Some(11)), None);
    assert_eq!(s.stop_reason(None), None);
}

#[test]
fn advance_steps_and_counts() {
    let mut s = Search::new(parse_digits("196"), 0, &[]);
    let mut other = Vec::new();
    let mut scratch = Vec::new();
    s.advance(Kernel::Block, 1, &mut other, &mut scratch);
    assert_eq!(to_string(&s.digits), b"887".to_vec());
    assert_eq!(to_string(&other), b"196".to_vec());
    assert_eq!(s.iteration, 1);
    s.advance(Kernel::Naive, 1, &mut other, &mut scratch);
    assert_eq!(to_string(&s.digits), b"1675".to_vec());
    assert_eq!(s.iteration, 2);
}

#[test]
fn full_save_schedule() {
    let mut s = Search::new(parse_digits("196"), 5, &[]);
    let mut other = Vec::new();
    let mut scratch = Vec::new();
    assert!(!s.full_save_due(2));
    s.advance(Kernel::Block, 1, &mut other, &mut scratch);
    assert!(!s.full_save_due(2));
    s.advance(Kernel::Block, 1, &mut other, &mut scratch);
    assert!(s.full_save_due(2));
    s.mark_full_save();
    assert_eq!(s.full_save_iteration, 7);
    assert!(!s.full_save_due(2));
}

#[test]
fn milestones_are_checked_in_order() {
    let t = table();
    let mut s = Search::new(parse_digits("196"), 0, &t);
    assert_eq!(s.next_check_idx, 1);
    let mut other = Vec::new();
    let mut scratch = Vec::new();
    s.advance(Kernel::Block, 1, &mut other, &mut scratch);
    assert!(s.check_milestone(&t).is_none());
    s.advance(Kernel::Block, 1, &mut other, &mut scratch);
    let r = s.check_milestone(&t).unwrap();
    assert_eq!(r.index, 1);
    assert!(r.matched);
    assert_eq!(r.ours, b"1675".to_vec());
    s.advance(Kernel::Block, 1, &mut other, &mut scratch);
    assert!(s.check_milestone(&t).is_none());
    s.advance(Kernel::Block, 1, &mut other, &mut scratch);
    let r = s.check_milestone(&t).unwrap();
    assert_eq!(r.index, 2);
    assert!(r.matched);
    assert_eq!(s.next_check_idx, 3);
}

#[test]
fn milestone_mismatch_is_reported() {
    let t = parse_verification_table(b"4,3,7437\n").unwrap();
    let mut idx = 0usize;
    let r = check_milestone(&t, &mut idx, &parse_digits("7436"), 3).unwrap();
    assert!(!r.matched);
    assert_eq!(r.ours, b"7436".to_vec());
    assert_eq!(idx, 1);
    let mut idx = 0usize;
    let r = check_milestone(&t, &mut idx, &parse_digits("7436"), 4).unwrap();
    assert!(!r.matched);
}

#[test]
fn first_unchecked_skips_reached_milestones() {
    let t = table();
    assert_eq!(first_unchecked(&t, 1), 0);
    assert_eq!(first_unchecked(&t, 3), 1);
    assert_eq!(first_unchecked(&t, 4), 2);
    assert_eq!(first_unchecked(&t, 9), 3);
}

#[test]
fn integrity_check_passes_along_a_run() {
    let start = parse_digits("196");
    let c0 = digit_sum_mod9(&start);
    let mut s = Search::new(start, 0, &[]);
    let mut other = Vec::new();
    let mut scratch = Vec::new();
    for _ in 0..200 {
        s.advance(Kernel::Block, 1, &mut other, &mut scratch);
        let r = integrity_check(&s.digits, c0, s.iteration);
        assert!(r.ok);
        assert_eq!(r.actual, r.predicted);
    }
    let r = integrity_check(&s.digits, c0, s.iteration);
    assert_eq!(r.actual, digit_sum_mod9(&s.digits));
}

#[test]
fn integrity_check_catches_a_wrong_number() {
    let r = integrity_check(&parse_digits("888"), 7, 1);
    assert_eq!(r.predicted, 5);
    assert_eq!(r.actual, 6);
    assert!(!r.ok);
}

#[test]
fn self_test_kernels_agree() {
    let start = parse_digits("196");
    let r = compare_kernels(&start, 100, 2, true);
    let v = match r {
        Ok(v) => v,
        Err(_) => panic!("kernels disagree"),
    };
    assert_eq!(v.len(), 47);
    let r2 = run_self_test_compare(&start, 100, 2);
    assert!(matches!(r2, Ok(ref w) if *w == v));
    let r3 = compare_kernels(&start, 100, 2, false);
    assert!(matches!(r3, Ok(ref w) if *w == v));
}

#[test]
fn grow_until_long_enough() {
    let v = grow_to(parse_digits("196"), 30);
    assert_eq!(to_string(&v), b"182280281681549295517528109327".to_vec());
    let same = grow_to(parse_digits("12345"), 3);
    assert_eq!(to_string(&same), b"12345".to_vec());
}

#[test]
fn step_runs_one_turn_in_order() {
    let t = table();
    let mut s = Search::new(parse_digits("196"), 0, &t);
    let mut other = Vec::new();
    let mut scratch = Vec::new();
    match s.step(Kernel::Block, 1, Some(4), 2, &t, &mut other, &mut scratch) {
        StepOutcome::Advanced { milestone, full_save_due } => {
            assert!(milestone.is_none());
            assert!(!full_save_due);
        }
        StepOutcome::Stopped(_) => panic!("stopped too early"),
    }
    match s.step(Kernel::Block, 1, Some(4), 2, &t, &mut other, &mut scratch) {
        StepOutcome::Advanced { milestone, full_save_due } => {
            let r = milestone.unwrap();
            assert_eq!(r.index, 1);
            assert!(r.matched);
            assert!(full_save_due);
        }
        StepOutcome::Stopped(_) => panic!("stopped too early"),
    }
    s.mark_full_save();
    s.step(Kernel::Block, 1, Some(4), 2, &t, &mut other, &mut scratch);
    s.step(Kernel::Block, 1, Some(4), 2, &t, &mut other, &mut scratch);
    assert_eq!(s.iteration, 4);
    assert!(matches!(
        s.step(Kernel::Block, 1, Some(4), 2, &t, &mut other, &mut scratch),
        StepOutcome::Stopped(Stop::MaxIterations)
    ));
    assert_eq!(s.iteration, 4);
    assert_eq!(to_string(&s.digits), b"13783".to_vec());
}

#[test]
fn step_stops_on_a_palindrome() {
    let mut s = Search::new(parse_digits("8813200023188"), 24, &[]);
    let mut other = Vec::new();
    let mut scratch = Vec::new();
    assert!(matches!(
        s.step(Kernel::Naive, 1, None, 1000, &[], &mut other, &mut scratch),
        StepOutcome::Stopped(Stop::Palindrome)
    ));
    assert_eq!(s.iteration, 24);
}
