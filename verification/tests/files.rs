use lychrel196::checkpoint::{
    check_number_text, make_progress, parse_progress_meta, render_progress_meta, resume_point,
};
use lychrel196::digits::{parse_digits, to_string};
use lychrel196::milestones::parse_verification_table;

#[test]
fn table_rows_comments_and_blank_lines() {
    let t = parse_verification_table(
        b"# digit_count,iteration,first_25_digits\n\n  1000000,2415836,1321620866345900792403087  \r\n10000000,24159531,1570638871513424055539043\nnot,a,row,at all\njust text\n",
    )
    .unwrap();
    assert_eq!(t.len(), 2);
    assert_eq!(t[0].digit_count, 1_000_000);
    assert_eq!(t[0].iteration, 2_415_836);
    assert_eq!(t[0].first_25, b"1321620866345900792403087".to_vec());
    assert_eq!(t[1].digit_count, 10_000_000);
    assert_eq!(t[1].iteration, 24_159_531);
    assert_eq!(t[1].first_25, b"1570638871513424055539043".to_vec());
}

#[test]
fn table_bad_number_is_refused() {
    assert!(parse_verification_table(b"12,x4,5\n").is_none());
    assert!(parse_verification_table(b"1,2,3\n-1,2,3\n").is_none());
    assert!(parse_verification_table(b"18446744073709551616,1,2\n").is_none());
}

#[test]
fn table_numbers_accept_plus_sign_and_unicode_space() {
    let t = parse_verification_table("\u{3000}+7,8,9\u{a0}\n".as_bytes()).unwrap();
    assert_eq!(t.len(), 1);
    assert_eq!(t[0].digit_count, 7);
    assert_eq!(t[0].iteration, 8);
    assert_eq!(t[0].first_25, b"9".to_vec());
}

#[test]
fn table_empty_text() {
    assert_eq!(parse_verification_table(b"").unwrap().len(), 0);
}

#[test]
fn progress_file_text() {
    let d = parse_digits("1675");
    let p = make_progress(&d, 2, b"196", 7, 0, false, None);
    let text = render_progress_meta(&p, b"1.500");
    assert_eq!(
        String::from_utf8(text).unwrap(),
        "start_number=196\niteration=2\ndigit_count=4\nelapsed_seconds=1.500\nmod9=1\nc0_mod9=7\nfull_save_iteration=0\nfirst20=1675\nlast20=1675\nfinished=false\n"
    );
    let done = make_progress(&d, 2, b"196", 7, 2, true, Some(b"PALINDROME after 2 iterations".to_vec()));
    let text = String::from_utf8(render_progress_meta(&done, b"0.000")).unwrap();
    assert!(text.ends_with("finished=true\nresult=PALINDROME after 2 iterations\n"));
}

#[test]
fn progress_snippets_are_the_ends_of_the_number() {
    let d = parse_digits("123456789012345678901234567890");
    let p = make_progress(&d, 9, b"196", 1, 3, false, None);
    assert_eq!(p.first20, b"12345678901234567890".to_vec());
    assert_eq!(p.last20, b"12345678901234567890".to_vec());
    assert_eq!(p.digit_count, 30);
}

#[test]
fn resume_reads_back_a_full_save() {
    let d = parse_digits("13783");
    let p = make_progress(&d, 4, b"196", 7, 4, false, None);
    let meta = render_progress_meta(&p, b"12.250");
    let number = to_string(&d);
    let m = parse_progress_meta(&meta);
    assert_eq!(m.full_save_iteration, Some(4));
    assert_eq!(m.c0_mod9, Some(7));
    assert!(!m.finished);
    assert!(check_number_text(&number));
    let r = resume_point(&m, b"196", &number).unwrap();
    assert_eq!(r.0, d);
    assert_eq!(r.1, 4);
    assert_eq!(r.2, b"12.250".to_vec());
    assert_eq!(r.3, 7);
}

#[test]
fn resume_refuses_other_start_or_finished_run() {
    let d = parse_digits("13783");
    let p = make_progress(&d, 4, b"196", 7, 4, false, None);
    let m = parse_progress_meta(&render_progress_meta(&p, b"1.0"));
    assert!(resume_point(&m, b"89", &to_string(&d)).is_none());
    let f = make_progress(&d, 4, b"196", 7, 4, true, None);
    let mf = parse_progress_meta(&render_progress_meta(&f, b"1.0"));
    assert!(mf.finished);
    assert!(resume_point(&mf, b"196", &to_string(&d)).is_none());
}

#[test]
fn resume_prefers_full_save_iteration_and_falls_back_to_iteration() {
    let m = parse_progress_meta(b"start_number=196\niteration=9\nelapsed_seconds=2.0\nc0_mod9=7\nfinished=false\n");
    assert_eq!(m.full_save_iteration, Some(9));
    assert!(m.from_iteration);
    assert!(m.complete);
    assert_eq!(resume_point(&m, b"196", b"887").unwrap().1, 9);
    let m = parse_progress_meta(b"full_save_iteration=5\niteration=9\nelapsed_seconds=2.0\nc0_mod9=7\nstart_number=196\n");
    assert_eq!(m.full_save_iteration, Some(5));
    assert!(!m.from_iteration);
    let r = resume_point(&m, b"196", b"  887\n").unwrap();
    assert_eq!(r.0, vec![7, 8, 8]);
    assert_eq!(r.1, 5);
    let m = parse_progress_meta(b"full_save_iteration=x\niteration=9\nelapsed_seconds=2.0\nc0_mod9=7\nstart_number=196\nfinished=false\n");
    assert_eq!(m.full_save_iteration, Some(9));
    assert_eq!(resume_point(&m, b"196", b"887").unwrap().1, 9);
}

#[test]
fn resume_ignores_iteration_of_a_cut_file() {
    // A timed checkpoint at step 5 after a full save at step 0, cut by a kill
    // after its c0_mod9 line.
    let d = parse_digits("52514");
    let p = make_progress(&d, 5, b"196", 7, 0, false, None);
    let full = render_progress_meta(&p, b"3.000");
    let text = String::from_utf8(full.clone()).unwrap();
    let cut_at = text.find("full_save_iteration").unwrap();
    let m = parse_progress_meta(&full[..cut_at]);
    assert_eq!(m.full_save_iteration, Some(5));
    assert!(m.from_iteration && !m.complete);
    assert!(resume_point(&m, b"196", b"196").is_none());
    // Every whole-line cut resumes at the full save or not at all.
    let mut end = 0;
    for line in text.split_inclusive('\n') {
        end += line.len();
        let m = parse_progress_meta(&full[..end]);
        if let Some(r) = resume_point(&m, b"196", b"196") {
            assert_eq!(r.1, 0);
        }
    }
    let m = parse_progress_meta(&full);
    assert_eq!(resume_point(&m, b"196", b"196").unwrap().1, 0);
}

#[test]
fn progress_records_the_current_mod9() {
    let d = parse_digits("13783");
    let p = make_progress(&d, 4, b"196", 7, 4, false, None);
    assert_eq!(p.mod9, 4);
    let text = String::from_utf8(render_progress_meta(&p, b"1.0")).unwrap();
    assert!(text.contains("\nmod9=4\nc0_mod9=7\n"));
}

#[test]
fn resume_needs_every_field() {
    let m = parse_progress_meta(b"start_number=196\nfull_save_iteration=5\nelapsed_seconds=2.0\n");
    assert!(resume_point(&m, b"196", b"887").is_none());
    let m = parse_progress_meta(b"start_number=196\r\nfull_save_iteration=5\r\nc0_mod9=7\r\nelapsed_seconds=2.0\r\nfinished=false\r\n");
    assert_eq!(m.start_number, Some(b"196".to_vec()));
    assert!(resume_point(&m, b"196", b"887").is_some());
}

#[test]
fn number_text_check() {
    assert!(check_number_text(b" 123\n"));
    assert!(!check_number_text(b"12 3"));
    assert!(check_number_text(b""));
}
