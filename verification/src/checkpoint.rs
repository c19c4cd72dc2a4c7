//! The progress file of a run (`key=value` lines) and resuming from a saved
//! run.

use vstd::prelude::*;
use vstd::string::StrSliceExecFns;
use crate::digits::{
    digit_sum_mod9, digits_of_range, digits_of_text, first_n, is_decimal_text, last_n, lemma_digits_roundtrip,
    text_of_digits,
};
use crate::number::{digit_sum, digits_valid};
use crate::text::{bytes_equal, lemma_lines_cons, strip_cr, leading_space_len, trailing_space_len, trim_start, decimal_value, find_byte, find_byte_in, lemma_find_byte, lines, lines_from, next_line,
    parse_u64, parse_u64_in, spells, spells_in, trim, trim_range, all_decimal, copy_range};

verus! {

/// The bytes of an ASCII string.
pub open spec fn ascii_bytes(s: Seq<char>) -> Seq<u8> {
    s.map_values(|c: char| c as u8)
}

/// Appends the bytes of an ASCII string.
pub fn push_str(out: &mut Vec<u8>, s: &str)
    ensures
        final(out)@ == old(out)@ + ascii_bytes(s@),
{
    let ghost start = out@;
    let n = s.unicode_len();
    let mut i: usize = 0;
    while i < n
        invariant
            n == s@.len(),
            i <= n,
            out@ == start + ascii_bytes(s@).take(i as int),
        decreases n - i,
    {
        let c = s.get_char(i);
        out.push(c as u8);
        i += 1;
        assert(out@ =~= start + ascii_bytes(s@).take(i as int));
    }
    assert(ascii_bytes(s@).take(n as int) =~= ascii_bytes(s@));
}

/// Appends a byte string.
pub fn push_bytes(out: &mut Vec<u8>, b: &[u8])
    ensures
        final(out)@ == old(out)@ + b@,
{
    let ghost start = out@;
    let mut i: usize = 0;
    while i < b.len()
        invariant
            i <= b@.len(),
            out@ == start + b@.take(i as int),
        decreases b@.len() - i,
    {
        out.push(b[i]);
        i += 1;
        assert(out@ =~= start + b@.take(i as int));
    }
    assert(b@.take(b@.len() as int) =~= b@);
}

/// The decimal text of an unsigned number, as `u64`'s `Display` writes it.
pub open spec fn decimal_text(x: u64) -> Seq<u8>
    decreases x,
{
    if x < 10 {
        seq![(48 + x) as u8]
    } else {
        decimal_text(x / 10) + seq![(48 + x % 10) as u8]
    }
}

/// Appends the decimal text of `x`.
pub fn push_decimal(out: &mut Vec<u8>, x: u64)
    ensures
        final(out)@ == old(out)@ + decimal_text(x),
    decreases x,
{
    if x >= 10 {
        push_decimal(out, x / 10);
    }
    let ghost mid = out@;
    out.push((48 + x % 10) as u8);
    assert(out@ =~= old(out)@ + decimal_text(x));
}

/// Reading back the decimal text of a number gives the number.
pub proof fn lemma_decimal_roundtrip(x: u64)
    ensures
        all_decimal(decimal_text(x)),
        decimal_text(x).len() > 0,
        decimal_text(x)[0] != 43,
        decimal_value(decimal_text(x)) == x,
        parse_u64(decimal_text(x)) == Some(x),
    decreases x,
{
    let t = decimal_text(x);
    if x >= 10 {
        lemma_decimal_roundtrip(x / 10);
        assert(t.drop_last() =~= decimal_text(x / 10));
        assert(t[0] == decimal_text(x / 10)[0]);
    } else {
        assert(t.drop_last() =~= Seq::<u8>::empty());
    }
    assert(decimal_value(Seq::<u8>::empty()) == 0);
}

/// The state of a run as written to its progress file (the elapsed time is
/// kept beside it by the caller).
pub struct Progress {
    pub iteration: u64,
    pub digit_count: u64,
    pub start_number: Vec<u8>,
    /// Digit sum of the current number, modulo 9.
    pub mod9: u64,
    /// Digit sum of the start number, modulo 9.
    pub c0_mod9: u64,
    /// The step at which the whole number was last written; a resumed run
    /// starts from it.
    pub full_save_iteration: u64,
    pub first20: Vec<u8>,
    pub last20: Vec<u8>,
    pub finished: bool,
    pub result: Option<Vec<u8>>,
}

/// The progress record of a run holding `digits` at step `iteration`.
pub fn make_progress(
    digits: &[u8],
    iteration: u64,
    start_number: &[u8],
    c0_mod9: u64,
    full_save_iteration: u64,
    finished: bool,
    result: Option<Vec<u8>>,
) -> (p: Progress)
    requires
        digits_valid(digits@),
    ensures
        p.iteration == iteration,
        p.digit_count == digits@.len(),
        p.start_number@ == start_number@,
        p.mod9 == digit_sum(digits@) % 9,
        p.c0_mod9 == c0_mod9,
        p.full_save_iteration == full_save_iteration,
        p.first20@ == text_of_digits(digits@).take(if 20 <= digits@.len() { 20 } else { digits@.len() as int }),
        p.last20@ == text_of_digits(digits@).skip(digits@.len() - if 20 <= digits@.len() { 20 } else { digits@.len() as int }),
        p.finished == finished,
        p.result == result,
{
    let mut start: Vec<u8> = Vec::new();
    push_bytes(&mut start, start_number);
    assert(start@ =~= start_number@);
    Progress {
        iteration,
        digit_count: digits.len() as u64,
        start_number: start,
        mod9: digit_sum_mod9(digits),
        c0_mod9,
        full_save_iteration,
        first20: first_n(digits, 20),
        last20: last_n(digits, 20),
        finished,
        result,
    }
}

/// One `key=value` line of the progress file.
pub open spec fn meta_line(key: Seq<char>, value: Seq<u8>) -> Seq<u8> {
    ascii_bytes(key) + seq![61u8] + value + seq![10u8]
}

/// The text of a sequence of `key=value` lines.
pub open spec fn render_fields(fs: Seq<(Seq<char>, Seq<u8>)>) -> Seq<u8>
    decreases fs.len(),
{
    if fs.len() == 0 {
        Seq::empty()
    } else {
        meta_line(fs[0].0, fs[0].1) + render_fields(fs.drop_first())
    }
}

/// The lines of the progress file of a run, in order, given the text of its
/// elapsed seconds.
pub open spec fn progress_fields(p: Progress, elapsed: Seq<u8>) -> Seq<(Seq<char>, Seq<u8>)> {
    seq![
        ("start_number"@, p.start_number@),
        ("iteration"@, decimal_text(p.iteration)),
        ("digit_count"@, decimal_text(p.digit_count)),
        ("elapsed_seconds"@, elapsed),
        ("mod9"@, decimal_text(p.mod9)),
        ("c0_mod9"@, decimal_text(p.c0_mod9)),
        ("full_save_iteration"@, decimal_text(p.full_save_iteration)),
        ("first20"@, p.first20@),
        ("last20"@, p.last20@),
        ("finished"@, ascii_bytes(if p.finished { "true"@ } else { "false"@ })),
    ] + match p.result {
        Some(r) => seq![("result"@, r@)],
        None => Seq::empty(),
    }
}

/// The progress file of a run.
pub open spec fn progress_text(p: Progress, elapsed: Seq<u8>) -> Seq<u8> {
    render_fields(progress_fields(p, elapsed))
}

/// Appending a line to a sequence of lines appends its text.
pub proof fn lemma_render_push(fs: Seq<(Seq<char>, Seq<u8>)>, x: (Seq<char>, Seq<u8>))
    ensures
        render_fields(fs.push(x)) == render_fields(fs) + meta_line(x.0, x.1),
    decreases fs.len(),
{
    if fs.len() == 0 {
        let e = Seq::<(Seq<char>, Seq<u8>)>::empty();
        assert(fs.push(x).drop_first() =~= e);
        assert(fs.push(x)[0] == x);
        assert(render_fields(e) == Seq::<u8>::empty());
        assert(render_fields(fs.push(x)) =~= render_fields(fs) + meta_line(x.0, x.1));
    } else {
        lemma_render_push(fs.drop_first(), x);
        assert(fs.push(x).drop_first() =~= fs.drop_first().push(x));
        assert(render_fields(fs.push(x)) =~= render_fields(fs) + meta_line(x.0, x.1));
    }
}

/// The text of a sequence of lines is the text of its first lines followed by
/// the text of the rest.
pub proof fn lemma_render_split(fs: Seq<(Seq<char>, Seq<u8>)>, j: int)
    requires
        0 <= j <= fs.len(),
    ensures
        render_fields(fs.take(j)) + render_fields(fs.skip(j)) == render_fields(fs),
    decreases j,
{
    if j == 0 {
        assert(fs.take(0) =~= Seq::<(Seq<char>, Seq<u8>)>::empty());
        assert(fs.skip(0) =~= fs);
        assert(render_fields(fs.take(0)) + render_fields(fs.skip(0)) =~= render_fields(fs));
    } else {
        lemma_render_split(fs.drop_first(), j - 1);
        assert(fs.take(j).drop_first() =~= fs.drop_first().take(j - 1));
        assert(fs.skip(j) =~= fs.drop_first().skip(j - 1));
        assert(render_fields(fs.take(j)) + render_fields(fs.skip(j)) =~= render_fields(fs));
    }
}

proof fn lemma_render_take(fs: Seq<(Seq<char>, Seq<u8>)>, i: int)
    requires
        0 <= i < fs.len(),
    ensures
        render_fields(fs.take(i + 1)) == render_fields(fs.take(i)) + meta_line(fs[i].0, fs[i].1),
{
    assert(fs.take(i + 1) =~= fs.take(i).push(fs[i]));
    lemma_render_push(fs.take(i), fs[i]);
}

fn push_line_bytes(out: &mut Vec<u8>, key: &str, value: &[u8])
    ensures
        final(out)@ == old(out)@ + meta_line(key@, value@),
{
    push_str(out, key);
    out.push(61u8);
    push_bytes(out, value);
    out.push(10u8);
    assert(out@ =~= old(out)@ + meta_line(key@, value@));
}

fn push_line_decimal(out: &mut Vec<u8>, key: &str, value: u64)
    ensures
        final(out)@ == old(out)@ + meta_line(key@, decimal_text(value)),
{
    push_str(out, key);
    out.push(61u8);
    push_decimal(out, value);
    out.push(10u8);
    assert(out@ =~= old(out)@ + meta_line(key@, decimal_text(value)));
}

/// Renders the progress file; `elapsed` is the text of the elapsed seconds.
pub fn render_progress_meta(p: &Progress, elapsed: &[u8]) -> (text: Vec<u8>)
    ensures
        text@ == progress_text(*p, elapsed@),
{
    let ghost fs = progress_fields(*p, elapsed@);
    let mut out: Vec<u8> = Vec::new();
    assert(out@ =~= render_fields(fs.take(0)));
    push_line_bytes(&mut out, "start_number", p.start_number.as_slice());
    proof { lemma_render_take(fs, 0); }
    push_line_decimal(&mut out, "iteration", p.iteration);
    proof { lemma_render_take(fs, 1); }
    push_line_decimal(&mut out, "digit_count", p.digit_count);
    proof { lemma_render_take(fs, 2); }
    push_line_bytes(&mut out, "elapsed_seconds", elapsed);
    proof { lemma_render_take(fs, 3); }
    push_line_decimal(&mut out, "mod9", p.mod9);
    proof { lemma_render_take(fs, 4); }
    push_line_decimal(&mut out, "c0_mod9", p.c0_mod9);
    proof { lemma_render_take(fs, 5); }
    push_line_decimal(&mut out, "full_save_iteration", p.full_save_iteration);
    proof { lemma_render_take(fs, 6); }
    push_line_bytes(&mut out, "first20", p.first20.as_slice());
    proof { lemma_render_take(fs, 7); }
    push_line_bytes(&mut out, "last20", p.last20.as_slice());
    proof { lemma_render_take(fs, 8); }
    let ghost before_finished = out@;
    push_str(&mut out, "finished");
    out.push(61u8);
    if p.finished {
        push_str(&mut out, "true");
    } else {
        push_str(&mut out, "false");
    }
    out.push(10u8);
    assert(out@ =~= before_finished + meta_line("finished"@, ascii_bytes(if p.finished { "true"@ } else { "false"@ })));
    proof { lemma_render_take(fs, 9); }
    match &p.result {
        Some(r) => {
            push_line_bytes(&mut out, "result", r.as_slice());
            proof { lemma_render_take(fs, 10); }
            assert(fs.take(11) =~= fs);
        },
        None => {
            assert(fs.take(10) =~= fs);
        },
    }
    out
}

/// What resuming needs from a progress file. The elapsed seconds are kept as
/// text; their value is read by the caller.
pub struct MetaFields {
    pub full_save_iteration: Option<u64>,
    /// Whether `full_save_iteration` was taken from an `iteration` line.
    pub from_iteration: bool,
    pub elapsed: Option<Seq<u8>>,
    pub c0_mod9: Option<u64>,
    pub start_number: Option<Seq<u8>>,
    pub finished: bool,
    /// Whether the closing `finished` line was read.
    pub complete: bool,
}

/// Nothing read yet.
pub open spec fn meta_empty() -> MetaFields {
    MetaFields {
        full_save_iteration: None,
        from_iteration: false,
        elapsed: None,
        c0_mod9: None,
        start_number: None,
        finished: false,
        complete: false,
    }
}

/// Reading one `key=value` pair: a later line overrides an earlier one with
/// the same key, and `iteration` stands in for a missing `full_save_iteration`.
pub open spec fn meta_update_kv(m: MetaFields, k: Seq<u8>, v: Seq<u8>) -> MetaFields {
    if spells(k, "full_save_iteration"@) {
        MetaFields { full_save_iteration: parse_u64(v), from_iteration: false, ..m }
    } else if spells(k, "iteration"@) {
        if m.full_save_iteration is None {
            MetaFields { full_save_iteration: parse_u64(v), from_iteration: true, ..m }
        } else {
            m
        }
    } else if spells(k, "elapsed_seconds"@) {
        MetaFields { elapsed: Some(v), ..m }
    } else if spells(k, "c0_mod9"@) {
        MetaFields { c0_mod9: parse_u64(v), ..m }
    } else if spells(k, "start_number"@) {
        MetaFields { start_number: Some(v), ..m }
    } else if spells(k, "finished"@) {
        MetaFields { finished: spells(v, "true"@), complete: true, ..m }
    } else {
        m
    }
}

/// Reading one line of a progress file: split at the first `=`; a line
/// without `=` is ignored.
pub open spec fn meta_update(m: MetaFields, line: Seq<u8>) -> MetaFields {
    let e = find_byte(line, 61, 0);
    if e >= line.len() {
        m
    } else {
        meta_update_kv(m, line.subrange(0, e), line.subrange(e + 1, line.len() as int))
    }
}

/// Reading the lines in order.
pub open spec fn meta_fold(m: MetaFields, ls: Seq<Seq<u8>>) -> MetaFields
    decreases ls.len(),
{
    if ls.len() == 0 {
        m
    } else {
        meta_fold(meta_update(m, ls[0]), ls.drop_first())
    }
}

/// What a progress file gives for resuming.
pub open spec fn read_meta(t: Seq<u8>) -> MetaFields {
    meta_fold(meta_empty(), lines(t))
}

/// The step of the last full save that a progress file records: its
/// `full_save_iteration`, or its `iteration` when it has no
/// `full_save_iteration` line, but then only from a complete file (a file cut
/// short may hold the `iteration` of a later timed checkpoint).
pub open spec fn saved_step(m: MetaFields) -> Option<u64> {
    if m.from_iteration && !m.complete {
        None
    } else {
        m.full_save_iteration
    }
}

/// The fields read from a progress file.
pub struct ProgressMeta {
    pub full_save_iteration: Option<u64>,
    pub from_iteration: bool,
    pub elapsed: Option<Vec<u8>>,
    pub c0_mod9: Option<u64>,
    pub start_number: Option<Vec<u8>>,
    pub finished: bool,
    pub complete: bool,
}

impl ProgressMeta {
    pub open spec fn fields(&self) -> MetaFields {
        MetaFields {
            full_save_iteration: self.full_save_iteration,
            from_iteration: self.from_iteration,
            elapsed: match self.elapsed {
                Some(v) => Some(v@),
                None => None,
            },
            c0_mod9: self.c0_mod9,
            start_number: match self.start_number {
                Some(v) => Some(v@),
                None => None,
            },
            finished: self.finished,
            complete: self.complete,
        }
    }
}

/// Applies the line `t[lo .. hi]`.
fn apply_meta_line(m: &mut ProgressMeta, t: &[u8], lo: usize, hi: usize)
    requires
        lo <= hi <= t@.len(),
    ensures
        final(m).fields() == meta_update(old(m).fields(), t@.subrange(lo as int, hi as int)),
{
    let ghost line = t@.subrange(lo as int, hi as int);
    let e = find_byte_in(t, 61, lo, hi);
    proof {
        lemma_find_byte(line, 61, 0);
    }
    if e >= hi {
        return;
    }
    proof {
        assert(line.subrange(0, e - lo) =~= t@.subrange(lo as int, e as int));
        assert(line.subrange(e - lo + 1, line.len() as int) =~= t@.subrange(e + 1, hi as int));
    }
    if spells_in(t, lo, e, "full_save_iteration") {
        m.full_save_iteration = parse_u64_in(t, e + 1, hi);
        m.from_iteration = false;
    } else if spells_in(t, lo, e, "iteration") {
        if m.full_save_iteration.is_none() {
            m.full_save_iteration = parse_u64_in(t, e + 1, hi);
            m.from_iteration = true;
        }
    } else if spells_in(t, lo, e, "elapsed_seconds") {
        m.elapsed = Some(copy_range(t, e + 1, hi));
    } else if spells_in(t, lo, e, "c0_mod9") {
        m.c0_mod9 = parse_u64_in(t, e + 1, hi);
    } else if spells_in(t, lo, e, "start_number") {
        m.start_number = Some(copy_range(t, e + 1, hi));
    } else if spells_in(t, lo, e, "finished") {
        m.finished = spells_in(t, e + 1, hi, "true");
        m.complete = true;
    }
}

/// Reads a progress file.
pub fn parse_progress_meta(text: &[u8]) -> (m: ProgressMeta)
    ensures
        m.fields() == read_meta(text@),
{
    let mut m = ProgressMeta {
        full_save_iteration: None,
        from_iteration: false,
        elapsed: None,
        c0_mod9: None,
        start_number: None,
        finished: false,
        complete: false,
    };
    let n = text.len();
    let mut p: usize = 0;
    while p < n
        invariant
            n == text@.len(),
            p <= n,
            meta_fold(m.fields(), lines_from(text@, p as int)) == read_meta(text@),
        decreases n - p,
    {
        let (lo, hi, next) = next_line(text, p);
        let ghost ls = lines_from(text@, p as int);
        assert(ls[0] == text@.subrange(lo as int, hi as int));
        assert(ls.drop_first() =~= lines_from(text@, next as int));
        apply_meta_line(&mut m, text, lo, hi);
        p = next;
    }
    assert(lines_from(text@, p as int) =~= Seq::<Seq<u8>>::empty());
    m
}

/// The saved number can be read as digits: after trimming, no byte lies
/// below `'0'`.
pub open spec fn number_text_readable(t: Seq<u8>) -> bool {
    forall|i: int| 0 <= i < trim(t).len() ==> #[trigger] trim(t)[i] >= 48
}

/// Whether the saved number can be read as digits.
pub fn check_number_text(t: &[u8]) -> (ok: bool)
    ensures
        ok == number_text_readable(t@),
{
    let (a, b) = trim_range(t, 0, t.len());
    assert(t@.subrange(0, t@.len() as int) =~= t@);
    let mut i = a;
    while i < b
        invariant
            a <= i <= b <= t@.len(),
            t@.subrange(a as int, b as int) == trim(t@),
            forall|j: int| a <= j < i ==> #[trigger] t@[j] >= 48,
        decreases b - i,
    {
        if t[i] < 48 {
            assert(trim(t@)[i - a] == t@[i as int]);
            return false;
        }
        i += 1;
    }
    assert forall|j: int| 0 <= j < trim(t@).len() implies #[trigger] trim(t@)[j] >= 48 by {
        assert(trim(t@)[j] == t@[a + j]);
    }
    true
}

/// Whether a progress file lets this run resume at all: it is not finished
/// and was written for the same start number.
pub open spec fn resumable(m: MetaFields, start_number: Seq<u8>) -> bool {
    !m.finished && m.start_number == Some(start_number)
}

/// Whether a progress file lets this run resume.
pub fn is_resumable(meta: &ProgressMeta, start_number: &[u8]) -> (r: bool)
    ensures
        r == resumable(meta.fields(), start_number@),
        r ==> !meta.finished,
        r ==> (meta.start_number matches Some(s) && s@ == start_number@),
        !meta.finished && (meta.start_number matches Some(s) && s@ == start_number@) ==> r,
{
    if meta.finished {
        return false;
    }
    match &meta.start_number {
        Some(saved) => bytes_equal(saved.as_slice(), start_number),
        None => false,
    }
}

/// A progress file resumes only the run of its own start number, and only
/// while that run is unfinished; one that is unfinished and holds that start
/// number does let it resume.
pub proof fn lemma_resume_needs_same_start(m: MetaFields, start_number: Seq<u8>, number: Seq<u8>)
    ensures
        resumable(m, start_number) <==> (!m.finished && m.start_number == Some(start_number)),
        m.start_number != Some(start_number) ==> resume_fields(m, start_number, number) is None,
        m.finished ==> resume_fields(m, start_number, number) is None,
        resume_fields(m, start_number, number) is Some ==> m.start_number == Some(start_number),
{
}

/// Where a run resumes: the saved number, the step of the full save, the
/// elapsed-seconds text and the start's digit sum modulo 9.
pub open spec fn resume_fields(m: MetaFields, start_number: Seq<u8>, number: Seq<u8>) -> Option<(Seq<u8>, u64, Seq<u8>, u64)> {
    if !resumable(m, start_number) {
        None
    } else {
        match (saved_step(m), m.elapsed, m.c0_mod9) {
            (Some(i), Some(e), Some(c)) => Some((digits_of_text(trim(number)), i, e, c)),
            _ => None,
        }
    }
}

/// The resume point of a run from its progress file fields and the text of
/// its last full save; `None` when it cannot resume.
pub fn resume_point(meta: &ProgressMeta, start_number: &[u8], number_text: &[u8]) -> (r: Option<(Vec<u8>, u64, Vec<u8>, u64)>)
    requires
        resumable(meta.fields(), start_number@) ==> number_text_readable(number_text@),
    ensures
        match r {
            Some((d, i, e, c)) => resume_fields(meta.fields(), start_number@, number_text@) == Some((d@, i, e@, c)),
            None => resume_fields(meta.fields(), start_number@, number_text@) is None,
        },
        r is Some ==> !meta.finished && (meta.start_number matches Some(s) && s@ == start_number@),
{
    if !is_resumable(meta, start_number) {
        return None;
    }
    let step = if meta.from_iteration && !meta.complete { None } else { meta.full_save_iteration };
    let (a, b) = trim_range(number_text, 0, number_text.len());
    proof {
        assert(number_text@.subrange(0, number_text@.len() as int) =~= number_text@);
        assert forall|i: int| a <= i < b implies #[trigger] number_text@[i] >= 48 by {
            assert(trim(number_text@)[i - a] == number_text@[i]);
        }
    }
    let digits = digits_of_range(number_text, a, b);
    match (step, &meta.elapsed, meta.c0_mod9) {
        (Some(i), Some(e), Some(c)) => Some((digits, i, copy_range(e.as_slice(), 0, e.len()), c)),
        _ => None,
    }
}

/// A value that a progress-file line carries unchanged: no line feed, and
/// no carriage return at its end.
pub open spec fn line_safe(v: Seq<u8>) -> bool {
    &&& forall|i: int| 0 <= i < v.len() ==> #[trigger] v[i] != 10
    &&& !(v.len() > 0 && v.last() == 13)
}

/// An ASCII key without `=` or line breaks.
spec fn plain_key(k: Seq<char>) -> bool {
    forall|i: int| 0 <= i < k.len() ==> 32 <= #[trigger] (k[i] as int) < 127 && k[i] != '='
}

proof fn lemma_key_bytes(k: Seq<char>)
    requires
        plain_key(k),
    ensures
        spells(ascii_bytes(k), k),
        forall|i: int| 0 <= i < ascii_bytes(k).len() ==> #[trigger] ascii_bytes(k)[i] != 61 && ascii_bytes(k)[i] != 10,
        find_byte(ascii_bytes(k) + seq![61u8], 61, 0) == k.len(),
{
    let b = ascii_bytes(k);
    assert forall|i: int| 0 <= i < b.len() implies #[trigger] b[i] != 61 && b[i] != 10 by {
        assert(b[i] == k[i] as u8);
    }
    lemma_find_eq(b + seq![61u8], k.len() as int, 0);
}

proof fn lemma_find_eq(t: Seq<u8>, k: int, j: int)
    requires
        0 <= j <= k < t.len(),
        t[k] == 61,
        forall|i: int| j <= i < k ==> #[trigger] t[i] != 61,
    ensures
        find_byte(t, 61, j) == k,
    decreases k - j,
{
    if j < k {
        lemma_find_eq(t, k, j + 1);
    }
}

/// Reading the line written for `key` and `value`.
proof fn lemma_read_meta_line(m: MetaFields, key: Seq<char>, value: Seq<u8>)
    requires
        plain_key(key),
    ensures
        meta_update(m, ascii_bytes(key) + seq![61u8] + value) == meta_update_kv(m, ascii_bytes(key), value),
{
    let kb = ascii_bytes(key);
    let line = kb + seq![61u8] + value;
    lemma_key_bytes(key);
    lemma_find_append_first(kb + seq![61u8], value);
    assert(line.subrange(0, kb.len() as int) =~= kb);
    assert(line.subrange(kb.len() as int + 1, line.len() as int) =~= value);
}

proof fn lemma_find_append_first(a: Seq<u8>, b: Seq<u8>)
    requires
        find_byte(a, 61, 0) < a.len(),
    ensures
        find_byte(a + b, 61, 0) == find_byte(a, 61, 0),
{
    lemma_find_byte(a, 61, 0);
    let k = find_byte(a, 61, 0);
    lemma_find_eq(a + b, k, 0);
}

/// Reading a file that starts with the line written for `key` and `value`.
proof fn lemma_fold_line(m: MetaFields, key: Seq<char>, value: Seq<u8>, rest: Seq<u8>)
    requires
        plain_key(key),
        line_safe(value),
    ensures
        meta_fold(m, lines(meta_line(key, value) + rest)) == meta_fold(
            meta_update(m, ascii_bytes(key) + seq![61u8] + value),
            lines(rest),
        ),
{
    let kb = ascii_bytes(key);
    let l = kb + seq![61u8] + value;
    lemma_key_bytes(key);
    assert forall|i: int| 0 <= i < l.len() implies #[trigger] l[i] != 10 by {
        if i < kb.len() {
            assert(l[i] == kb[i]);
        } else if i > kb.len() {
            assert(l[i] == value[i - kb.len() - 1]);
        }
    }
    assert(strip_cr(l) == l) by {
        if value.len() > 0 {
            assert(l.last() == value.last());
        }
    }
    assert(meta_line(key, value) + rest =~= l + seq![10u8] + rest);
    lemma_lines_cons(l, rest);
    let ls = seq![l] + lines(rest);
    assert(ls[0] == l);
    assert(ls.drop_first() =~= lines(rest));
}

proof fn lemma_decimal_line_safe(x: u64)
    ensures
        line_safe(decimal_text(x)),
{
    lemma_decimal_roundtrip(x);
    let t = decimal_text(x);
    assert(48 <= t.last() <= 57);
}

/// Reading the line of `key` by the key itself.
pub open spec fn meta_update_key(m: MetaFields, key: Seq<char>, value: Seq<u8>) -> MetaFields {
    if key == "full_save_iteration"@ {
        MetaFields { full_save_iteration: parse_u64(value), from_iteration: false, ..m }
    } else if key == "iteration"@ {
        if m.full_save_iteration is None {
            MetaFields { full_save_iteration: parse_u64(value), from_iteration: true, ..m }
        } else {
            m
        }
    } else if key == "elapsed_seconds"@ {
        MetaFields { elapsed: Some(value), ..m }
    } else if key == "c0_mod9"@ {
        MetaFields { c0_mod9: parse_u64(value), ..m }
    } else if key == "start_number"@ {
        MetaFields { start_number: Some(value), ..m }
    } else if key == "finished"@ {
        MetaFields { finished: spells(value, "true"@), complete: true, ..m }
    } else {
        m
    }
}

proof fn lemma_spells_key(k: Seq<char>, s: Seq<char>)
    requires
        plain_key(k),
        plain_key(s),
    ensures
        spells(ascii_bytes(k), s) == (k == s),
{
    lemma_key_bytes(k);
    if spells(ascii_bytes(k), s) {
        assert forall|i: int| 0 <= i < k.len() implies k[i] == s[i] by {
            assert(ascii_bytes(k)[i] == k[i] as u8);
        }
        assert(k =~= s);
    }
}

proof fn lemma_step(m: MetaFields, key: Seq<char>, value: Seq<u8>, rest: Seq<u8>)
    requires
        plain_key(key),
        line_safe(value),
    ensures
        meta_fold(m, lines(meta_line(key, value) + rest)) == meta_fold(meta_update_key(m, key, value), lines(rest)),
{
    reveal_strlit("full_save_iteration");
    reveal_strlit("iteration");
    reveal_strlit("elapsed_seconds");
    reveal_strlit("c0_mod9");
    reveal_strlit("start_number");
    reveal_strlit("finished");
    lemma_fold_line(m, key, value, rest);
    lemma_read_meta_line(m, key, value);
    lemma_spells_key(key, "full_save_iteration"@);
    lemma_spells_key(key, "iteration"@);
    lemma_spells_key(key, "elapsed_seconds"@);
    lemma_spells_key(key, "c0_mod9"@);
    lemma_spells_key(key, "start_number"@);
    lemma_spells_key(key, "finished"@);
}

/// Reading the lines of a sequence of `key=value` pairs in order.
pub open spec fn fold_fields(m: MetaFields, fs: Seq<(Seq<char>, Seq<u8>)>) -> MetaFields
    decreases fs.len(),
{
    if fs.len() == 0 {
        m
    } else {
        fold_fields(meta_update_key(m, fs[0].0, fs[0].1), fs.drop_first())
    }
}

/// Every line has a plain key and a value that survives a line.
spec fn fields_safe(fs: Seq<(Seq<char>, Seq<u8>)>) -> bool {
    forall|i: int| 0 <= i < fs.len() ==> plain_key(#[trigger] fs[i].0) && line_safe(fs[i].1)
}

proof fn lemma_read_fields(m: MetaFields, fs: Seq<(Seq<char>, Seq<u8>)>)
    requires
        fields_safe(fs),
    ensures
        meta_fold(m, lines(render_fields(fs))) == fold_fields(m, fs),
    decreases fs.len(),
{
    if fs.len() == 0 {
        assert(lines(Seq::<u8>::empty()) =~= Seq::<Seq<u8>>::empty());
    } else {
        assert(plain_key(fs[0].0) && line_safe(fs[0].1));
        lemma_step(m, fs[0].0, fs[0].1, render_fields(fs.drop_first()));
        let rest = fs.drop_first();
        assert forall|i: int| 0 <= i < rest.len() implies plain_key(#[trigger] rest[i].0) && line_safe(rest[i].1) by {
            assert(rest[i] == fs[i + 1]);
        }
        lemma_read_fields(meta_update_key(m, fs[0].0, fs[0].1), rest);
    }
}

proof fn lemma_fold_fields_push(m: MetaFields, fs: Seq<(Seq<char>, Seq<u8>)>, x: (Seq<char>, Seq<u8>))
    ensures
        fold_fields(m, fs.push(x)) == meta_update_key(fold_fields(m, fs), x.0, x.1),
    decreases fs.len(),
{
    if fs.len() == 0 {
        let e = Seq::<(Seq<char>, Seq<u8>)>::empty();
        assert(fs.push(x).drop_first() =~= e);
        assert(fs.push(x)[0] == x);
        assert(fold_fields(meta_update_key(m, x.0, x.1), e) == meta_update_key(m, x.0, x.1));
    } else {
        assert(fs.push(x).drop_first() =~= fs.drop_first().push(x));
        assert(fs.push(x)[0] == fs[0]);
        lemma_fold_fields_push(meta_update_key(m, fs[0].0, fs[0].1), fs.drop_first(), x);
    }
}

/// The literal keys of the progress file: plain, and told apart from the keys
/// that resuming reads.
proof fn lemma_plain_keys()
    ensures
        plain_key("start_number"@),
        plain_key("iteration"@),
        plain_key("digit_count"@),
        plain_key("elapsed_seconds"@),
        plain_key("mod9"@),
        plain_key("c0_mod9"@),
        plain_key("full_save_iteration"@),
        plain_key("first20"@),
        plain_key("last20"@),
        plain_key("finished"@),
        plain_key("result"@),
        "start_number"@ != "full_save_iteration"@ && "start_number"@ != "iteration"@ && "start_number"@ != "elapsed_seconds"@ && "start_number"@ != "c0_mod9"@ && "start_number"@ != "finished"@,
        "iteration"@ != "full_save_iteration"@ && "iteration"@ != "elapsed_seconds"@ && "iteration"@ != "c0_mod9"@ && "iteration"@ != "start_number"@ && "iteration"@ != "finished"@,
        "digit_count"@ != "full_save_iteration"@ && "digit_count"@ != "iteration"@ && "digit_count"@ != "elapsed_seconds"@ && "digit_count"@ != "c0_mod9"@ && "digit_count"@ != "start_number"@ && "digit_count"@ != "finished"@,
        "elapsed_seconds"@ != "full_save_iteration"@ && "elapsed_seconds"@ != "iteration"@ && "elapsed_seconds"@ != "c0_mod9"@ && "elapsed_seconds"@ != "start_number"@ && "elapsed_seconds"@ != "finished"@,
        "mod9"@ != "full_save_iteration"@ && "mod9"@ != "iteration"@ && "mod9"@ != "elapsed_seconds"@ && "mod9"@ != "c0_mod9"@ && "mod9"@ != "start_number"@ && "mod9"@ != "finished"@,
        "c0_mod9"@ != "full_save_iteration"@ && "c0_mod9"@ != "iteration"@ && "c0_mod9"@ != "elapsed_seconds"@ && "c0_mod9"@ != "start_number"@ && "c0_mod9"@ != "finished"@,
        "full_save_iteration"@ != "iteration"@ && "full_save_iteration"@ != "elapsed_seconds"@ && "full_save_iteration"@ != "c0_mod9"@ && "full_save_iteration"@ != "start_number"@ && "full_save_iteration"@ != "finished"@,
        "first20"@ != "full_save_iteration"@ && "first20"@ != "iteration"@ && "first20"@ != "elapsed_seconds"@ && "first20"@ != "c0_mod9"@ && "first20"@ != "start_number"@ && "first20"@ != "finished"@,
        "last20"@ != "full_save_iteration"@ && "last20"@ != "iteration"@ && "last20"@ != "elapsed_seconds"@ && "last20"@ != "c0_mod9"@ && "last20"@ != "start_number"@ && "last20"@ != "finished"@,
        "finished"@ != "full_save_iteration"@ && "finished"@ != "iteration"@ && "finished"@ != "elapsed_seconds"@ && "finished"@ != "c0_mod9"@ && "finished"@ != "start_number"@,
        "result"@ != "full_save_iteration"@ && "result"@ != "iteration"@ && "result"@ != "elapsed_seconds"@ && "result"@ != "c0_mod9"@ && "result"@ != "start_number"@ && "result"@ != "finished"@,
        spells(ascii_bytes("true"@), "true"@),
        !spells(ascii_bytes("false"@), "true"@),
        line_safe(ascii_bytes("true"@)),
        line_safe(ascii_bytes("false"@)),
{
    reveal_strlit("start_number");
    reveal_strlit("iteration");
    reveal_strlit("digit_count");
    reveal_strlit("elapsed_seconds");
    reveal_strlit("mod9");
    reveal_strlit("c0_mod9");
    reveal_strlit("full_save_iteration");
    reveal_strlit("first20");
    reveal_strlit("last20");
    reveal_strlit("finished");
    reveal_strlit("result");
    reveal_strlit("true");
    reveal_strlit("false");
    assert("first20"@[0] != "c0_mod9"@[0]);
    assert(ascii_bytes("false"@).len() == 5);
}

/// Decimal text has no whitespace to trim.
proof fn lemma_trim_decimal(t: Seq<u8>)
    requires
        is_decimal_text(t),
    ensures
        trim(t) == t,
{
    if t.len() > 0 {
        assert(48 <= t[0] <= 57 && 48 <= t[t.len() - 1] <= 57);
    }
    assert(leading_space_len(t) == 0);
    assert(trim_start(t) == t);
    assert(trailing_space_len(t) == 0);
}

/// A run saved in full and read back resumes from the saved number at the
/// step of the save, with the saved elapsed time and digit sum.
pub proof fn lemma_resume_after_save(p: Progress, elapsed: Seq<u8>, digits: Seq<u8>)
    requires
        line_safe(p.start_number@),
        line_safe(elapsed),
        line_safe(p.first20@),
        line_safe(p.last20@),
        p.result matches Some(r) ==> line_safe(r@),
        !p.finished,
        digits_valid(digits),
    ensures
        number_text_readable(text_of_digits(digits)),
        resume_fields(read_meta(progress_text(p, elapsed)), p.start_number@, text_of_digits(digits)) == Some(
            (digits, p.full_save_iteration, elapsed, p.c0_mod9),
        ),
{
    lemma_progress_roundtrip(p, elapsed);
    lemma_digits_roundtrip(digits);
    lemma_trim_decimal(text_of_digits(digits));
}

/// What reading the first `j` lines of a progress file gives.
pub open spec fn fields_after(p: Progress, elapsed: Seq<u8>, j: int) -> MetaFields {
    MetaFields {
        full_save_iteration: if j >= 7 {
            Some(p.full_save_iteration)
        } else if j >= 2 {
            Some(p.iteration)
        } else {
            None
        },
        from_iteration: 2 <= j < 7,
        elapsed: if j >= 4 { Some(elapsed) } else { None },
        c0_mod9: if j >= 6 { Some(p.c0_mod9) } else { None },
        start_number: if j >= 1 { Some(p.start_number@) } else { None },
        finished: if j >= 10 { p.finished } else { false },
        complete: j >= 10,
    }
}

/// The lines of a progress file all have plain keys and line-safe values.
proof fn lemma_progress_fields_safe(p: Progress, elapsed: Seq<u8>)
    requires
        line_safe(p.start_number@),
        line_safe(elapsed),
        line_safe(p.first20@),
        line_safe(p.last20@),
        p.result matches Some(r) ==> line_safe(r@),
    ensures
        fields_safe(progress_fields(p, elapsed)),
{
    lemma_plain_keys();
    lemma_decimal_line_safe(p.iteration);
    lemma_decimal_line_safe(p.digit_count);
    lemma_decimal_line_safe(p.mod9);
    lemma_decimal_line_safe(p.c0_mod9);
    lemma_decimal_line_safe(p.full_save_iteration);
}

proof fn lemma_fields_after(p: Progress, elapsed: Seq<u8>, j: int)
    requires
        0 <= j <= progress_fields(p, elapsed).len(),
    ensures
        fold_fields(meta_empty(), progress_fields(p, elapsed).take(j)) == fields_after(p, elapsed, j),
    decreases j,
{
    let fs = progress_fields(p, elapsed);
    if j == 0 {
        assert(fs.take(0) =~= Seq::<(Seq<char>, Seq<u8>)>::empty());
        assert(fields_after(p, elapsed, 0) == meta_empty());
    } else {
        let i = j - 1;
        lemma_fields_after(p, elapsed, i);
        assert(fs.take(j) =~= fs.take(i).push(fs[i]));
        lemma_fold_fields_push(meta_empty(), fs.take(i), fs[i]);
        lemma_plain_keys();
        lemma_decimal_roundtrip(p.iteration);
        lemma_decimal_roundtrip(p.c0_mod9);
        lemma_decimal_roundtrip(p.full_save_iteration);
        reveal_strlit("true");
        reveal_strlit("false");
        let m = fields_after(p, elapsed, i);
        if i == 0 {
            assert(fs[i] == ("start_number"@, p.start_number@));
        } else if i == 1 {
            assert(fs[i] == ("iteration"@, decimal_text(p.iteration)));
        } else if i == 2 {
            assert(fs[i] == ("digit_count"@, decimal_text(p.digit_count)));
        } else if i == 3 {
            assert(fs[i] == ("elapsed_seconds"@, elapsed));
        } else if i == 4 {
            assert(fs[i] == ("mod9"@, decimal_text(p.mod9)));
        } else if i == 5 {
            assert(fs[i] == ("c0_mod9"@, decimal_text(p.c0_mod9)));
        } else if i == 6 {
            assert(fs[i] == ("full_save_iteration"@, decimal_text(p.full_save_iteration)));
        } else if i == 7 {
            assert(fs[i] == ("first20"@, p.first20@));
        } else if i == 8 {
            assert(fs[i] == ("last20"@, p.last20@));
        } else if i == 9 {
            assert(fs[i] == ("finished"@, ascii_bytes(if p.finished { "true"@ } else { "false"@ })));
        } else {
            assert(fs[i].0 == "result"@);
        }
    }
}

/// Reading back a progress file gives the full-save step, the elapsed-seconds
/// text, the start's digit sum modulo 9, the start number and whether the run
/// had finished, as long as the texts written hold no line break.
pub proof fn lemma_progress_roundtrip(p: Progress, elapsed: Seq<u8>)
    requires
        line_safe(p.start_number@),
        line_safe(elapsed),
        line_safe(p.first20@),
        line_safe(p.last20@),
        p.result matches Some(r) ==> line_safe(r@),
    ensures
        read_meta(progress_text(p, elapsed)) == (MetaFields {
            full_save_iteration: Some(p.full_save_iteration),
            from_iteration: false,
            elapsed: Some(elapsed),
            c0_mod9: Some(p.c0_mod9),
            start_number: Some(p.start_number@),
            finished: p.finished,
            complete: true,
        }),
        saved_step(read_meta(progress_text(p, elapsed))) == Some(p.full_save_iteration),
{
    let fs = progress_fields(p, elapsed);
    lemma_progress_fields_safe(p, elapsed);
    lemma_read_fields(meta_empty(), fs);
    lemma_fields_after(p, elapsed, fs.len() as int);
    assert(fs.take(fs.len() as int) =~= fs);
}

/// A progress file cut short after any number of whole lines, as a kill in
/// the middle of writing it leaves it, is a start of the full text, and
/// resuming from it gives the step of that record's last full save or
/// nothing: never the later step of a timed checkpoint.
pub proof fn lemma_resume_from_cut_file(p: Progress, elapsed: Seq<u8>, j: int, start_number: Seq<u8>, number: Seq<u8>)
    requires
        line_safe(p.start_number@),
        line_safe(elapsed),
        line_safe(p.first20@),
        line_safe(p.last20@),
        p.result matches Some(r) ==> line_safe(r@),
        0 <= j <= progress_fields(p, elapsed).len(),
    ensures
        ({
            let cut = render_fields(progress_fields(p, elapsed).take(j));
            &&& cut == progress_text(p, elapsed).take(cut.len() as int)
            &&& resume_fields(read_meta(cut), start_number, number) matches Some(r) ==> r.1 == p.full_save_iteration
        }),
{
    let fs = progress_fields(p, elapsed);
    let cut = render_fields(fs.take(j));
    lemma_render_split(fs, j);
    assert(progress_text(p, elapsed).take(cut.len() as int) =~= cut);
    lemma_progress_fields_safe(p, elapsed);
    assert forall|i: int| 0 <= i < fs.take(j).len() implies plain_key(#[trigger] fs.take(j)[i].0) && line_safe(fs.take(j)[i].1) by {
        assert(fs.take(j)[i] == fs[i]);
    }
    lemma_read_fields(meta_empty(), fs.take(j));
    lemma_fields_after(p, elapsed, j);
}

/// The value that a line gives to `key`: what follows its first `=`, when
/// what precedes that `=` spells `key`.
pub open spec fn line_value(line: Seq<u8>, key: Seq<char>) -> Option<Seq<u8>> {
    let e = find_byte(line, 61, 0);
    if e < line.len() && spells(line.subrange(0, e), key) {
        Some(line.subrange(e + 1, line.len() as int))
    } else {
        None
    }
}

/// A text gives `value` to `key`: one of its lines does, and no line gives
/// that key another value.
pub open spec fn text_gives(t: Seq<u8>, key: Seq<char>, value: Seq<u8>) -> bool {
    &&& exists|i: int| 0 <= i < lines(t).len() && #[trigger] line_value(lines(t)[i], key) == Some(value)
    &&& forall|i: int|
        0 <= i < lines(t).len() && (#[trigger] line_value(lines(t)[i], key)) is Some ==> line_value(lines(t)[i], key)
            == Some(value)
}

/// The lines of rendered pairs are the pairs' `key=value` texts.
proof fn lemma_render_lines(fs: Seq<(Seq<char>, Seq<u8>)>)
    requires
        fields_safe(fs),
    ensures
        lines(render_fields(fs)).len() == fs.len(),
        forall|i: int|
            0 <= i < fs.len() ==> #[trigger] lines(render_fields(fs))[i] == ascii_bytes(fs[i].0) + seq![61u8] + fs[i].1,
    decreases fs.len(),
{
    if fs.len() == 0 {
        assert(lines(Seq::<u8>::empty()) =~= Seq::<Seq<u8>>::empty());
    } else {
        let k = fs[0].0;
        let v = fs[0].1;
        assert(plain_key(k) && line_safe(v));
        let kb = ascii_bytes(k);
        let l = kb + seq![61u8] + v;
        lemma_key_bytes(k);
        assert forall|i: int| 0 <= i < l.len() implies #[trigger] l[i] != 10 by {
            if i < kb.len() {
                assert(l[i] == kb[i]);
            } else if i > kb.len() {
                assert(l[i] == v[i - kb.len() - 1]);
            }
        }
        assert(strip_cr(l) == l) by {
            if v.len() > 0 {
                assert(l.last() == v.last());
            }
        }
        let rest = fs.drop_first();
        assert forall|i: int| 0 <= i < rest.len() implies plain_key(#[trigger] rest[i].0) && line_safe(rest[i].1) by {
            assert(rest[i] == fs[i + 1]);
        }
        lemma_render_lines(rest);
        assert(render_fields(fs) =~= l + seq![10u8] + render_fields(rest));
        lemma_lines_cons(l, render_fields(rest));
        let ls = lines(render_fields(fs));
        assert(ls =~= seq![l] + lines(render_fields(rest)));
        assert forall|i: int| 0 <= i < fs.len() implies #[trigger] ls[i] == ascii_bytes(fs[i].0) + seq![61u8] + fs[i].1 by {
            if i > 0 {
                assert(ls[i] == lines(render_fields(rest))[i - 1]);
                assert(rest[i - 1] == fs[i]);
            }
        }
    }
}

/// What the line written for `k` and `v` gives to a plain key.
proof fn lemma_line_value(k: Seq<char>, v: Seq<u8>, key: Seq<char>)
    requires
        plain_key(k),
        plain_key(key),
    ensures
        line_value(ascii_bytes(k) + seq![61u8] + v, key) == if k == key {
            Some(v)
        } else {
            None
        },
{
    let kb = ascii_bytes(k);
    let line = kb + seq![61u8] + v;
    lemma_key_bytes(k);
    lemma_find_append_first(kb + seq![61u8], v);
    assert(line.subrange(0, kb.len() as int) =~= kb);
    assert(line.subrange(kb.len() as int + 1, line.len() as int) =~= v);
    lemma_spells_key(k, key);
}

/// Rendered pairs give each key that occurs once its own value.
proof fn lemma_render_gives(fs: Seq<(Seq<char>, Seq<u8>)>, j: int)
    requires
        fields_safe(fs),
        0 <= j < fs.len(),
        forall|i: int| 0 <= i < fs.len() && (#[trigger] fs[i]).0 == fs[j].0 ==> i == j,
    ensures
        text_gives(render_fields(fs), fs[j].0, fs[j].1),
{
    let t = render_fields(fs);
    let key = fs[j].0;
    lemma_render_lines(fs);
    assert(plain_key(fs[j].0) && line_safe(fs[j].1));
    lemma_line_value(key, fs[j].1, key);
    assert(line_value(lines(t)[j], key) == Some(fs[j].1));
    assert forall|i: int|
        0 <= i < lines(t).len() && (#[trigger] line_value(lines(t)[i], key)) is Some implies line_value(lines(t)[i], key)
            == Some(fs[j].1) by {
        assert(plain_key(fs[i].0) && line_safe(fs[i].1));
        lemma_line_value(fs[i].0, fs[i].1, key);
    }
}

/// The progress file carries each field under its own key: read line by
/// line, it gives the start number, the step, the digit count, the elapsed
/// time, the two digit sums modulo 9, the step of the last full save, the
/// first and the last twenty digits, whether the run has finished and its
/// result, each from the one line of that key.
pub proof fn lemma_progress_text_values(p: Progress, elapsed: Seq<u8>)
    requires
        line_safe(p.start_number@),
        line_safe(elapsed),
        line_safe(p.first20@),
        line_safe(p.last20@),
        p.result matches Some(r) ==> line_safe(r@),
    ensures
        text_gives(progress_text(p, elapsed), "start_number"@, p.start_number@),
        text_gives(progress_text(p, elapsed), "iteration"@, decimal_text(p.iteration)),
        text_gives(progress_text(p, elapsed), "digit_count"@, decimal_text(p.digit_count)),
        text_gives(progress_text(p, elapsed), "elapsed_seconds"@, elapsed),
        text_gives(progress_text(p, elapsed), "mod9"@, decimal_text(p.mod9)),
        text_gives(progress_text(p, elapsed), "c0_mod9"@, decimal_text(p.c0_mod9)),
        text_gives(progress_text(p, elapsed), "full_save_iteration"@, decimal_text(p.full_save_iteration)),
        text_gives(progress_text(p, elapsed), "first20"@, p.first20@),
        text_gives(progress_text(p, elapsed), "last20"@, p.last20@),
        text_gives(
            progress_text(p, elapsed),
            "finished"@,
            ascii_bytes(if p.finished { "true"@ } else { "false"@ }),
        ),
        p.result matches Some(r) ==> text_gives(progress_text(p, elapsed), "result"@, r@),
{
    let fs = progress_fields(p, elapsed);
    lemma_progress_fields_safe(p, elapsed);
    lemma_plain_keys();
    assert("last20"@[0] != "result"@[0]) by {
        reveal_strlit("last20");
        reveal_strlit("result");
    }
    assert forall|i: int, j: int| 0 <= i < fs.len() && 0 <= j < fs.len() && (#[trigger] fs[i]).0 == (#[trigger] fs[j]).0 implies i == j by {
        reveal_strlit("start_number");
        reveal_strlit("iteration");
        reveal_strlit("digit_count");
        reveal_strlit("elapsed_seconds");
        reveal_strlit("mod9");
        reveal_strlit("c0_mod9");
        reveal_strlit("full_save_iteration");
        reveal_strlit("first20");
        reveal_strlit("last20");
        reveal_strlit("finished");
        reveal_strlit("result");
    }
    lemma_render_gives(fs, 0);
    lemma_render_gives(fs, 1);
    lemma_render_gives(fs, 2);
    lemma_render_gives(fs, 3);
    lemma_render_gives(fs, 4);
    lemma_render_gives(fs, 5);
    lemma_render_gives(fs, 6);
    lemma_render_gives(fs, 7);
    lemma_render_gives(fs, 8);
    lemma_render_gives(fs, 9);
    if p.result is Some {
        lemma_render_gives(fs, 10);
    }
}

} // verus!
