//! The table of published milestones (digit count, iteration, first 25 digits)
//! that a run from 196 is checked against.

use vstd::prelude::*;
use crate::digits::{first_n, text_of_digits};
use crate::number::digits_valid;
use crate::text::{bytes_equal, copy_range, find_byte, find_byte_in, lemma_find_byte, lines, lines_from, next_line, parse_u64,
    parse_u64_in, trim, trim_range};

verus! {

/// One published milestone: the iteration at which the number first reaches
/// `digit_count` digits, and its first 25 digits.
pub struct Checkpoint {
    pub digit_count: u64,
    pub iteration: u64,
    pub first_25: Vec<u8>,
}

/// What one line of the table text gives.
pub enum TableLine {
    /// Blank, a `#` comment, or not three comma-separated fields.
    Skip,
    /// A milestone row: digit count, iteration, first digits.
    Row(u64, u64, Seq<u8>),
    /// Three fields, but the digit count or the iteration is not a number.
    Bad,
}

/// The reading of one line of the table: trimmed, skipped when blank or a
/// comment or when it does not split into exactly three fields at commas.
pub open spec fn table_line(line: Seq<u8>) -> TableLine {
    let l = trim(line);
    let c1 = find_byte(l, 44, 0);
    let c2 = find_byte(l, 44, c1 + 1);
    let c3 = find_byte(l, 44, c2 + 1);
    if l.len() == 0 || l[0] == 35 || c1 >= l.len() || c2 >= l.len() || c3 < l.len() {
        TableLine::Skip
    } else {
        match (parse_u64(l.subrange(0, c1)), parse_u64(l.subrange(c1 + 1, c2))) {
            (Some(d), Some(i)) => TableLine::Row(d, i, l.subrange(c2 + 1, l.len() as int)),
            _ => TableLine::Bad,
        }
    }
}

/// The milestones of a sequence of lines, in order, or `None` at the first bad row.
pub open spec fn table_rows(ls: Seq<Seq<u8>>) -> Option<Seq<(u64, u64, Seq<u8>)>>
    decreases ls.len(),
{
    if ls.len() == 0 {
        Some(Seq::empty())
    } else {
        match table_line(ls[0]) {
            TableLine::Skip => table_rows(ls.drop_first()),
            TableLine::Bad => None,
            TableLine::Row(d, i, f) => match table_rows(ls.drop_first()) {
                Some(rest) => Some(seq![(d, i, f)] + rest),
                None => None,
            },
        }
    }
}

/// A milestone as a plain value.
pub open spec fn checkpoint_row(c: Checkpoint) -> (u64, u64, Seq<u8>) {
    (c.digit_count, c.iteration, c.first_25@)
}

/// The milestones of a table, as plain values.
pub open spec fn checkpoint_rows(v: Seq<Checkpoint>) -> Seq<(u64, u64, Seq<u8>)> {
    v.map_values(|c: Checkpoint| checkpoint_row(c))
}

/// Reads the line `t[lo .. hi]` of the table.
fn parse_table_line(t: &[u8], lo: usize, hi: usize) -> (r: Option<Option<Checkpoint>>)
    requires
        lo <= hi <= t@.len(),
    ensures
        match table_line(t@.subrange(lo as int, hi as int)) {
            TableLine::Skip => r == Some(None::<Checkpoint>),
            TableLine::Bad => r is None,
            TableLine::Row(d, i, f) => r matches Some(Some(c)) && checkpoint_row(c) == (d, i, f),
        },
{
    let (a, b) = trim_range(t, lo, hi);
    let ghost l = t@.subrange(a as int, b as int);
    assert(l == trim(t@.subrange(lo as int, hi as int)));
    if a == b || t[a] == 35 {
        return Some(None);
    }
    let c1 = find_byte_in(t, 44, a, b);
    proof {
        lemma_find_byte(t@.subrange(a as int, b as int), 44, 0);
    }
    if c1 >= b {
        proof {
            lemma_find_byte(l, 44, 0);
        }
        return Some(None);
    }
    let c2 = find_byte_in(t, 44, c1 + 1, b);
    proof {
        lemma_find_byte(t@.subrange(c1 + 1, b as int), 44, 0);
    }
    if c2 >= b {
        proof {
            lemma_find_byte(l, 44, 0);
            lemma_find_shift(t@, 44, a as int, b as int, c1 + 1);
        }
        return Some(None);
    }
    let c3 = find_byte_in(t, 44, c2 + 1, b);
    proof {
        lemma_find_byte(t@.subrange(c2 + 1, b as int), 44, 0);
    }
    proof {
        lemma_find_byte(l, 44, 0);
        lemma_find_shift(t@, 44, a as int, b as int, c1 + 1);
        lemma_find_shift(t@, 44, a as int, b as int, c2 + 1);
        assert(l.subrange(0, c1 - a) =~= t@.subrange(a as int, c1 as int));
        assert(l.subrange(c1 - a + 1, c2 - a) =~= t@.subrange(c1 + 1, c2 as int));
        assert(l.subrange(c2 - a + 1, l.len() as int) =~= t@.subrange(c2 + 1, b as int));
    }
    if c3 < b {
        return Some(None);
    }
    let digit_count = parse_u64_in(t, a, c1);
    let iteration = parse_u64_in(t, c1 + 1, c2);
    match (digit_count, iteration) {
        (Some(d), Some(i)) => Some(Some(Checkpoint { digit_count: d, iteration: i, first_25: copy_range(t, c2 + 1, b) })),
        _ => None,
    }
}

/// Searching inside `t[a .. b]` from `j` is searching the slice from `j - a`.
proof fn lemma_find_shift(t: Seq<u8>, c: u8, a: int, b: int, j: int)
    requires
        0 <= a <= j <= b <= t.len(),
    ensures
        j + find_byte(t.subrange(j, b), c, 0) == a + find_byte(t.subrange(a, b), c, j - a),
    decreases b - j,
{
    let l = t.subrange(a, b);
    let u = t.subrange(j, b);
    if j < b {
        assert(u[0] == l[j - a]);
        if t[j] != c {
            lemma_find_shift(t, c, a, b, j + 1);
            crate::text::lemma_find_byte_shift(u, c, 1, 1);
            assert(u.subrange(1, u.len() as int) =~= t.subrange(j + 1, b));
        }
    }
}

/// Reads the milestone table: one `digit_count,iteration,first_25_digits` row
/// per line; blank lines, `#` comments and lines without exactly three fields
/// are skipped. `None` when a row's digit count or iteration is not a number.
pub fn parse_verification_table(text: &[u8]) -> (table: Option<Vec<Checkpoint>>)
    ensures
        match table {
            Some(v) => table_rows(lines(text@)) == Some(checkpoint_rows(v@)),
            None => table_rows(lines(text@)) is None,
        },
{
    let n = text.len();
    let mut out: Vec<Checkpoint> = Vec::new();
    let mut p: usize = 0;
    while p < n
        invariant
            n == text@.len(),
            p <= n,
            table_rows(lines(text@)) == match table_rows(lines_from(text@, p as int)) {
                Some(rest) => Some(checkpoint_rows(out@) + rest),
                None => None::<Seq<(u64, u64, Seq<u8>)>>,
            },
        decreases n - p,
    {
        let (lo, hi, next) = next_line(text, p);
        let ghost ls = lines_from(text@, p as int);
        let ghost line = text@.subrange(lo as int, hi as int);
        assert(ls[0] == line);
        assert(ls.drop_first() =~= lines_from(text@, next as int));
        match parse_table_line(text, lo, hi) {
            None => {
                return None;
            },
            Some(None) => {},
            Some(Some(c)) => {
                let ghost before = out@;
                out.push(c);
                proof {
                    assert(checkpoint_rows(out@) =~= checkpoint_rows(before) + seq![checkpoint_row(c)]);
                    let rest = table_rows(lines_from(text@, next as int));
                    if rest is Some {
                        assert(checkpoint_rows(before) + (seq![checkpoint_row(c)] + rest->0) =~= checkpoint_rows(out@) + rest->0);
                    }
                }
            },
        }
        p = next;
    }
    assert(lines_from(text@, p as int) =~= Seq::<Seq<u8>>::empty());
    assert(checkpoint_rows(out@) + Seq::<(u64, u64, Seq<u8>)>::empty() =~= checkpoint_rows(out@));
    Some(out)
}

/// The index of the first milestone with more digits than `digit_count`, or
/// the table's length: the next milestone a run of that size can reach (the
/// digit count grows by at most one per step, so none is skipped).
pub fn first_unchecked(table: &[Checkpoint], digit_count: usize) -> (idx: usize)
    ensures
        idx <= table@.len(),
        forall|j: int| 0 <= j < idx ==> table@[j].digit_count <= digit_count,
        idx < table@.len() ==> table@[idx as int].digit_count > digit_count,
{
    let mut i: usize = 0;
    while i < table.len()
        invariant
            i <= table@.len(),
            forall|j: int| 0 <= j < i ==> table@[j].digit_count <= digit_count,
        decreases table@.len() - i,
    {
        if table[i].digit_count > digit_count as u64 {
            return i;
        }
        i += 1;
    }
    i
}

/// The outcome of reaching a milestone's digit count.
pub struct MilestoneReport {
    /// Index of the milestone in the table.
    pub index: usize,
    /// Whether the iteration and the first 25 digits both agree.
    pub matched: bool,
    /// Our first 25 digits.
    pub ours: Vec<u8>,
}

/// Checks the next unchecked milestone: when the number has just reached its
/// digit count, compares iteration and first 25 digits and moves on to the
/// next milestone.
pub fn check_milestone(table: &[Checkpoint], next_idx: &mut usize, digits: &[u8], iteration: u64) -> (report: Option<MilestoneReport>)
    requires
        digits_valid(digits@),
    ensures
        ({
            let i = *old(next_idx);
            if i < table@.len() && digits@.len() == table@[i as int].digit_count {
                &&& *final(next_idx) == i + 1
                &&& report matches Some(r) && {
                    &&& r.index == i
                    &&& r.ours@ == text_of_digits(digits@).take(
                        if 25 <= digits@.len() { 25 } else { digits@.len() as int },
                    )
                    &&& r.matched == (table@[i as int].iteration == iteration && r.ours@
                        == table@[i as int].first_25@)
                }
            } else {
                &&& *final(next_idx) == i
                &&& report is None
            }
        }),
{
    let i = *next_idx;
    if i < table.len() {
        let target = &table[i];
        if digits.len() as u64 == target.digit_count {
            let ours = first_n(digits, 25);
            let matched = target.iteration == iteration && bytes_equal(ours.as_slice(), target.first_25.as_slice());
            *next_idx = i + 1;
            return Some(MilestoneReport { index: i, matched, ours });
        }
    }
    None
}

} // verus!
