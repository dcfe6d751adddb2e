use vstd::prelude::*;
use crate::point::Point;

verus! {

/// The line-feed byte.  Columns count bytes, so a multi-byte character
/// advances the column by its encoded length.
pub const NEWLINE: u8 = 10;

/// Mathematical aggregate of a byte span: number of line feeds, byte
/// length of the first and of the last line, and the longest row together
/// with its byte length (the earliest such row on ties).
pub ghost struct SummaryModel {
    pub rows: int,
    pub first: int,
    pub last: int,
    pub longest_row: int,
    pub longest: int,
}

pub open spec fn zero_model() -> SummaryModel {
    SummaryModel { rows: 0, first: 0, last: 0, longest_row: 0, longest: 0 }
}

/// How the aggregate changes when one more byte is appended.
pub open spec fn step_byte(m: SummaryModel, b: u8) -> SummaryModel {
    if b == NEWLINE {
        SummaryModel { rows: m.rows + 1, first: m.first, last: 0, longest_row: m.longest_row, longest: m.longest }
    } else {
        let new_last = m.last + 1;
        SummaryModel {
            rows: m.rows,
            first: if m.rows == 0 { m.first + 1 } else { m.first },
            last: new_last,
            longest_row: if new_last > m.longest { m.rows } else { m.longest_row },
            longest: if new_last > m.longest { new_last } else { m.longest },
        }
    }
}

/// The aggregate of a whole byte sequence.
pub open spec fn summary_of(s: Seq<u8>) -> SummaryModel
    decreases s.len(),
{
    if s.len() == 0 {
        zero_model()
    } else {
        step_byte(summary_of(s.drop_last()), s.last())
    }
}

/// How the aggregates of two adjacent spans join into the aggregate of
/// their concatenation: the last line of the left span and the first line
/// of the right span fuse into one row.
pub open spec fn combine(a: SummaryModel, b: SummaryModel) -> SummaryModel {
    let joined = a.last + b.first;
    let longest_row_1 = if joined > a.longest { a.rows } else { a.longest_row };
    let longest_1 = if joined > a.longest { joined } else { a.longest };
    let longest_row_2 = if b.longest > longest_1 { a.rows + b.longest_row } else { longest_row_1 };
    let longest_2 = if b.longest > longest_1 { b.longest } else { longest_1 };
    SummaryModel {
        rows: a.rows + b.rows,
        first: if a.rows == 0 { a.first + b.first } else { a.first },
        last: if b.rows == 0 { a.last + b.last } else { b.last },
        longest_row: longest_row_2,
        longest: longest_2,
    }
}

/// Internal consistency of an aggregate that arose from some byte span.
pub open spec fn wf_model(m: SummaryModel) -> bool {
    &&& m.rows >= 0
    &&& m.first >= 0
    &&& m.last >= 0
    &&& m.longest >= m.last
    &&& m.longest >= m.first
    &&& 0 <= m.longest_row <= m.rows
    &&& m.rows == 0 ==> m.first == m.last && m.longest == m.last && m.longest_row == 0
    &&& m.longest_row == m.rows ==> m.longest == m.last
    &&& m.longest_row == 0 ==> m.longest == m.first
}

pub proof fn lemma_summary_wf(s: Seq<u8>)
    ensures
        wf_model(summary_of(s)),
    decreases s.len(),
{
    if s.len() > 0 {
        lemma_summary_wf(s.drop_last());
    }
}

/// Every component of the aggregate is bounded by the span's byte length.
pub proof fn lemma_summary_le_len(s: Seq<u8>)
    ensures
        summary_of(s).rows <= s.len(),
        summary_of(s).first <= s.len(),
        summary_of(s).last <= s.len(),
        summary_of(s).longest <= s.len(),
        summary_of(s).longest_row <= s.len(),
    decreases s.len(),
{
    if s.len() > 0 {
        lemma_summary_le_len(s.drop_last());
    }
}

proof fn lemma_step_combine(x: SummaryModel, y: SummaryModel, c: u8)
    requires
        wf_model(x),
        wf_model(y),
    ensures
        combine(x, step_byte(y, c)) == step_byte(combine(x, y), c),
{
}

/// Summaries are additive: the aggregate of a concatenation is the join of
/// the two spans' aggregates.
pub proof fn lemma_summary_combine(a: Seq<u8>, b: Seq<u8>)
    ensures
        summary_of(a + b) == combine(summary_of(a), summary_of(b)),
    decreases b.len(),
{
    lemma_summary_wf(a);
    if b.len() == 0 {
        assert(a + b =~= a);
    } else {
        lemma_summary_combine(a, b.drop_last());
        lemma_summary_wf(b.drop_last());
        assert((a + b).drop_last() =~= a + b.drop_last());
        assert((a + b).last() == b.last());
        assert(summary_of(a + b) == step_byte(summary_of(a + b.drop_last()), b.last()));
        lemma_step_combine(summary_of(a), summary_of(b.drop_last()), b.last());
    }
}

/// Aggregate statistics of a span of text: total row/column extents, byte
/// counts of the first and last lines, and the longest row with its
/// length.  Because columns count bytes, the first- and last-line counts
/// coincide with the column extents.
#[derive(Copy, Clone, Debug, PartialEq, Eq, Structural)]
pub struct TextSummary {
    pub lines: Point,
    pub first_line_chars: u32,
    pub last_line_chars: u32,
    pub longest_row: u32,
    pub longest_row_chars: u32,
}

/// The executable summary `t` records exactly the mathematical aggregate `m`.
pub open spec fn models(t: TextSummary, m: SummaryModel) -> bool {
    &&& t.lines.row == m.rows
    &&& t.lines.column == m.last
    &&& t.first_line_chars == m.first
    &&& t.last_line_chars == m.last
    &&& t.longest_row == m.longest_row
    &&& t.longest_row_chars == m.longest
}

impl TextSummary {
    pub fn zero() -> (r: TextSummary)
        ensures
            models(r, zero_model()),
    {
        TextSummary {
            lines: Point::new(0, 0),
            first_line_chars: 0,
            last_line_chars: 0,
            longest_row: 0,
            longest_row_chars: 0,
        }
    }

    /// Extends `self` with the aggregate of the span that follows it.
    pub fn add_summary(&mut self, other: &TextSummary, Ghost(a): Ghost<SummaryModel>, Ghost(b): Ghost<SummaryModel>)
        requires
            models(*old(self), a),
            models(*other, b),
            wf_model(a),
            wf_model(b),
            a.rows + b.rows <= u32::MAX,
            a.last + b.last <= u32::MAX,
            a.first + b.first <= u32::MAX,
            a.last + b.first <= u32::MAX,
        ensures
            models(*final(self), combine(a, b)),
    {
        let joined_chars = self.last_line_chars + other.first_line_chars;
        if joined_chars > self.longest_row_chars {
            self.longest_row = self.lines.row;
            self.longest_row_chars = joined_chars;
        }
        if other.longest_row_chars > self.longest_row_chars {
            self.longest_row = self.lines.row + other.longest_row;
            self.longest_row_chars = other.longest_row_chars;
        }
        if self.lines.row == 0 {
            self.first_line_chars = self.first_line_chars + other.first_line_chars;
        }
        if other.lines.row == 0 {
            self.last_line_chars = self.last_line_chars + other.last_line_chars;
        } else {
            self.last_line_chars = other.last_line_chars;
        }
        self.lines = self.lines.plus(other.lines);
    }
}

/// Computes the summary of `text[start..end]` by a single scan.
pub fn summary_of_range(text: &Vec<u8>, start: usize, end: usize) -> (r: TextSummary)
    requires
        start <= end <= text@.len(),
        text@.len() <= u32::MAX,
    ensures
        models(r, summary_of(text@.subrange(start as int, end as int))),
{
    let mut r = TextSummary::zero();
    let mut i: usize = start;
    while i < end
        invariant
            start <= i <= end <= text@.len(),
            text@.len() <= u32::MAX,
            models(r, summary_of(text@.subrange(start as int, i as int))),
        decreases end - i,
    {
        proof {
            let s = text@.subrange(start as int, i as int);
            lemma_summary_wf(s);
            lemma_summary_le_len(s);
            assert(text@.subrange(start as int, i + 1).drop_last() =~= s);
        }
        let b = text[i];
        if b == NEWLINE {
            r.lines.row = r.lines.row + 1;
            r.lines.column = 0;
            r.last_line_chars = 0;
        } else {
            let new_last = r.last_line_chars + 1;
            if r.lines.row == 0 {
                r.first_line_chars = r.first_line_chars + 1;
            }
            if new_last > r.longest_row_chars {
                r.longest_row = r.lines.row;
                r.longest_row_chars = new_last;
            }
            r.lines.column = new_last;
            r.last_line_chars = new_last;
        }
        i = i + 1;
    }
    r
}

} // verus!
