use vstd::prelude::*;
use crate::point::InputPoint;
use crate::summary::{NEWLINE, TextSummary, summary_of, summary_of_range, models};

verus! {

/// Byte offset at which row `r` starts: one past the `r`-th line feed, or
/// the end of the text when there are fewer than `r` line feeds.
pub open spec fn line_start(s: Seq<u8>, r: int) -> int
    decreases s.len(),
{
    if r <= 0 || s.len() == 0 {
        0
    } else if s[0] == NEWLINE {
        1 + line_start(s.skip(1), r - 1)
    } else {
        1 + line_start(s.skip(1), r)
    }
}

pub proof fn lemma_line_start_bounds(s: Seq<u8>, r: int)
    ensures
        0 <= line_start(s, r) <= s.len(),
    decreases s.len(),
{
    if r > 0 && s.len() > 0 {
        if s[0] == NEWLINE {
            lemma_line_start_bounds(s.skip(1), r - 1);
        } else {
            lemma_line_start_bounds(s.skip(1), r);
        }
    }
}

pub proof fn lemma_line_start_mono(s: Seq<u8>, r1: int, r2: int)
    requires
        r1 <= r2,
    ensures
        line_start(s, r1) <= line_start(s, r2),
    decreases s.len(),
{
    if r1 > 0 && s.len() > 0 {
        if s[0] == NEWLINE {
            lemma_line_start_mono(s.skip(1), r1 - 1, r2 - 1);
        } else {
            lemma_line_start_mono(s.skip(1), r1, r2);
        }
    } else {
        lemma_line_start_bounds(s, r2);
    }
}

/// A scan that has consumed `i` bytes and seen `rows(take(i))` line feeds
/// continues the search for the start of row `r` in the remaining suffix.
pub proof fn lemma_line_start_decompose(s: Seq<u8>, i: int, r: int)
    requires
        0 <= i <= s.len(),
        summary_of(s.take(i)).rows < r
            || (summary_of(s.take(i)).rows == r && (i == 0 || s[i - 1] == NEWLINE)),
    ensures
        line_start(s, r) == i + line_start(s.skip(i), r - summary_of(s.take(i)).rows),
    decreases i,
{
    if i == 0 {
        assert(s.take(0) =~= Seq::<u8>::empty());
        assert(s.skip(0) =~= s);
    } else {
        let k = summary_of(s.take(i)).rows;
        let km = summary_of(s.take(i - 1)).rows;
        assert(s.take(i).drop_last() =~= s.take(i - 1));
        assert(s.take(i).last() == s[i - 1]);
        assert(k == km + if s[i - 1] == NEWLINE { 1int } else { 0 });
        crate::summary::lemma_summary_wf(s.take(i - 1));
        lemma_line_start_decompose(s, i - 1, r);
        assert(s.skip(i - 1).skip(1) =~= s.skip(i));
        assert(s.skip(i - 1)[0] == s[i - 1]);
        assert(s.skip(i - 1).len() == s.len() - i + 1 >= 1);
    }
}

/// How each row boundary of a text relates to its aggregate: row starts
/// sit one past a line feed, the start of row `rows` leaves exactly the
/// last line behind it, and rows past the end collapse to the length.
pub proof fn lemma_line_start_char(s: Seq<u8>, r: int)
    requires
        0 <= r,
    ensures
        r <= summary_of(s).rows ==> summary_of(s.take(line_start(s, r))).rows == r && (r > 0
            ==> line_start(s, r) > 0 && s[line_start(s, r) - 1] == NEWLINE),
        r == summary_of(s).rows ==> line_start(s, r) == s.len() - summary_of(s).last,
        r > summary_of(s).rows ==> line_start(s, r) == s.len(),
    decreases s.len(),
{
    crate::summary::lemma_summary_wf(s);
    crate::summary::lemma_summary_le_len(s);
    if s.len() == 0 {
        assert(s.take(0) =~= Seq::<u8>::empty());
    } else {
        let t = s.skip(1);
        let c = s[0];
        assert(s =~= s.take(1) + t);
        crate::summary::lemma_summary_combine(s.take(1), t);
        assert(s.take(1).drop_last() =~= Seq::<u8>::empty());
        assert(s.take(1).last() == c);
        assert(s.take(1).len() == 1);
        assert(summary_of(Seq::<u8>::empty()) == crate::summary::zero_model());
        assert(summary_of(s.take(1).drop_last()) == crate::summary::zero_model());
        assert(summary_of(s.take(1)) == crate::summary::step_byte(
            crate::summary::zero_model(),
            c,
        ));
        assert(summary_of(s) == crate::summary::combine(summary_of(s.take(1)), summary_of(t)));
        crate::summary::lemma_summary_wf(t);
        crate::summary::lemma_summary_le_len(t);
        if r == 0 {
            assert(s.take(0) =~= Seq::<u8>::empty());
            if summary_of(s).rows == 0 {
                lemma_line_start_char(t, 0);
            }
        } else {
            let rt = if c == NEWLINE { r - 1 } else { r };
            lemma_line_start_char(t, rt);
            let lst = line_start(t, rt);
            lemma_line_start_bounds(t, rt);
            assert(line_start(s, r) == 1 + lst);
            if rt <= summary_of(t).rows {
                assert(s.take(1 + lst) =~= s.take(1) + t.take(lst));
                crate::summary::lemma_summary_combine(s.take(1), t.take(lst));
                if rt > 0 {
                    assert(s[1 + lst - 1] == t[lst - 1]);
                }
            }
        }
    }
}

/// Scans forward from byte offset `off` to the start of row `r` of the
/// remaining suffix.
pub fn row_start_from(text: &Vec<u8>, off: usize, r: u32) -> (o: usize)
    requires
        off <= text@.len(),
    ensures
        o == off + line_start(text@.skip(off as int), r as int),
        off <= o <= text@.len(),
{
    let ghost s = text@.skip(off as int);
    let n = text.len();
    let mut i: usize = 0;
    let mut seen: u32 = 0;
    proof {
        assert(s.take(0) =~= Seq::<u8>::empty());
    }
    while off + i < n && seen < r
        invariant
            n == text@.len(),
            off <= text@.len(),
            s == text@.skip(off as int),
            0 <= i <= s.len(),
            off + i <= text@.len(),
            seen == summary_of(s.take(i as int)).rows,
            seen <= r,
            seen < r || (i == 0 || s[i as int - 1] == NEWLINE),
        decreases s.len() - i,
    {
        proof {
            assert(s.take(i + 1).drop_last() =~= s.take(i as int));
            assert(s.take(i + 1).last() == s[i as int] == text@[off + i]);
            crate::summary::lemma_summary_le_len(s.take(i + 1));
        }
        if text[off + i] == NEWLINE {
            seen = seen + 1;
        }
        i = i + 1;
    }
    proof {
        lemma_line_start_decompose(s, i as int, r as int);
        if seen == r {
            assert(line_start(s.skip(i as int), 0) == 0);
        } else {
            assert(i == s.len());
            assert(s.skip(i as int) =~= Seq::<u8>::empty());
        }
        lemma_line_start_bounds(s, r as int);
    }
    off + i
}

/// An immutable, versioned view of the input layer's text: rows of bytes
/// separated by line feeds, already expanded for tab stops.
#[derive(Clone, Debug)]
pub struct InputSnapshot {
    pub text: Vec<u8>,
    pub version: usize,
}

impl InputSnapshot {
    pub open spec fn wf(&self) -> bool {
        self.text@.len() <= u32::MAX
    }

    pub fn new(text: Vec<u8>, version: usize) -> (r: InputSnapshot)
        requires
            text@.len() <= u32::MAX,
        ensures
            r.text@ == text@,
            r.version == version,
            r.wf(),
    {
        InputSnapshot { text, version }
    }

    pub fn version(&self) -> (r: usize)
        ensures
            r == self.version,
    {
        self.version
    }

    /// The position just past the last byte of the text.
    pub fn max_point(&self) -> (r: InputPoint)
        requires
            self.wf(),
        ensures
            r.0.row == summary_of(self.text@).rows,
            r.0.column == summary_of(self.text@).last,
    {
        let s = self.text_summary();
        InputPoint::new(s.lines.row, s.lines.column)
    }

    /// The aggregate of the whole text.
    pub fn text_summary(&self) -> (r: TextSummary)
        requires
            self.wf(),
        ensures
            models(r, summary_of(self.text@)),
    {
        proof {
            assert(self.text@.subrange(0, self.text@.len() as int) =~= self.text@);
        }
        summary_of_range(&self.text, 0, self.text.len())
    }

    /// Byte offset at which row `r` starts.
    pub fn row_start(&self, r: u32) -> (o: usize)
        requires
            self.wf(),
        ensures
            o == line_start(self.text@, r as int),
    {
        proof {
            assert(self.text@.skip(0) =~= self.text@);
        }
        row_start_from(&self.text, 0, r)
    }

    /// The aggregate of the text spanned by rows `start_row..end_row`
    /// (from the start of `start_row` up to the start of `end_row`).
    pub fn text_summary_for_rows(&self, start_row: u32, end_row: u32) -> (r: TextSummary)
        requires
            self.wf(),
            start_row <= end_row,
        ensures
            models(
                r,
                summary_of(
                    self.text@.subrange(
                        line_start(self.text@, start_row as int),
                        line_start(self.text@, end_row as int),
                    ),
                ),
            ),
    {
        let a = self.row_start(start_row);
        let b = self.row_start(end_row);
        proof {
            lemma_line_start_mono(self.text@, start_row as int, end_row as int);
            lemma_line_start_bounds(self.text@, end_row as int);
        }
        summary_of_range(&self.text, a, b)
    }
}

/// An edit reported by the input layer: the half-open span of positions
/// it replaced in the old text and the span now standing there in the new
/// text.  Wrapping is recomputed for whole rows, so only the row parts
/// are consulted.
#[derive(Copy, Clone, Debug)]
pub struct Edit {
    pub old_lines_start: InputPoint,
    pub old_lines_end: InputPoint,
    pub new_lines_start: InputPoint,
    pub new_lines_end: InputPoint,
}

} // verus!
