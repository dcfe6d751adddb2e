use vstd::prelude::*;
use crate::input::{InputSnapshot, line_start, row_start_from};
use crate::point::OutputPoint;
use crate::summary::{NEWLINE, TextSummary, models, summary_of};
use crate::transform::Transform;

verus! {

/// Input byte offset at which an isomorphic transform that begins at
/// byte offset `off` and has aggregate `t` ends: past `t.lines.row` full
/// rows and `t.lines.column` further bytes.
pub open spec fn iso_end(text: Seq<u8>, off: int, t: TextSummary) -> int {
    if t.lines.row == 0 {
        off + t.lines.column
    } else {
        off + line_start(text.skip(off), t.lines.row as int) + t.lines.column
    }
}

/// The transforms from index `i` on lay out the rest of the text from
/// byte offset `off`: isomorphic transforms cover adjacent non-empty
/// spans whose aggregates they record exactly, wrap points stand between
/// them, and together they reach the end of the text.
pub open spec fn wf_from(ts: Seq<Transform>, text: Seq<u8>, i: int, off: int) -> bool
    decreases ts.len() - i,
{
    if i < 0 || i >= ts.len() {
        off == text.len()
    } else {
        match ts[i] {
            Transform::Newline => wf_from(ts, text, i + 1, off),
            Transform::Isomorphic(s) => {
                let e = iso_end(text, off, s);
                &&& s.lines.row > 0 || s.lines.column > 0
                &&& 0 <= off <= e <= text.len()
                &&& models(s, summary_of(text.subrange(off, e)))
                &&& wf_from(ts, text, i + 1, e)
            },
        }
    }
}

/// The output text produced by the transforms from index `i` on, reading
/// input from byte offset `off`: isomorphic spans verbatim, one line
/// break per wrap point.
pub open spec fn output_from(ts: Seq<Transform>, text: Seq<u8>, i: int, off: int) -> Seq<u8>
    decreases ts.len() - i,
{
    if i < 0 || i >= ts.len() {
        Seq::empty()
    } else {
        match ts[i] {
            Transform::Newline => seq![NEWLINE] + output_from(ts, text, i + 1, off),
            Transform::Isomorphic(s) => {
                let e0 = iso_end(text, off, s);
                let e = if 0 <= off <= e0 <= text.len() {
                    e0
                } else {
                    off
                };
                text.subrange(off, e) + output_from(ts, text, i + 1, e)
            },
        }
    }
}

/// The input byte offsets at which the transforms from `i` on insert a
/// line break into the output, in the order the wrap points appear.
pub open spec fn breaks_from(ts: Seq<Transform>, text: Seq<u8>, i: int, off: int) -> Seq<int>
    decreases ts.len() - i,
{
    if i < 0 || i >= ts.len() {
        Seq::empty()
    } else {
        match ts[i] {
            Transform::Newline => seq![off] + breaks_from(ts, text, i + 1, off),
            Transform::Isomorphic(s) => {
                let e0 = iso_end(text, off, s);
                let e = if 0 <= off <= e0 <= text.len() {
                    e0
                } else {
                    off
                };
                breaks_from(ts, text, i + 1, e)
            },
        }
    }
}

/// The text from byte `off` on with one line break inserted at each of
/// the offsets `bs`.
pub open spec fn with_breaks(text: Seq<u8>, off: int, bs: Seq<int>) -> Seq<u8>
    decreases bs.len(),
{
    if bs.len() == 0 {
        text.skip(off)
    } else {
        let b = if off <= bs[0] <= text.len() {
            bs[0]
        } else {
            off
        };
        text.subrange(off, b) + seq![crate::summary::NEWLINE] + with_breaks(text, b, bs.skip(1))
    }
}

/// Byte length of row `r` of `s`: up to its line feed, or to the end of
/// the text for the last row.
pub open spec fn row_len(s: Seq<u8>, r: int) -> int {
    if r == summary_of(s).rows {
        s.len() - line_start(s, r)
    } else {
        line_start(s, r + 1) - 1 - line_start(s, r)
    }
}

/// `(row, col)` names an actual position of `s`, the end of a row
/// included.
pub open spec fn valid_point(s: Seq<u8>, row: int, col: int) -> bool {
    0 <= row <= summary_of(s).rows && 0 <= col <= row_len(s, row)
}

/// Byte offset of position `(row, col)` of `s`.
pub open spec fn point_offset(s: Seq<u8>, row: int, col: int) -> int {
    line_start(s, row) + col
}

/// Output position at which a transform that starts at `(row, col)`
/// ends.
pub open spec fn out_end_after(t: Transform, row: int, col: int) -> (int, int) {
    match t {
        Transform::Isomorphic(s) => if s.lines.row == 0 {
            (row, col + s.lines.column)
        } else {
            (row + s.lines.row, s.lines.column as int)
        },
        Transform::Newline => (row + 1, 0int),
    }
}

/// Longer prefixes of a text never hold fewer line feeds, and no prefix
/// holds more than the whole text.
pub proof fn lemma_rows_mono(u: Seq<u8>, a: int, b: int)
    requires
        0 <= a <= b <= u.len(),
    ensures
        summary_of(u.take(a)).rows <= summary_of(u.take(b)).rows,
        summary_of(u.take(b)).rows <= summary_of(u).rows,
{
    assert(u.take(b) =~= u.take(a) + u.subrange(a, b));
    crate::summary::lemma_summary_combine(u.take(a), u.subrange(a, b));
    crate::summary::lemma_summary_wf(u.subrange(a, b));
    assert(u =~= u.take(b) + u.skip(b));
    crate::summary::lemma_summary_combine(u.take(b), u.skip(b));
    crate::summary::lemma_summary_wf(u.skip(b));
}

/// Every position splits its text at the start of its row plus its
/// column: the row holding the first `o` bytes' end starts `last` bytes
/// before `o`.
pub proof fn lemma_offset_char(u: Seq<u8>, o: int)
    requires
        0 <= o <= u.len(),
    ensures
        line_start(u, summary_of(u.take(o)).rows) == o - summary_of(u.take(o)).last,
{
    let t = u.take(o);
    crate::summary::lemma_summary_wf(t);
    crate::summary::lemma_summary_le_len(t);
    let r = summary_of(t).rows;
    crate::input::lemma_line_start_char(t, r);
    assert(t.take(o) =~= t);
    crate::wrapper::lemma_line_start_agree(t, u, o, r);
}

/// Where the seek stops inside an isomorphic transform, a valid output
/// position resolves to the input byte found by walking the residual
/// rows and columns from the transform's start: that byte's distance
/// from the transform's start equals the position's distance from the
/// transform's output start.
proof fn lemma_iso_exit_offset(
    text: Seq<u8>,
    out: Seq<u8>,
    s: TextSummary,
    in_off: int,
    end_in: int,
    out_off: int,
    row: int,
    col: int,
    prow: int,
    pcol: int,
)
    requires
        0 <= in_off <= end_in <= text.len(),
        models(s, summary_of(text.subrange(in_off, end_in))),
        end_in == iso_end(text, in_off, s),
        0 <= out_off <= out.len(),
        out.len() - out_off >= end_in - in_off,
        out.skip(out_off).take(end_in - in_off) == text.subrange(in_off, end_in),
        row == summary_of(out.take(out_off)).rows,
        col == summary_of(out.take(out_off)).last,
        row < prow || (row == prow && col <= pcol),
        out_end_after(Transform::Isomorphic(s), row, col).0 > prow || (out_end_after(
            Transform::Isomorphic(s),
            row,
            col,
        ).0 == prow && out_end_after(Transform::Isomorphic(s), row, col).1 > pcol),
        valid_point(out, prow, pcol),
    ensures
        ({
            let rrow = prow - row;
            let rcol = if prow == row {
                pcol - col
            } else {
                pcol
            };
            let tsp = in_off + line_start(text.skip(in_off), rrow) + rcol;
            tsp < end_in && point_offset(out, prow, pcol) == out_off + (tsp - in_off)
        }),
{
    let srow = s.lines.row as int;
    let scol = s.lines.column as int;
    let l2 = end_in - in_off;
    let span2 = text.subrange(in_off, end_in);
    let rrow = prow - row;
    let rcol: int = if prow == row {
        pcol - col
    } else {
        pcol
    };
    crate::summary::lemma_summary_wf(span2);
    crate::summary::lemma_summary_le_len(span2);
    assert(text.skip(in_off).take(l2) =~= span2);
    assert forall|q: int| 0 <= q < out_off + l2 implies out.take(out_off + l2)[q] == (out.take(
        out_off,
    ) + span2)[q] by {
        if q >= out_off {
            assert(out.skip(out_off)[q - out_off] == out[q]);
            assert(out.skip(out_off).take(l2)[q - out_off] == out.skip(out_off)[q - out_off]);
        }
    }
    assert(out.take(out_off + l2) =~= out.take(out_off) + span2);
    crate::summary::lemma_summary_combine(out.take(out_off), span2);
    lemma_rows_mono(out, out_off + l2, out.len() as int);
    assert(out.take(out.len() as int) =~= out);
    lemma_offset_char(out, out_off);
    assert(line_start(out, row) == out_off - col);
    if rrow == 0 {
        assert(line_start(text.skip(in_off), 0) == 0);
        if srow == 0 {
            assert(col + scol > pcol);
            assert(end_in - in_off == scol);
        } else {
            assert(summary_of(out.take(out_off + l2)).rows == row + srow);
            assert(prow < summary_of(out).rows);
            crate::input::lemma_line_start_decompose(out, out_off, prow + 1);
            crate::wrapper::lemma_line_start_agree(text.skip(in_off), out.skip(out_off), l2, 1);
            crate::input::lemma_line_start_mono(text.skip(in_off), 1, srow);
            assert(line_start(out, prow + 1) == out_off + line_start(text.skip(in_off), 1));
            assert(pcol - col <= line_start(text.skip(in_off), 1) - 1);
            assert(end_in - in_off == line_start(text.skip(in_off), srow) + scol);
        }
    } else {
        assert(srow > 0);
        assert(srow >= rrow);
        crate::input::lemma_line_start_decompose(out, out_off, prow);
        crate::wrapper::lemma_line_start_agree(text.skip(in_off), out.skip(out_off), l2, rrow);
        assert(line_start(out, prow) == out_off + line_start(text.skip(in_off), rrow));
        if srow == rrow {
            assert(scol > pcol);
            assert(end_in - in_off == line_start(text.skip(in_off), srow) + scol);
        } else {
            assert(summary_of(out.take(out_off + l2)).rows == row + srow);
            assert(prow < summary_of(out).rows);
            crate::input::lemma_line_start_decompose(out, out_off, prow + 1);
            crate::wrapper::lemma_line_start_agree(
                text.skip(in_off),
                out.skip(out_off),
                l2,
                rrow + 1,
            );
            crate::input::lemma_line_start_mono(text.skip(in_off), rrow + 1, srow);
            assert(line_start(out, prow + 1) == out_off + line_start(
                text.skip(in_off),
                rrow + 1,
            ));
            assert(pcol <= line_start(text.skip(in_off), rrow + 1) - 1 - line_start(
                text.skip(in_off),
                rrow,
            ));
            assert(end_in - in_off == line_start(text.skip(in_off), srow) + scol);
        }
    }
}

/// An immutable view of the whole wrap mapping: the transform sequence,
/// the input snapshot it was built from, and that input's version.
#[derive(Clone, Debug)]
pub struct Snapshot {
    pub transforms: Vec<Transform>,
    pub input: InputSnapshot,
    pub version: usize,
}

impl Snapshot {
    pub open spec fn wf(&self) -> bool {
        &&& self.input.wf()
        &&& wf_from(self.transforms@, self.input.text@, 0, 0)
    }

    /// The full output text this snapshot describes.
    pub open spec fn output(&self) -> Seq<u8> {
        output_from(self.transforms@, self.input.text@, 0, 0)
    }

    /// The snapshot that wraps nothing yet: the whole input is covered
    /// by a single isomorphic transform (none, if the input is empty),
    /// so the output text equals the input text.
    pub fn new(input: InputSnapshot) -> (r: Snapshot)
        requires
            input.wf(),
        ensures
            r.wf(),
            r.input == input,
            r.version == input.version,
            r.output() == input.text@,
            r.transforms@.len() == (if input.text@.len() == 0 { 0int } else { 1int }),
            input.text@.len() > 0 ==> r.transforms@[0] == Transform::Isomorphic(
                r.transforms@[0]->Isomorphic_0,
            ) && models(r.transforms@[0]->Isomorphic_0, summary_of(input.text@)),
            breaks_from(r.transforms@, input.text@, 0, 0) == Seq::<int>::empty(),
    {
        let summary = input.text_summary();
        let version = input.version();
        let mut transforms: Vec<Transform> = Vec::new();
        if summary.lines.row > 0 || summary.lines.column > 0 {
            transforms.push(Transform::isomorphic(summary));
        }
        proof {
            let text = input.text@;
            let n = text.len() as int;
            crate::summary::lemma_summary_wf(text);
            crate::input::lemma_line_start_char(text, summary_of(text).rows);
            assert(text.skip(0) =~= text);
            assert(text.subrange(0, n) =~= text);
            if summary.lines.row > 0 || summary.lines.column > 0 {
                assert(n > 0);
                assert(iso_end(text, 0, summary) == n);
                assert(breaks_from(transforms@, text, 1, n) == Seq::<int>::empty());
                assert(breaks_from(transforms@, text, 0, 0) == Seq::<int>::empty());
                assert(wf_from(transforms@, text, 1, n));
                assert(output_from(transforms@, text, 1, n) =~= Seq::<u8>::empty());
                assert(output_from(transforms@, text, 0, 0) == text.subrange(0, n)
                    + output_from(transforms@, text, 1, n));
                assert(output_from(transforms@, text, 0, 0) =~= text);
            } else {
                assert(n == 0);
                assert(output_from(transforms@, text, 0, 0) =~= text);
                assert(breaks_from(transforms@, text, 0, 0) == Seq::<int>::empty());
            }
        }
        Snapshot { transforms, input, version }
    }

    pub fn version(&self) -> (v: usize)
        ensures
            v == self.version,
    {
        self.version
    }

    /// Opens a chunk iterator at `point`, an output-space position.  A
    /// position exactly at a transform boundary resolves to the
    /// transform that starts there.  For any position the output text
    /// actually contains, the chunks yielded, concatenated, are exactly
    /// the output text from that position's byte offset to the document
    /// end; for any other argument they are still some suffix of the
    /// output text.
    #[verifier::rlimit(60)]
    pub fn chunks_at(&self, point: OutputPoint) -> (c: Chunks<'_>)
        requires
            self.wf(),
        ensures
            c.wf(),
            c.transforms@ == self.transforms@,
            c.text@ == self.input.text@,
            exists|o: int|
                0 <= o <= self.output().len() && c.remaining() == #[trigger] self.output().skip(o),
            point.0.row == 0 && point.0.column == 0 ==> c.remaining() == self.output(),
            valid_point(self.output(), point.0.row as int, point.0.column as int)
                ==> c.remaining() == self.output().skip(
                point_offset(self.output(), point.0.row as int, point.0.column as int),
            ),
    {
        let ghost ts = self.transforms@;
        let ghost text = self.input.text@;
        let ghost out = self.output();
        let prow: u64 = point.0.row as u64;
        let pcol: u64 = point.0.column as u64;
        let mut ix: usize = 0;
        let mut in_off: usize = 0;
        let mut row: u64 = 0;
        let mut col: u64 = 0;
        let ghost mut out_off: int = 0;
        proof {
            assert(out.take(0) =~= Seq::<u8>::empty());
        }
        loop
            invariant
                self.wf(),
                ts == self.transforms@,
                text == self.input.text@,
                out == self.output(),
                prow == point.0.row,
                pcol == point.0.column,
                ix <= ts.len(),
                in_off <= text.len(),
                wf_from(ts, text, ix as int, in_off as int),
                output_from(ts, text, ix as int, in_off as int) == out.skip(out_off),
                0 <= out_off <= out.len(),
                row < prow || (row == prow && col <= pcol),
                col <= in_off,
                row as int == summary_of(out.take(out_off)).rows,
                col as int == summary_of(out.take(out_off)).last,
                (prow == 0 && pcol == 0) ==> (ix == 0 && in_off == 0 && out_off == 0),
            ensures
                ix == ts.len() || out_end_after(ts[ix as int], row as int, col as int).0 > prow
                    || (out_end_after(ts[ix as int], row as int, col as int).0 == prow
                    && out_end_after(ts[ix as int], row as int, col as int).1 > pcol),
            decreases ts.len() - ix,
        {
            if ix >= self.transforms.len() {
                break;
            }
            let t = self.transforms[ix];
            let erow: u64;
            let ecol: u64;
            match t {
                Transform::Isomorphic(s) => {
                    if s.lines.row == 0 {
                        erow = row;
                        ecol = col + s.lines.column as u64;
                    } else {
                        erow = row + s.lines.row as u64;
                        ecol = s.lines.column as u64;
                    }
                },
                Transform::Newline => {
                    erow = row + 1;
                    ecol = 0;
                },
            }
            if erow < prow || (erow == prow && ecol <= pcol) {
                let ghost span: Seq<u8> = match t {
                    Transform::Isomorphic(s) => text.subrange(
                        in_off as int,
                        iso_end(text, in_off as int, s),
                    ),
                    Transform::Newline => seq![NEWLINE],
                };
                proof {
                    assert(out.skip(out_off) == span + output_from(
                        ts,
                        text,
                        ix + 1,
                        match t {
                            Transform::Isomorphic(s) => iso_end(text, in_off as int, s),
                            Transform::Newline => in_off as int,
                        },
                    ));
                }
                match t {
                    Transform::Isomorphic(s) => {
                        let e = iso_end_exec(&self.input.text, in_off, s);
                        proof {
                            crate::summary::lemma_summary_le_len(
                                text.subrange(in_off as int, e as int),
                            );
                        }
                        in_off = e;
                    },
                    Transform::Newline => {},
                }
                proof {
                    let l = span.len() as int;
                    assert(out.skip(out_off).skip(l) =~= out.skip(out_off + l));
                    assert((span + output_from(ts, text, ix + 1, in_off as int)).skip(l)
                        =~= output_from(ts, text, ix + 1, in_off as int));
                    assert(out.skip(out_off).len() == out.len() - out_off);
                    assert(out.skip(out_off).len() == l + output_from(
                        ts,
                        text,
                        ix + 1,
                        in_off as int,
                    ).len());
                    assert forall|q: int| 0 <= q < out_off + l implies out.take(out_off + l)[q]
                        == (out.take(out_off) + span)[q] by {
                        if q >= out_off {
                            assert(out.skip(out_off)[q - out_off] == out[q]);
                            assert((span + output_from(ts, text, ix + 1, in_off as int))[q
                                - out_off] == span[q - out_off]);
                        }
                    }
                    assert(out.take(out_off + l) =~= out.take(out_off) + span);
                    crate::summary::lemma_summary_combine(out.take(out_off), span);
                    match t {
                        Transform::Isomorphic(s) => {
                            assert(models(s, summary_of(span)));
                        },
                        Transform::Newline => {
                            crate::transform::lemma_newline_summary();
                        },
                    }
                    assert(erow as int == summary_of(out.take(out_off + l)).rows);
                    assert(ecol as int == summary_of(out.take(out_off + l)).last);
                    out_off = out_off + l;
                    if prow == 0 && pcol == 0 {
                        assert(false);
                    }
                }
                row = erow;
                col = ecol;
                ix = ix + 1;
            } else {
                break;
            }
        }
        let rrow: u32 = (prow - row) as u32;
        let rcol: u32 = if row == prow {
            (pcol - col) as u32
        } else {
            point.0.column
        };
        if ix < self.transforms.len() {
            let t = self.transforms[ix];
            match t {
                Transform::Isomorphic(s) => {
                    let end_in = iso_end_exec(&self.input.text, in_off, s);
                    let rs: usize = if rrow == 0 {
                        in_off
                    } else {
                        row_start_from(&self.input.text, in_off, rrow)
                    };
                    let t0: u64 = rs as u64 + rcol as u64;
                    let target: usize = if t0 < end_in as u64 {
                        t0 as usize
                    } else {
                        end_in
                    };
                    let c = Chunks {
                        transforms: &self.transforms,
                        text: &self.input.text,
                        ix,
                        off: target,
                        end_off: end_in,
                    };
                    proof {
                        let d = target - in_off;
                        assert(out.skip(out_off) == text.subrange(in_off as int, end_in as int)
                            + output_from(ts, text, ix + 1, end_in as int));
                        assert(out.skip(out_off + d) =~= out.skip(out_off).skip(d));
                        assert((text.subrange(in_off as int, end_in as int) + output_from(
                            ts,
                            text,
                            ix + 1,
                            end_in as int,
                        )).skip(d) =~= text.subrange(target as int, end_in as int) + output_from(
                            ts,
                            text,
                            ix + 1,
                            end_in as int,
                        ));
                        assert(c.remaining() == out.skip(out_off + d));
                        assert(0 <= out_off + d <= out.len());
                        if prow == 0 && pcol == 0 {
                            assert(target == in_off);
                            assert(c.remaining() == out.skip(0));
                            assert(out.skip(0) =~= out);
                        }
                        if valid_point(out, prow as int, pcol as int) {
                            assert(ts[ix as int] == Transform::Isomorphic(s));
                            assert(models(s, summary_of(
                                text.subrange(in_off as int, end_in as int),
                            )));
                            assert(out.skip(out_off).len() == out.len() - out_off);
                            assert(out.skip(out_off).len() == (end_in - in_off) + output_from(
                                ts,
                                text,
                                ix + 1,
                                end_in as int,
                            ).len());
                            assert(out.skip(out_off).take(end_in - in_off) =~= text.subrange(
                                in_off as int,
                                end_in as int,
                            ));
                            lemma_iso_exit_offset(
                                text,
                                out,
                                s,
                                in_off as int,
                                end_in as int,
                                out_off,
                                row as int,
                                col as int,
                                prow as int,
                                pcol as int,
                            );
                            assert(line_start(text.skip(in_off as int), 0) == 0);
                            assert(rs as int == in_off + line_start(
                                text.skip(in_off as int),
                                rrow as int,
                            ));
                            assert(t0 as int == rs + rcol);
                            assert(t0 < end_in as u64);
                            assert(target as int == rs + rcol);
                            assert(point_offset(out, prow as int, pcol as int) == out_off + (
                            target - in_off));
                            assert(c.remaining() == out.skip(point_offset(
                                out,
                                prow as int,
                                pcol as int,
                            )));
                        }
                    }
                    c
                },
                Transform::Newline => {
                    let c = Chunks {
                        transforms: &self.transforms,
                        text: &self.input.text,
                        ix,
                        off: in_off,
                        end_off: in_off,
                    };
                    proof {
                        assert(c.remaining() == out.skip(out_off));
                        if prow == 0 && pcol == 0 {
                            assert(out.skip(0) =~= out);
                        }
                        if valid_point(out, prow as int, pcol as int) {
                            let vr = prow as int;
                            let vc = pcol as int;
                            assert(out.skip(out_off) == seq![NEWLINE] + output_from(
                                ts,
                                text,
                                ix + 1,
                                in_off as int,
                            ));
                            assert(out.skip(out_off).len() == out.len() - out_off);
                            assert(out.skip(out_off).len() > 0);
                            assert(out_off < out.len());
                            assert(out.skip(out_off)[0] == out[out_off]);
                            assert(out[out_off] == NEWLINE);
                            assert(out_end_after(ts[ix as int], row as int, col as int).0
                                == row + 1);
                            assert(row == prow);
                            assert(out.take(out_off + 1).drop_last() =~= out.take(out_off));
                            assert(out.take(out_off + 1).last() == NEWLINE);
                            assert(summary_of(out.take(out_off + 1)).rows == row + 1);
                            lemma_rows_mono(out, out_off + 1, out.len() as int);
                            assert(out.take(out.len() as int) =~= out);
                            assert(vr < summary_of(out).rows);
                            crate::input::lemma_line_start_decompose(out, out_off + 1, vr + 1);
                            assert(line_start(out.skip(out_off + 1), 0) == 0);
                            assert(line_start(out, vr + 1) == out_off + 1);
                            lemma_offset_char(out, out_off);
                            assert(line_start(out, vr) == out_off - col);
                            assert(vc == col);
                            assert(point_offset(out, vr, vc) == out_off);
                        }
                    }
                    c
                },
            }
        } else {
            let c = Chunks {
                transforms: &self.transforms,
                text: &self.input.text,
                ix,
                off: in_off,
                end_off: in_off,
            };
            proof {
                assert(c.remaining() == out.skip(out_off));
                if prow == 0 && pcol == 0 {
                    assert(out.skip(0) =~= out);
                }
                if valid_point(out, prow as int, pcol as int) {
                    let vr = prow as int;
                    let vc = pcol as int;
                    assert(output_from(ts, text, ix as int, in_off as int)
                        == Seq::<u8>::empty());
                    assert(out.skip(out_off).len() == 0);
                    assert(out.skip(out_off).len() == out.len() - out_off);
                    assert(out_off == out.len());
                    assert(out.take(out_off) =~= out);
                    assert(row as int == summary_of(out).rows);
                    assert(row == prow);
                    crate::summary::lemma_summary_wf(out);
                    crate::summary::lemma_summary_le_len(out);
                    crate::input::lemma_line_start_char(out, summary_of(out).rows);
                    assert(line_start(out, vr) == out.len() - col);
                    assert(vc == col);
                    assert(point_offset(out, vr, vc) == out.len());
                    assert(out.skip(out.len() as int) =~= Seq::<u8>::empty());
                    assert(c.remaining() == out.skip(point_offset(out, vr, vc)));
                }
            }
            c
        }
    }
}

/// Finds the end offset of an isomorphic span that starts at `off` by
/// scanning past its row extent and adding its trailing columns.
pub(crate) fn iso_end_exec(text: &Vec<u8>, off: usize, s: TextSummary) -> (e: usize)
    requires
        off <= text@.len(),
        iso_end(text@, off as int, s) <= text@.len(),
    ensures
        e == iso_end(text@, off as int, s),
        off <= e <= text@.len(),
{
    let n = text.len();
    if s.lines.row == 0 {
        off + s.lines.column as usize
    } else {
        let rs = row_start_from(text, off, s.lines.row);
        rs + s.lines.column as usize
    }
}

/// An isomorphic transform's span is never empty: its aggregate is
/// non-zero, and the empty span's aggregate is zero.
pub(crate) proof fn lemma_iso_nonempty(text: Seq<u8>, off: int, e: int, s: TextSummary)
    requires
        0 <= off <= e <= text.len(),
        models(s, summary_of(text.subrange(off, e))),
        s.lines.row > 0 || s.lines.column > 0,
    ensures
        e > off,
{
    if e == off {
        assert(text.subrange(off, e) =~= Seq::<u8>::empty());
    }
}

/// A lazy, forward-only chunk producer over a snapshot's output text.
/// `ix` is the transform being consumed, `off` the input byte it has
/// reached, and `end_off` the input byte at which the current transform
/// ends.
pub struct Chunks<'a> {
    pub transforms: &'a Vec<Transform>,
    pub text: &'a Vec<u8>,
    pub ix: usize,
    pub off: usize,
    pub end_off: usize,
}

impl<'a> Chunks<'a> {
    pub open spec fn wf(self) -> bool {
        &&& self.ix <= self.transforms@.len()
        &&& self.off <= self.end_off <= self.text@.len()
        &&& if self.ix < self.transforms@.len() && self.transforms@[self.ix as int]
            is Isomorphic {
            wf_from(self.transforms@, self.text@, self.ix as int + 1, self.end_off as int)
        } else {
            self.end_off == self.off && wf_from(
                self.transforms@,
                self.text@,
                self.ix as int,
                self.off as int,
            )
        }
    }

    /// The output text still to be yielded.
    pub open spec fn remaining(self) -> Seq<u8> {
        if self.ix < self.transforms@.len() && self.transforms@[self.ix as int] is Isomorphic {
            self.text@.subrange(self.off as int, self.end_off as int) + output_from(
                self.transforms@,
                self.text@,
                self.ix as int + 1,
                self.end_off as int,
            )
        } else {
            output_from(self.transforms@, self.text@, self.ix as int, self.off as int)
        }
    }

    /// Yields the next text fragment and steps past the transform that
    /// produced it: the rest of the current transform's span for an
    /// isomorphic transform, exactly the one-byte synthetic line break
    /// for a wrap point; `None` exactly when the output is exhausted.
    /// Every fragment is non-empty, so the remaining output strictly
    /// shrinks and a drain loop terminates.
    pub fn next(&mut self) -> (r: Option<Vec<u8>>)
        requires
            old(self).wf(),
        ensures
            final(self).wf(),
            final(self).transforms@ == old(self).transforms@,
            final(self).text@ == old(self).text@,
            match r {
                Option::None => old(self).remaining() == Seq::<u8>::empty()
                    && final(self).remaining() == Seq::<u8>::empty(),
                Option::Some(c) => c@.len() > 0 && old(self).remaining() == c@
                    + final(self).remaining() && 1 <= final(self).ix <= old(
                    self,
                ).transforms@.len() && match old(self).transforms@[final(self).ix - 1] {
                    Transform::Newline => c@ == seq![NEWLINE],
                    Transform::Isomorphic(_) => c@ == old(self).text@.subrange(
                        final(self).off - c@.len(),
                        final(self).off as int,
                    ),
                },
            },
    {
        let ghost ts = self.transforms@;
        let ghost text = self.text@;
        // A span that was already fully consumed when the iterator was
        // opened contributes nothing: step past it first.
        if self.ix < self.transforms.len() && self.off == self.end_off {
            let t0 = self.transforms[self.ix];
            match t0 {
                Transform::Isomorphic(_) => {
                    proof {
                        assert(old(self).remaining() =~= output_from(
                            ts,
                            text,
                            self.ix as int + 1,
                            self.off as int,
                        ));
                    }
                    self.ix = self.ix + 1;
                    if self.ix < self.transforms.len() {
                        let t1 = self.transforms[self.ix];
                        match t1 {
                            Transform::Isomorphic(s1) => {
                                let e1 = iso_end_exec(self.text, self.off, s1);
                                proof {
                                    lemma_iso_nonempty(text, self.off as int, e1 as int, s1);
                                }
                                self.end_off = e1;
                                proof {
                                    assert(output_from(ts, text, self.ix as int, self.off as int)
                                        == text.subrange(self.off as int, self.end_off as int)
                                        + output_from(
                                        ts,
                                        text,
                                        self.ix as int + 1,
                                        self.end_off as int,
                                    ));
                                }
                            },
                            Transform::Newline => {},
                        }
                    }
                },
                Transform::Newline => {},
            }
        }
        let ghost mid = *self;
        proof {
            assert(old(self).remaining() == mid.remaining());
            assert(mid.wf());
            if mid.ix < ts.len() && ts[mid.ix as int] is Isomorphic {
                assert(mid.off < mid.end_off);
            }
        }
        if self.ix >= self.transforms.len() {
            proof {
                assert(mid.remaining() =~= Seq::<u8>::empty());
            }
            return None;
        }
        let t = self.transforms[self.ix];
        let mut chunk: Vec<u8> = Vec::new();
        match t {
            Transform::Newline => {
                chunk.push(NEWLINE);
                proof {
                    assert(chunk@ =~= seq![NEWLINE]);
                }
            },
            Transform::Isomorphic(_) => {
                let mut j = self.off;
                let end = self.end_off;
                while j < end
                    invariant
                        self.off <= j <= end <= self.text@.len(),
                        chunk@ == self.text@.subrange(self.off as int, j as int),
                    decreases end - j,
                {
                    proof {
                        assert(self.text@.subrange(self.off as int, j + 1) =~= self.text@.subrange(
                            self.off as int,
                            j as int,
                        ).push(self.text@[j as int]));
                    }
                    chunk.push(self.text[j]);
                    j = j + 1;
                }
            },
        }
        let ghost i0 = mid.ix as int;
        let ghost off0 = mid.off as int;
        let ghost end0 = mid.end_off as int;
        proof {
            if ts[i0] is Isomorphic {
                assert(mid.remaining() == text.subrange(off0, end0) + output_from(
                    ts,
                    text,
                    i0 + 1,
                    end0,
                ));
                assert(chunk@ == text.subrange(off0, end0));
                assert(chunk@.len() == end0 - off0 > 0);
            } else {
                assert(mid.remaining() == output_from(ts, text, i0, off0));
                assert(end0 == off0);
                assert(output_from(ts, text, i0, off0) == seq![NEWLINE] + output_from(
                    ts,
                    text,
                    i0 + 1,
                    off0,
                ));
                assert(wf_from(ts, text, i0, off0));
                assert(wf_from(ts, text, i0 + 1, off0));
            }
        }
        self.ix = self.ix + 1;
        self.off = self.end_off;
        proof {
            assert(wf_from(ts, text, self.ix as int, self.off as int));
        }
        if self.ix < self.transforms.len() {
            let t2 = self.transforms[self.ix];
            match t2 {
                Transform::Isomorphic(s2) => {
                    let e2 = iso_end_exec(self.text, self.off, s2);
                    self.end_off = e2;
                    proof {
                        assert(output_from(ts, text, self.ix as int, self.off as int)
                            == text.subrange(self.off as int, self.end_off as int) + output_from(
                            ts,
                            text,
                            self.ix as int + 1,
                            self.end_off as int,
                        ));
                    }
                },
                Transform::Newline => {},
            }
        }
        proof {
            assert(mid.remaining() =~= chunk@ + self.remaining());
            assert(self.ix == mid.ix + 1);
            assert(ts[self.ix as int - 1] == ts[i0]);
            if ts[i0] is Isomorphic {
                assert(self.off == mid.end_off);
                assert(chunk@.len() == end0 - off0);
                assert(chunk@ == text.subrange(self.off - chunk@.len(), self.off as int));
            }
        }
        Some(chunk)
    }
}

} // verus!
