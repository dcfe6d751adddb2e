use vstd::prelude::*;
use crate::input::{Edit, InputSnapshot, lemma_line_start_char, lemma_line_start_bounds,
    lemma_line_start_decompose, lemma_line_start_mono, line_start, row_start_from};
use crate::snapshot::{Snapshot, breaks_from, iso_end, iso_end_exec, wf_from};
use crate::summary::{TextSummary, models, summary_of, summary_of_range};
use crate::transform::Transform;
use crate::wrap::{lemma_wrap_acc_props, wrap_boundaries, wrap_boundaries_spec};

verus! {

/// The transforms with indices `i..j` cover the input bytes `off..end`
/// exactly, the way `wf_from` demands of a whole tail: this is the
/// invariant of a transform sequence still under construction.
pub open spec fn wf_span(ts: Seq<Transform>, text: Seq<u8>, i: int, j: int, off: int, end: int) -> bool
    decreases j - i,
{
    if i >= j {
        off == end
    } else {
        match ts[i] {
            Transform::Newline => wf_span(ts, text, i + 1, j, off, end),
            Transform::Isomorphic(s) => {
                let e = iso_end(text, off, s);
                &&& s.lines.row > 0 || s.lines.column > 0
                &&& 0 <= off <= e <= end <= text.len()
                &&& models(s, summary_of(text.subrange(off, e)))
                &&& wf_span(ts, text, i + 1, j, e, end)
            },
        }
    }
}

/// `wf_span` only reads the transforms it spans.
proof fn lemma_wf_span_frame(ts1: Seq<Transform>, ts2: Seq<Transform>, text: Seq<u8>, i: int, j: int, off: int, end: int)
    requires
        wf_span(ts1, text, i, j, off, end),
        0 <= i,
        j <= ts1.len(),
        j <= ts2.len(),
        forall|k: int| i <= k < j ==> ts1[k] == ts2[k],
    ensures
        wf_span(ts2, text, i, j, off, end),
    decreases j - i,
{
    if i < j {
        match ts1[i] {
            Transform::Newline => {
                lemma_wf_span_frame(ts1, ts2, text, i + 1, j, off, end);
            },
            Transform::Isomorphic(s) => {
                lemma_wf_span_frame(ts1, ts2, text, i + 1, j, iso_end(text, off, s), end);
            },
        }
    }
}

/// A covering span grows by one transform appended at its right end.
proof fn lemma_wf_span_snoc(ts: Seq<Transform>, text: Seq<u8>, i: int, j: int, off: int, mid: int, end: int)
    requires
        wf_span(ts, text, i, j, off, mid),
        0 <= i <= j < ts.len(),
        mid <= end,
        match ts[j] {
            Transform::Newline => end == mid,
            Transform::Isomorphic(s) => {
                &&& s.lines.row > 0 || s.lines.column > 0
                &&& 0 <= mid <= end <= text.len()
                &&& iso_end(text, mid, s) == end
                &&& models(s, summary_of(text.subrange(mid, end)))
            },
        },
    ensures
        wf_span(ts, text, i, j + 1, off, end),
    decreases j - i,
{
    if i == j {
        assert(off == mid);
        match ts[j] {
            Transform::Newline => {
                assert(wf_span(ts, text, j + 1, j + 1, end, end));
            },
            Transform::Isomorphic(s) => {
                assert(iso_end(text, mid, s) == end);
                assert(wf_span(ts, text, j + 1, j + 1, end, end));
            },
        }
    } else {
        match ts[i] {
            Transform::Newline => {
                lemma_wf_span_snoc(ts, text, i + 1, j, off, mid, end);
            },
            Transform::Isomorphic(s) => {
                lemma_wf_span_snoc(ts, text, i + 1, j, iso_end(text, off, s), mid, end);
            },
        }
    }
}

/// A span that covers everything up to the end of the text is a
/// well-formed tail.
proof fn lemma_wf_span_to_wf_from(ts: Seq<Transform>, text: Seq<u8>, i: int, off: int)
    requires
        0 <= i,
        wf_span(ts, text, i, ts.len() as int, off, text.len() as int),
    ensures
        wf_from(ts, text, i, off),
    decreases ts.len() - i,
{
    if i < ts.len() {
        match ts[i] {
            Transform::Newline => {
                lemma_wf_span_to_wf_from(ts, text, i + 1, off);
            },
            Transform::Isomorphic(s) => {
                lemma_wf_span_to_wf_from(ts, text, i + 1, iso_end(text, off, s));
            },
        }
    }
}

/// Two suffixes that agree on their first `m` bytes place every row
/// start within those bytes at the same offset.
pub proof fn lemma_line_start_agree(s1: Seq<u8>, s2: Seq<u8>, m: int, r: int)
    requires
        0 <= m <= s1.len(),
        m <= s2.len(),
        s1.take(m) == s2.take(m),
        0 <= r <= summary_of(s1.take(m)).rows,
    ensures
        line_start(s1, r) == line_start(s2, r),
        line_start(s1, r) <= m,
{
    let t = s1.take(m);
    lemma_line_start_char(t, r);
    lemma_line_start_bounds(t, r);
    let ls = line_start(t, r);
    assert(s1.take(ls) =~= t.take(ls));
    assert(s2.take(ls) =~= t.take(ls));
    if r > 0 {
        assert(s1[ls - 1] == t[ls - 1]);
        assert(s2[ls - 1] == t[ls - 1]);
    }
    lemma_line_start_decompose(s1, ls, r);
    lemma_line_start_decompose(s2, ls, r);
    assert(line_start(s1.skip(ls), 0) == 0);
    assert(line_start(s2.skip(ls), 0) == 0);
}

/// An isomorphic transform whose aggregate is that of `text[a..b]` ends
/// exactly at `b` when it starts at `a`.
pub proof fn lemma_iso_end_span(text: Seq<u8>, a: int, b: int, s: TextSummary)
    requires
        0 <= a <= b <= text.len(),
        models(s, summary_of(text.subrange(a, b))),
    ensures
        iso_end(text, a, s) == b,
{
    let sub = text.subrange(a, b);
    let sk = text.skip(a);
    assert(sub =~= sk.take(b - a));
    crate::summary::lemma_summary_wf(sub);
    crate::summary::lemma_summary_le_len(sub);
    let rows = summary_of(sub).rows;
    lemma_line_start_char(sub, rows);
    if rows == 0 {
        assert(line_start(sub, 0) == 0);
    } else {
        assert(sub.take(b - a) =~= sub);
        assert(sk.take(b - a) =~= sub);
        lemma_line_start_agree(sub, sk, b - a, rows);
    }
}

/// A non-empty span has a non-zero aggregate.
proof fn lemma_summary_nonzero(text: Seq<u8>, a: int, b: int)
    requires
        0 <= a < b <= text.len(),
    ensures
        summary_of(text.subrange(a, b)).rows > 0 || summary_of(text.subrange(a, b)).last > 0,
{
    let sub = text.subrange(a, b);
    lemma_line_start_char(sub, 0);
}

/// Equal regions of two texts have equal sub-spans at matching offsets.
proof fn lemma_subrange_transfer(n: Seq<u8>, o: Seq<u8>, na: int, nb: int, oa: int, ob: int, a: int, b: int)
    requires
        0 <= na <= nb <= n.len(),
        0 <= oa <= ob <= o.len(),
        n.subrange(na, nb) == o.subrange(oa, ob),
        oa <= a <= b <= ob,
    ensures
        o.subrange(a, b) == n.subrange(a - oa + na, b - oa + na),
{
    assert(n.subrange(na, nb).len() == nb - na);
    assert(o.subrange(oa, ob).len() == ob - oa);
    assert(n.subrange(na, nb).len() == o.subrange(oa, ob).len());
    assert(nb - na == ob - oa);
    assert forall|t: int| 0 <= t < b - a implies o.subrange(a, b)[t] == n.subrange(
        a - oa + na,
        b - oa + na,
    )[t] by {
        assert(o.subrange(a, b)[t] == o.subrange(oa, ob)[a - oa + t]);
        assert(n.subrange(a - oa + na, b - oa + na)[t] == n.subrange(na, nb)[a - oa + t]);
    }
    assert(o.subrange(a, b) =~= n.subrange(a - oa + na, b - oa + na));
}


/// The break offsets the transforms `i..j` contribute, reading input
/// from byte offset `off`: the bounded counterpart of `breaks_from`.
pub open spec fn breaks_span(ts: Seq<Transform>, text: Seq<u8>, i: int, j: int, off: int) -> Seq<
    int,
>
    decreases j - i,
{
    if i >= j {
        Seq::empty()
    } else {
        match ts[i] {
            Transform::Newline => seq![off] + breaks_span(ts, text, i + 1, j, off),
            Transform::Isomorphic(s) => {
                let e0 = iso_end(text, off, s);
                let e = if 0 <= off <= e0 <= text.len() {
                    e0
                } else {
                    off
                };
                breaks_span(ts, text, i + 1, j, e)
            },
        }
    }
}

/// `breaks_span` only reads the transforms it spans.
proof fn lemma_breaks_span_frame(ts1: Seq<Transform>, ts2: Seq<Transform>, text: Seq<u8>, i: int, j: int, off: int)
    requires
        0 <= i,
        j <= ts1.len(),
        j <= ts2.len(),
        forall|k: int| i <= k < j ==> ts1[k] == ts2[k],
    ensures
        breaks_span(ts1, text, i, j, off) == breaks_span(ts2, text, i, j, off),
    decreases j - i,
{
    if i < j {
        match ts1[i] {
            Transform::Newline => {
                lemma_breaks_span_frame(ts1, ts2, text, i + 1, j, off);
            },
            Transform::Isomorphic(s) => {
                let e0 = iso_end(text, off, s);
                let e = if 0 <= off <= e0 <= text.len() {
                    e0
                } else {
                    off
                };
                lemma_breaks_span_frame(ts1, ts2, text, i + 1, j, e);
            },
        }
    }
}

/// Appending one transform to a covering span appends its break, if any.
proof fn lemma_breaks_span_snoc(ts: Seq<Transform>, text: Seq<u8>, i: int, j: int, off: int, mid: int, end: int)
    requires
        wf_span(ts, text, i, j, off, mid),
        0 <= i <= j < ts.len(),
        mid <= end,
        match ts[j] {
            Transform::Newline => end == mid,
            Transform::Isomorphic(s) => {
                &&& s.lines.row > 0 || s.lines.column > 0
                &&& 0 <= mid <= end <= text.len()
                &&& iso_end(text, mid, s) == end
                &&& models(s, summary_of(text.subrange(mid, end)))
            },
        },
    ensures
        breaks_span(ts, text, i, j + 1, off) == breaks_span(ts, text, i, j, off) + (match ts[j] {
            Transform::Newline => seq![mid],
            Transform::Isomorphic(_) => Seq::<int>::empty(),
        }),
    decreases j - i,
{
    if i == j {
        assert(off == mid);
        match ts[j] {
            Transform::Newline => {
                assert(breaks_span(ts, text, j + 1, j + 1, mid) == Seq::<int>::empty());
                assert(breaks_span(ts, text, i, j + 1, off) =~= Seq::<int>::empty() + seq![mid]);
            },
            Transform::Isomorphic(s) => {
                assert(breaks_span(ts, text, i, j + 1, off) == breaks_span(
                    ts,
                    text,
                    j + 1,
                    j + 1,
                    end,
                ));
                assert(breaks_span(ts, text, i, j + 1, off) =~= Seq::<int>::empty()
                    + Seq::<int>::empty());
            },
        }
    } else {
        match ts[i] {
            Transform::Newline => {
                lemma_breaks_span_snoc(ts, text, i + 1, j, off, mid, end);
                let delta = match ts[j] {
                    Transform::Newline => seq![mid],
                    Transform::Isomorphic(_) => Seq::<int>::empty(),
                };
                assert((seq![off] + breaks_span(ts, text, i + 1, j, off)) + delta =~= seq![off]
                    + (breaks_span(ts, text, i + 1, j, off) + delta));
            },
            Transform::Isomorphic(s) => {
                lemma_breaks_span_snoc(ts, text, i + 1, j, iso_end(text, off, s), mid, end);
            },
        }
    }
}

/// Over a whole tail the bounded and unbounded break listings agree.
proof fn lemma_breaks_span_all(ts: Seq<Transform>, text: Seq<u8>, i: int, off: int)
    requires
        0 <= i,
    ensures
        breaks_span(ts, text, i, ts.len() as int, off) == breaks_from(ts, text, i, off),
    decreases ts.len() - i,
{
    if i < ts.len() {
        match ts[i] {
            Transform::Newline => {
                lemma_breaks_span_all(ts, text, i + 1, off);
            },
            Transform::Isomorphic(s) => {
                let e0 = iso_end(text, off, s);
                let e = if 0 <= off <= e0 <= text.len() {
                    e0
                } else {
                    off
                };
                lemma_breaks_span_all(ts, text, i + 1, e);
            },
        }
    }
}

/// The canonical break offsets of a text wrapped from scratch: row by
/// row, the greedy wrap boundaries of each line as absolute offsets.
pub open spec fn full_wrap_breaks_from(text: Seq<u8>, width: int, off: int) -> Seq<int>
    decreases text.len() - off,
{
    if off < 0 || off >= text.len() {
        Seq::empty()
    } else {
        let e0 = off + line_start(text.skip(off), 1);
        let e = if off + 1 <= e0 <= text.len() {
            e0
        } else {
            off + 1
        };
        wrap_boundaries_spec(text.subrange(off, e), width).map_values(|b: int| off + b)
            + full_wrap_breaks_from(text, width, e)
    }
}

pub open spec fn full_wrap_breaks(text: Seq<u8>, width: int) -> Seq<int> {
    full_wrap_breaks_from(text, width, 0)
}

/// Appends an isomorphic transform for the bytes `a..b` of `text`, whose
/// aggregate is `s`, to a sequence that covers `0..a`.
fn push_iso(ts: &mut Vec<Transform>, s: TextSummary, Ghost(text): Ghost<Seq<u8>>, Ghost(a): Ghost<int>, Ghost(b): Ghost<int>)
    requires
        wf_span(old(ts)@, text, 0, old(ts)@.len() as int, 0, a),
        0 <= a < b <= text.len(),
        models(s, summary_of(text.subrange(a, b))),
    ensures
        final(ts)@ == old(ts)@.push(Transform::Isomorphic(s)),
        wf_span(final(ts)@, text, 0, final(ts)@.len() as int, 0, b),
        breaks_span(final(ts)@, text, 0, final(ts)@.len() as int, 0) == breaks_span(
            old(ts)@,
            text,
            0,
            old(ts)@.len() as int,
            0,
        ),
{
    proof {
        lemma_iso_end_span(text, a, b, s);
        lemma_summary_nonzero(text, a, b);
    }
    let ghost before = ts@;
    ts.push(Transform::isomorphic(s));
    proof {
        lemma_wf_span_frame(before, ts@, text, 0, before.len() as int, 0, a);
        lemma_wf_span_snoc(ts@, text, 0, before.len() as int, 0, a, b);
        lemma_breaks_span_frame(before, ts@, text, 0, before.len() as int, 0);
        lemma_breaks_span_snoc(ts@, text, 0, before.len() as int, 0, a, b);
        assert(breaks_span(ts@, text, 0, ts@.len() as int, 0) =~= breaks_span(
            before,
            text,
            0,
            before.len() as int,
            0,
        ));
    }
}

/// Appends a wrap point to a sequence that covers `0..a`.
fn push_newline(ts: &mut Vec<Transform>, Ghost(text): Ghost<Seq<u8>>, Ghost(a): Ghost<int>)
    requires
        wf_span(old(ts)@, text, 0, old(ts)@.len() as int, 0, a),
        0 <= a <= text.len(),
    ensures
        final(ts)@ == old(ts)@.push(Transform::Newline),
        wf_span(final(ts)@, text, 0, final(ts)@.len() as int, 0, a),
        breaks_span(final(ts)@, text, 0, final(ts)@.len() as int, 0) == breaks_span(
            old(ts)@,
            text,
            0,
            old(ts)@.len() as int,
            0,
        ) + seq![a],
{
    let ghost before = ts@;
    ts.push(Transform::newline());
    proof {
        lemma_wf_span_frame(before, ts@, text, 0, before.len() as int, 0, a);
        lemma_wf_span_snoc(ts@, text, 0, before.len() as int, 0, a, a);
        lemma_breaks_span_frame(before, ts@, text, 0, before.len() as int, 0);
        lemma_breaks_span_snoc(ts@, text, 0, before.len() as int, 0, a, a);
    }
}

/// Wraps one line, the bytes `a..b` of `text`: queries the break
/// offsets, then appends an isomorphic transform per piece with a wrap
/// point after each break.
#[verifier::rlimit(80)]
fn append_wrapped_line(ts: &mut Vec<Transform>, text: &Vec<u8>, a: usize, b: usize, width: u32)
    requires
        wf_span(old(ts)@, text@, 0, old(ts)@.len() as int, 0, a as int),
        a < b <= text@.len(),
        text@.len() <= u32::MAX,
    ensures
        wf_span(final(ts)@, text@, 0, final(ts)@.len() as int, 0, b as int),
        breaks_span(final(ts)@, text@, 0, final(ts)@.len() as int, 0) == breaks_span(
            old(ts)@,
            text@,
            0,
            old(ts)@.len() as int,
            0,
        ) + wrap_boundaries_spec(text@.subrange(a as int, b as int), width as int).map_values(
            |v: int| a + v,
        ),
{
    let ghost line = text@.subrange(a as int, b as int);
    let ghost bks0 = breaks_span(ts@, text@, 0, ts@.len() as int, 0);
    let bs = wrap_boundaries(text, a, b, width);
    let ghost bss = wrap_boundaries_spec(line, width as int);
    proof {
        lemma_wrap_acc_props(line, width as int, 0, 0, 0);
        assert(forall|k: int| 0 <= k < bss.len() ==> bs@[k] as int == bss[k]);
    }
    let mut prev: usize = a;
    let mut k: usize = 0;
    while k < bs.len()
        invariant
            a <= prev < b <= text@.len(),
            text@.len() <= u32::MAX,
            line == text@.subrange(a as int, b as int),
            bss == wrap_boundaries_spec(line, width as int),
            forall|t: int| 0 <= t < bss.len() ==> bs@[t] as int == bss[t],
            bs@.len() == bss.len(),
            forall|t: int| 0 <= t < bss.len() ==> 0 < #[trigger] bss[t] < b - a,
            forall|t: int| 0 <= t && t + 1 < bss.len() ==> #[trigger] bss[t] < bss[t + 1],
            k <= bs@.len(),
            prev as int == if k == 0 { a as int } else { a + bss[k as int - 1] },
            wf_span(ts@, text@, 0, ts@.len() as int, 0, prev as int),
            breaks_span(ts@, text@, 0, ts@.len() as int, 0) == bks0 + bss.take(
                k as int,
            ).map_values(|v: int| a + v),
        decreases bs@.len() - k,
    {
        let ghost bks_before = breaks_span(ts@, text@, 0, ts@.len() as int, 0);
        proof {
            assert(bs@[k as int] as int == bss[k as int]);
            assert(0 < bss[k as int] < b - a);
            if k > 0 {
                assert(bs@[k as int - 1] as int == bss[k as int - 1]);
                assert(bss[k as int - 1] < bss[k as int]);
            }
        }
        let ab = a + bs[k];
        let s = summary_of_range(text, prev, ab);
        push_iso(ts, s, Ghost(text@), Ghost(prev as int), Ghost(ab as int));
        push_newline(ts, Ghost(text@), Ghost(ab as int));
        proof {
            assert(breaks_span(ts@, text@, 0, ts@.len() as int, 0) == bks_before + seq![
                ab as int,
            ]);
            assert(bss.take(k + 1).map_values(|v: int| a + v) =~= bss.take(k as int).map_values(
                |v: int| a + v,
            ).push(a + bss[k as int]));
            assert(breaks_span(ts@, text@, 0, ts@.len() as int, 0) =~= bks0 + bss.take(
                k + 1,
            ).map_values(|v: int| a + v));
        }
        prev = ab;
        k = k + 1;
    }
    let s = summary_of_range(text, prev, b);
    push_iso(ts, s, Ghost(text@), Ghost(prev as int), Ghost(b as int));
    proof {
        assert(bss.take(bss.len() as int) =~= bss);
        assert(breaks_span(ts@, text@, 0, ts@.len() as int, 0) =~= bks0 + bss.map_values(
            |v: int| a + v,
        ));
    }
}

/// Row bounds of the spans an edit replaced: half-open, derived from the
/// point ranges by taking every touched row whole.
pub open spec fn old_r0(e: Edit) -> int {
    e.old_lines_start.0.row as int
}

pub open spec fn old_r1(e: Edit) -> int {
    e.old_lines_end.0.row + 1
}

pub open spec fn new_r0(e: Edit) -> int {
    e.new_lines_start.0.row as int
}

pub open spec fn new_r1(e: Edit) -> int {
    e.new_lines_end.0.row + 1
}

/// Byte offset at which the untouched region after edit `j` ends, on the
/// old and on the new side.
pub open spec fn region_end_old(o: Seq<u8>, es: Seq<Edit>, j: int) -> int {
    if j + 1 < es.len() {
        line_start(o, old_r0(es[j + 1]))
    } else {
        o.len() as int
    }
}

pub open spec fn region_end_new(n: Seq<u8>, es: Seq<Edit>, j: int) -> int {
    if j + 1 < es.len() {
        line_start(n, new_r0(es[j + 1]))
    } else {
        n.len() as int
    }
}

/// What the input layer promises of an edit batch relating the old text
/// `o` to the new text `n`: each range is well-formed, the batch ascends
/// without overlap, and outside the edited rows the two texts agree,
/// region by region, byte for byte.
pub open spec fn edits_ok(o: Seq<u8>, n: Seq<u8>, es: Seq<Edit>) -> bool {
    &&& forall|j: int|
        0 <= j < es.len() ==> (#[trigger] es[j]).old_lines_start.0.row
            <= es[j].old_lines_end.0.row && es[j].new_lines_start.0.row
            <= es[j].new_lines_end.0.row && es[j].old_lines_end.0.row < u32::MAX
            && es[j].new_lines_end.0.row < u32::MAX
    &&& forall|j: int|
        0 <= j && j + 1 < es.len() ==> old_r1(#[trigger] es[j]) <= old_r0(es[j + 1]) && new_r1(
            es[j],
        ) <= new_r0(es[j + 1])
    &&& es.len() > 0 ==> line_start(n, new_r0(es[0])) == line_start(o, old_r0(es[0]))
        && n.subrange(0, line_start(n, new_r0(es[0]))) == o.subrange(
        0,
        line_start(o, old_r0(es[0])),
    )
    &&& forall|j: int|
        0 <= j < es.len() ==> n.subrange(
            line_start(n, new_r1(#[trigger] es[j])),
            region_end_new(n, es, j),
        ) == o.subrange(line_start(o, old_r1(es[j])), region_end_old(o, es, j))
}

/// Recomputes the wrap mapping.  Holds the configured wrap width and the
/// latest snapshot, and applies each batch of edits from the input layer
/// by reusing every transform outside the edited rows and re-wrapping
/// only the rows the batch touches.
pub struct BackgroundWrapper {
    pub snapshot: Snapshot,
    pub wrap_column: u32,
}

impl BackgroundWrapper {
    pub fn new(snapshot: Snapshot, wrap_column: u32) -> (r: BackgroundWrapper)
        ensures
            r.snapshot == snapshot,
            r.wrap_column == wrap_column,
    {
        BackgroundWrapper { snapshot, wrap_column }
    }

    /// Applies a batch of edits: reuses the old transforms before the
    /// first edit and in every untouched region, fills the spans the
    /// reuse cut short with single isomorphic transforms, re-wraps the
    /// edited rows from the new text, and installs the result as the
    /// snapshot with the new input's version.  An empty batch changes
    /// nothing.  When the single edit spans the whole document and the
    /// prior snapshot holds no wrap point — the pass that wraps a fresh
    /// snapshot — the new wrap points sit exactly at the canonical
    /// offsets `full_wrap_breaks` gives; untouched regions of a partial
    /// batch keep their previous wrap points instead, which is the point
    /// of recomputing incrementally.
    #[verifier::loop_isolation(false)]
    #[verifier::rlimit(60)]
    pub fn sync(&mut self, new_input: InputSnapshot, edits: Vec<Edit>)
        requires
            old(self).snapshot.wf(),
            new_input.wf(),
            edits_ok(old(self).snapshot.input.text@, new_input.text@, edits@),
        ensures
            final(self).wrap_column == old(self).wrap_column,
            new_input.version >= old(self).snapshot.version ==> final(self).snapshot.version
                >= old(self).snapshot.version,
            edits@.len() == 0 ==> *final(self) == *old(self),
            edits@.len() > 0 ==> final(self).snapshot.wf() && final(self).snapshot.input
                == new_input && final(self).snapshot.version == new_input.version,
            ({
                &&& edits@.len() == 1
                &&& old_r0(edits@[0]) == 0
                &&& new_r0(edits@[0]) == 0
                &&& old_r1(edits@[0]) > summary_of(old(self).snapshot.input.text@).rows
                &&& new_r1(edits@[0]) > summary_of(new_input.text@).rows
                &&& breaks_from(
                    old(self).snapshot.transforms@,
                    old(self).snapshot.input.text@,
                    0,
                    0,
                ) == Seq::<int>::empty()
            }) ==> breaks_from(final(self).snapshot.transforms@, new_input.text@, 0, 0)
                == full_wrap_breaks(new_input.text@, old(self).wrap_column as int),
    {
        if edits.len() == 0 {
            return;
        }
        let ghost o = self.snapshot.input.text@;
        let ghost n = new_input.text@;
        let ghost es = edits@;
        let ghost ots = self.snapshot.transforms@;
        let ghost wci = self.wrap_column as int;
        let ghost hyp = es.len() == 1 && old_r0(es[0]) == 0 && new_r0(es[0]) == 0 && old_r1(es[0])
            > summary_of(o).rows && new_r1(es[0]) > summary_of(n).rows && breaks_from(ots, o, 0, 0)
            == Seq::<int>::empty();
        let ghost fullb = full_wrap_breaks(n, wci);
        let old_len = self.snapshot.transforms.len();
        let n_len = new_input.text.len();
        let o_len = self.snapshot.input.text.len();
        proof {
            assert(o.skip(0) =~= o);
            assert(n.skip(0) =~= n);
        }
        let mut ts: Vec<Transform> = Vec::new();
        let mut cov: usize = 0;
        let mut old_ix: usize = 0;
        let mut old_off: usize = 0;
        // Reuse the old transforms wholly before the first edit.
        let sb0 = row_start_from(&self.snapshot.input.text, 0, edits[0].old_lines_start.row());
        proof {
            lemma_line_start_bounds(n, new_r0(es[0]));
            assert(sb0 == line_start(o, old_r0(es[0])));
            assert(sb0 == line_start(n, new_r0(es[0])));
        }
        loop
            invariant
                old_ix <= old_len,
                0 <= old_off <= o.len(),
                old_off <= sb0,
                cov == old_off,
                wf_from(ots, o, old_ix as int, old_off as int),
                wf_span(ts@, n, 0, ts@.len() as int, 0, cov as int),
                hyp ==> ts@ == Seq::<Transform>::empty() && cov == 0 && old_ix == 0 && old_off
                    == 0,
            decreases old_len - old_ix,
        {
            if old_ix >= old_len {
                break;
            }
            let t = self.snapshot.transforms[old_ix];
            let e: usize;
            match t {
                Transform::Newline => {
                    e = old_off;
                },
                Transform::Isomorphic(s) => {
                    e = iso_end_exec(&self.snapshot.input.text, old_off, s);
                },
            }
            if e <= sb0 {
                proof {
                    if hyp {
                        assert(line_start(o, 0) == 0);
                        assert(sb0 == 0);
                        match t {
                            Transform::Isomorphic(s) => {
                                crate::snapshot::lemma_iso_nonempty(
                                    o,
                                    old_off as int,
                                    e as int,
                                    s,
                                );
                            },
                            Transform::Newline => {
                                assert(breaks_from(ots, o, 0, 0) == seq![0int] + breaks_from(
                                    ots,
                                    o,
                                    1,
                                    0,
                                ));
                                assert(breaks_from(ots, o, 0, 0).len() >= 1);
                            },
                        }
                        assert(false);
                    }
                }
                match t {
                    Transform::Newline => {
                        push_newline(&mut ts, Ghost(n), Ghost(cov as int));
                    },
                    Transform::Isomorphic(s) => {
                        proof {
                            lemma_subrange_transfer(
                                n,
                                o,
                                0,
                                sb0 as int,
                                0,
                                sb0 as int,
                                old_off as int,
                                e as int,
                            );
                            if e == old_off {
                                assert(o.subrange(old_off as int, e as int)
                                    =~= Seq::<u8>::empty());
                            }
                        }
                        push_iso(&mut ts, s, Ghost(n), Ghost(cov as int), Ghost(e as int));
                    },
                }
                cov = e;
                old_off = e;
                old_ix = old_ix + 1;
            } else {
                break;
            }
        }
        // Process the edits left to right.
        let mut j: usize = 0;
        while j < edits.len()
            invariant
                j <= es.len(),
                old_ix <= old_len,
                0 <= old_off <= o.len(),
                cov <= n.len(),
                wf_from(ots, o, old_ix as int, old_off as int),
                wf_span(ts@, n, 0, ts@.len() as int, 0, cov as int),
                j < es.len() ==> cov <= line_start(n, new_r0(es[j as int])) && old_off
                    <= line_start(o, old_r0(es[j as int])),
                j == es.len() ==> cov == n.len(),
                j == 0 && hyp ==> ts@ == Seq::<Transform>::empty() && cov == 0 && old_ix == 0
                    && old_off == 0,
                j == 1 && hyp ==> breaks_span(ts@, n, 0, ts@.len() as int, 0) == fullb && cov
                    == n.len(),
            decreases es.len() - j,
        {
            let e_j = edits[j];
            proof {
                assert(es[j as int] == e_j);
                lemma_line_start_bounds(n, new_r0(es[j as int]));
            }
            let nr0_row = e_j.new_lines_start.row();
            let nr1_row = e_j.new_lines_end.row() + 1;
            let or1_row = e_j.old_lines_end.row() + 1;
            let nb0 = row_start_from(&new_input.text, 0, nr0_row);
            // An unedited span the reuse before this edit cut short.
            if cov < nb0 {
                proof {
                    if hyp {
                        assert(line_start(n, 0) == 0);
                        assert(false);
                    }
                }
                let s = summary_of_range(&new_input.text, cov, nb0);
                push_iso(&mut ts, s, Ghost(n), Ghost(cov as int), Ghost(nb0 as int));
                cov = nb0;
            }
            // Re-wrap the edit's new rows.
            let mut row = nr0_row;
            proof {
                lemma_line_start_mono(n, new_r0(es[j as int]), row as int);
                assert(cov == line_start(n, row as int));
                if hyp {
                    assert(ts@ == Seq::<Transform>::empty());
                    assert(breaks_span(ts@, n, 0, ts@.len() as int, 0) == Seq::<int>::empty());
                    assert(fullb =~= breaks_span(ts@, n, 0, ts@.len() as int, 0)
                        + full_wrap_breaks_from(n, wci, cov as int));
                }
            }
            #[verifier::loop_isolation(true)]
            loop
                invariant
                    n == new_input.text@,
                    n_len == n.len(),
                    n.len() <= u32::MAX,
                    nr0_row <= row <= nr1_row,
                    cov <= n.len(),
                    cov == line_start(n, row as int),
                    wf_span(ts@, n, 0, ts@.len() as int, 0, cov as int),
                    wci == self.wrap_column as int,
                    hyp ==> fullb == breaks_span(ts@, n, 0, ts@.len() as int, 0)
                        + full_wrap_breaks_from(n, wci, cov as int),
                ensures
                    row == nr1_row || cov == n.len(),
                decreases nr1_row - row,
            {
                if row >= nr1_row {
                    break;
                }
                if cov >= n_len {
                    break;
                }
                proof {
                    lemma_line_start_char(n, row as int);
                    if row as int > summary_of(n).rows {
                        assert(line_start(n, row as int) == n.len());
                        assert(false);
                    }
                }
                let le = row_start_from(&new_input.text, cov, 1);
                proof {
                    lemma_line_start_decompose(n, cov as int, row as int + 1);
                    assert(le == line_start(n, row as int + 1));
                    lemma_line_start_bounds(n.skip(cov as int), 1);
                    if le == cov {
                        let sk = n.skip(cov as int);
                        assert(sk.len() > 0);
                        lemma_line_start_bounds(sk.skip(1), 1);
                        lemma_line_start_bounds(sk.skip(1), 0);
                        assert(line_start(sk, 1) >= 1);
                        assert(false);
                    }
                }
                let ghost cov_old = cov as int;
                let ghost bks_old = breaks_span(ts@, n, 0, ts@.len() as int, 0);
                append_wrapped_line(&mut ts, &new_input.text, cov, le, self.wrap_column);
                proof {
                    if hyp {
                        let mapd = wrap_boundaries_spec(n.subrange(cov_old, le as int), wci)
                            .map_values(|v: int| cov_old + v);
                        assert(breaks_span(ts@, n, 0, ts@.len() as int, 0) =~= bks_old + mapd);
                        assert(full_wrap_breaks_from(n, wci, cov_old) == wrap_boundaries_spec(
                            n.subrange(cov_old, le as int),
                            wci,
                        ).map_values(|b: int| cov_old + b) + full_wrap_breaks_from(
                            n,
                            wci,
                            le as int,
                        ));
                        assert(fullb =~= breaks_span(ts@, n, 0, ts@.len() as int, 0)
                            + full_wrap_breaks_from(n, wci, le as int));
                    }
                }
                cov = le;
                row = row + 1;
            }
            proof {
                lemma_line_start_mono(n, row as int, new_r1(es[j as int]));
                lemma_line_start_bounds(n, new_r1(es[j as int]));
                assert(cov == line_start(n, new_r1(es[j as int])));
                if hyp {
                    lemma_line_start_char(n, new_r1(es[0]));
                    assert(cov == n.len());
                    assert(full_wrap_breaks_from(n, wci, cov as int) == Seq::<int>::empty());
                    assert(breaks_span(ts@, n, 0, ts@.len() as int, 0) =~= fullb);
                }
            }
            // Advance the old cursor to the edit's old end row.
            let sb = row_start_from(&self.snapshot.input.text, 0, or1_row);
            proof {
                lemma_line_start_mono(o, old_r0(es[j as int]), old_r1(es[j as int]));
                assert(sb == line_start(o, old_r1(es[j as int])));
            }
            #[verifier::loop_isolation(true)]
            loop
                invariant
                    old_len == ots.len(),
                    ots == self.snapshot.transforms@,
                    o == self.snapshot.input.text@,
                    sb <= o.len(),
                    old_ix <= old_len,
                    0 <= old_off <= o.len(),
                    old_off <= sb,
                    wf_from(ots, o, old_ix as int, old_off as int),
                ensures
                    old_ix == old_len || (ots[old_ix as int] is Isomorphic && iso_end(
                        o,
                        old_off as int,
                        ots[old_ix as int]->Isomorphic_0,
                    ) > sb),
                decreases old_len - old_ix,
            {
                if old_ix >= old_len {
                    break;
                }
                let t = self.snapshot.transforms[old_ix];
                let e: usize;
                match t {
                    Transform::Newline => {
                        e = old_off;
                    },
                    Transform::Isomorphic(s) => {
                        e = iso_end_exec(&self.snapshot.input.text, old_off, s);
                    },
                }
                if e <= sb {
                    old_off = e;
                    old_ix = old_ix + 1;
                } else {
                    break;
                }
            }
            proof {
                if hyp {
                    lemma_line_start_char(o, old_r1(es[0]));
                    assert(sb == o.len());
                    if old_ix < old_len {
                        assert(wf_from(ots, o, old_ix as int, old_off as int));
                        assert(iso_end(o, old_off as int, ots[old_ix as int]->Isomorphic_0)
                            <= o.len());
                        assert(false);
                    }
                    assert(old_ix == old_len);
                }
            }
            // The untouched region after this edit, on both sides.
            let reg_o_end: usize = if j + 1 < edits.len() {
                let r = row_start_from(
                    &self.snapshot.input.text,
                    0,
                    edits[j + 1].old_lines_start.row(),
                );
                r
            } else {
                o_len
            };
            let ghost cov0 = cov as int;
            let ghost reg_n_end = region_end_new(n, es, j as int);
            proof {
                if j + 1 < edits.len() {
                    lemma_line_start_bounds(n, new_r0(es[j as int + 1]));
                    lemma_line_start_bounds(o, old_r0(es[j as int + 1]));
                    lemma_line_start_mono(n, new_r1(es[j as int]), new_r0(es[j as int + 1]));
                    lemma_line_start_mono(o, old_r1(es[j as int]), old_r0(es[j as int + 1]));
                }
                assert(reg_o_end == region_end_old(o, es, j as int));
                assert(sb as int <= reg_o_end as int);
                assert(cov0 <= reg_n_end);
                assert(n.subrange(cov0, reg_n_end) == o.subrange(sb as int, reg_o_end as int));
                assert(n.subrange(cov0, reg_n_end).len() == reg_n_end - cov0);
                assert(o.subrange(sb as int, reg_o_end as int).len() == reg_o_end - sb);
                assert(reg_n_end - cov0 == reg_o_end - sb);
            }
            // Fill the span of a transform that straddles the edit's end.
            if old_ix < old_len && old_off < sb {
                proof {
                    if hyp {
                        assert(false);
                    }
                }
                let t = self.snapshot.transforms[old_ix];
                match t {
                    Transform::Newline => {
                        // A wrap point spans no input, so it cannot reach
                        // past the seek target: this arm is unreachable.
                        proof {
                            assert(false);
                        }
                    },
                    Transform::Isomorphic(s_cur) => {
                        let e = iso_end_exec(&self.snapshot.input.text, old_off, s_cur);
                        let g: usize = if e < reg_o_end {
                            e
                        } else {
                            reg_o_end
                        };
                        if g > sb {
                            let s_gap = summary_of_range(&self.snapshot.input.text, sb, g);
                            proof {
                                lemma_subrange_transfer(
                                    n,
                                    o,
                                    cov0,
                                    reg_n_end,
                                    sb as int,
                                    reg_o_end as int,
                                    sb as int,
                                    g as int,
                                );
                            }
                            push_iso(
                                &mut ts,
                                s_gap,
                                Ghost(n),
                                Ghost(cov as int),
                                Ghost(cov + (g - sb)),
                            );
                            cov = cov + (g - sb);
                        }
                        if e <= g {
                            old_off = e;
                            old_ix = old_ix + 1;
                        }
                    },
                }
            }
            // Reuse the old transforms inside the region verbatim.
            if old_off >= sb {
                #[verifier::loop_isolation(true)]
                loop
                    invariant
                        old_len == ots.len(),
                        ots == self.snapshot.transforms@,
                        o == self.snapshot.input.text@,
                        n == new_input.text@,
                        n.len() <= u32::MAX,
                        sb <= reg_o_end <= o.len(),
                        cov0 - sb == reg_n_end - reg_o_end,
                        0 <= cov0 <= reg_n_end <= n.len(),
                        n.subrange(cov0, reg_n_end) == o.subrange(sb as int, reg_o_end as int),
                        old_ix <= old_len,
                        sb <= old_off,
                        old_off as int <= reg_o_end as int,
                        cov as int == old_off + (cov0 - sb),
                        cov <= n.len(),
                        wf_from(ots, o, old_ix as int, old_off as int),
                        wf_span(ts@, n, 0, ts@.len() as int, 0, cov as int),
                        hyp ==> old_ix == old_len && breaks_span(ts@, n, 0, ts@.len() as int, 0)
                            == fullb && cov == n.len(),
                    ensures
                        old_ix == old_len || (ots[old_ix as int] is Isomorphic && iso_end(
                            o,
                            old_off as int,
                            ots[old_ix as int]->Isomorphic_0,
                        ) > reg_o_end),
                    decreases old_len - old_ix,
                {
                    if old_ix >= old_len {
                        break;
                    }
                    proof {
                        if hyp {
                            assert(false);
                        }
                    }
                    let t = self.snapshot.transforms[old_ix];
                    match t {
                        Transform::Newline => {
                            push_newline(&mut ts, Ghost(n), Ghost(cov as int));
                            old_ix = old_ix + 1;
                        },
                        Transform::Isomorphic(s) => {
                            let e = iso_end_exec(&self.snapshot.input.text, old_off, s);
                            if e <= reg_o_end {
                                proof {
                                    lemma_subrange_transfer(
                                        n,
                                        o,
                                        cov0,
                                        reg_n_end,
                                        sb as int,
                                        reg_o_end as int,
                                        old_off as int,
                                        e as int,
                                    );
                                    if e == old_off {
                                        assert(o.subrange(old_off as int, e as int)
                                            =~= Seq::<u8>::empty());
                                    }
                                }
                                push_iso(
                                    &mut ts,
                                    s,
                                    Ghost(n),
                                    Ghost(cov as int),
                                    Ghost(cov + (e - old_off)),
                                );
                                cov = cov + (e - old_off);
                                old_off = e;
                                old_ix = old_ix + 1;
                            } else {
                                break;
                            }
                        },
                    }
                }
                proof {
                    if old_ix == old_len {
                        assert(old_off == o.len());
                        assert(old_off as int <= reg_o_end as int);
                        if j + 1 < edits.len() {
                            lemma_line_start_bounds(o, old_r0(es[j as int + 1]));
                            assert(old_off as int == reg_o_end as int);
                        }
                        assert(cov as int == reg_n_end);
                    }
                }
            }
            proof {
                if j as int + 1 == es.len() {
                    assert(reg_o_end == o.len());
                    assert(old_off >= sb);
                    assert(old_ix == old_len);
                    assert(cov == n.len());
                } else {
                    assert(cov as int <= reg_n_end);
                    assert(old_off as int <= reg_o_end as int);
                }
            }
            proof {
                if hyp {
                    assert(breaks_span(ts@, n, 0, ts@.len() as int, 0) == fullb);
                    assert(cov == n.len());
                }
            }
            j = j + 1;
        }
        proof {
            lemma_wf_span_to_wf_from(ts@, n, 0, 0);
            if hyp {
                lemma_breaks_span_all(ts@, n, 0, 0);
                assert(breaks_from(ts@, n, 0, 0) == fullb);
            }
        }
        let version = new_input.version();
        self.snapshot = Snapshot { transforms: ts, input: new_input, version };
    }
}

} // verus!
