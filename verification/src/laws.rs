use vstd::prelude::*;
use crate::snapshot::{Snapshot, breaks_from, iso_end, output_from, wf_from, with_breaks};
use crate::wrapper::full_wrap_breaks;
use crate::summary::{
    SummaryModel, TextSummary, combine, models, summary_of, zero_model,
};
use crate::transform::{Transform, newline_model};

verus! {

/// The mathematical aggregate an executable summary records.
pub open spec fn model_of(s: TextSummary) -> SummaryModel {
    SummaryModel {
        rows: s.lines.row as int,
        first: s.first_line_chars as int,
        last: s.last_line_chars as int,
        longest_row: s.longest_row as int,
        longest: s.longest_row_chars as int,
    }
}

/// The input-side aggregate a transform contributes: its span's summary
/// for an isomorphic transform, nothing for a wrap point.
pub open spec fn input_model(t: Transform) -> SummaryModel {
    match t {
        Transform::Isomorphic(s) => model_of(s),
        Transform::Newline => zero_model(),
    }
}

/// The output-side aggregate a transform contributes: its span's summary
/// for an isomorphic transform, one line break for a wrap point.
pub open spec fn output_model(t: Transform) -> SummaryModel {
    match t {
        Transform::Isomorphic(s) => model_of(s),
        Transform::Newline => newline_model(),
    }
}

/// The input-side aggregates of the transforms from `i` on, joined left
/// to right.
pub open spec fn input_summary_from(ts: Seq<Transform>, i: int) -> SummaryModel
    decreases ts.len() - i,
{
    if i < 0 || i >= ts.len() {
        zero_model()
    } else {
        combine(input_model(ts[i]), input_summary_from(ts, i + 1))
    }
}

/// The output-side aggregates of the transforms from `i` on, joined left
/// to right.
pub open spec fn output_summary_from(ts: Seq<Transform>, i: int) -> SummaryModel
    decreases ts.len() - i,
{
    if i < 0 || i >= ts.len() {
        zero_model()
    } else {
        combine(output_model(ts[i]), output_summary_from(ts, i + 1))
    }
}

/// Summary additivity over a transform tail: the joined input-side
/// aggregates equal the aggregate of the input text the tail covers, and
/// the joined output-side aggregates equal the aggregate of the output
/// text it produces.
pub proof fn lemma_summary_additivity_from(ts: Seq<Transform>, text: Seq<u8>, i: int, off: int)
    requires
        wf_from(ts, text, i, off),
        0 <= i,
        0 <= off <= text.len(),
    ensures
        input_summary_from(ts, i) == summary_of(text.skip(off)),
        output_summary_from(ts, i) == summary_of(output_from(ts, text, i, off)),
    decreases ts.len() - i,
{
    if i >= ts.len() {
        assert(text.skip(off) =~= Seq::<u8>::empty());
        assert(output_from(ts, text, i, off) == Seq::<u8>::empty());
    } else {
        match ts[i] {
            Transform::Newline => {
                lemma_summary_additivity_from(ts, text, i + 1, off);
                let rest = text.skip(off);
                assert(Seq::<u8>::empty() + rest =~= rest);
                crate::summary::lemma_summary_combine(Seq::<u8>::empty(), rest);
                let out_rest = output_from(ts, text, i + 1, off);
                crate::transform::lemma_newline_summary();
                crate::summary::lemma_summary_combine(seq![crate::summary::NEWLINE], out_rest);
                assert(output_from(ts, text, i, off) == seq![crate::summary::NEWLINE] + out_rest);
            },
            Transform::Isomorphic(s) => {
                let e = iso_end(text, off, s);
                lemma_summary_additivity_from(ts, text, i + 1, e);
                let span = text.subrange(off, e);
                assert(text.skip(off) =~= span + text.skip(e));
                crate::summary::lemma_summary_combine(span, text.skip(e));
                assert(input_model(ts[i]) == summary_of(span));
                let out_rest = output_from(ts, text, i + 1, e);
                crate::summary::lemma_summary_combine(span, out_rest);
                assert(output_from(ts, text, i, off) == span + out_rest);
            },
        }
    }
}

/// Break offsets never run backwards past the position already reached,
/// nor past the end of the text.
proof fn lemma_breaks_bounds(ts: Seq<Transform>, text: Seq<u8>, i: int, off: int)
    requires
        wf_from(ts, text, i, off),
        0 <= i,
        0 <= off,
    ensures
        off <= text.len(),
        forall|k: int|
            0 <= k < breaks_from(ts, text, i, off).len() ==> off <= #[trigger] breaks_from(
                ts,
                text,
                i,
                off,
            )[k] <= text.len(),
    decreases ts.len() - i,
{
    if i < ts.len() {
        match ts[i] {
            Transform::Newline => {
                lemma_breaks_bounds(ts, text, i + 1, off);
                let rest = breaks_from(ts, text, i + 1, off);
                let whole = breaks_from(ts, text, i, off);
                assert(whole == seq![off] + rest);
                assert(forall|k: int| 1 <= k < whole.len() ==> whole[k] == rest[k - 1]);
            },
            Transform::Isomorphic(s) => {
                let e = iso_end(text, off, s);
                lemma_breaks_bounds(ts, text, i + 1, e);
                assert(breaks_from(ts, text, i, off) == breaks_from(ts, text, i + 1, e));
                assert(off <= e);
            },
        }
    }
}

/// Splitting off an unbroken prefix commutes with inserting breaks.
proof fn lemma_with_breaks_split(text: Seq<u8>, off: int, e: int, bs: Seq<int>)
    requires
        0 <= off <= e <= text.len(),
        bs.len() > 0 ==> e <= bs[0] <= text.len(),
    ensures
        with_breaks(text, off, bs) == text.subrange(off, e) + with_breaks(text, e, bs),
{
    if bs.len() == 0 {
        assert(text.skip(off) =~= text.subrange(off, e) + text.skip(e));
    } else {
        let b = bs[0];
        assert(text.subrange(off, b) =~= text.subrange(off, e) + text.subrange(e, b));
        assert(with_breaks(text, off, bs) =~= text.subrange(off, e) + (text.subrange(e, b)
            + seq![crate::summary::NEWLINE] + with_breaks(text, b, bs.skip(1))));
        assert(with_breaks(text, e, bs) == text.subrange(e, b) + seq![crate::summary::NEWLINE]
            + with_breaks(text, b, bs.skip(1)));
    }
}

/// Round-trip coverage over a transform tail: the output text is exactly
/// the input text from `off` on with one line break inserted at each
/// wrap point — no byte lost or duplicated.
pub proof fn lemma_output_round_trip_from(ts: Seq<Transform>, text: Seq<u8>, i: int, off: int)
    requires
        wf_from(ts, text, i, off),
        0 <= i,
        0 <= off,
    ensures
        output_from(ts, text, i, off) == with_breaks(text, off, breaks_from(ts, text, i, off)),
    decreases ts.len() - i,
{
    lemma_breaks_bounds(ts, text, i, off);
    if i >= ts.len() {
        assert(text.skip(off) =~= Seq::<u8>::empty());
    } else {
        match ts[i] {
            Transform::Newline => {
                lemma_output_round_trip_from(ts, text, i + 1, off);
                let rest = breaks_from(ts, text, i + 1, off);
                assert(breaks_from(ts, text, i, off) == seq![off] + rest);
                assert((seq![off] + rest)[0] == off);
                assert((seq![off] + rest).skip(1) =~= rest);
                assert(text.subrange(off, off) =~= Seq::<u8>::empty());
                assert(with_breaks(text, off, seq![off] + rest) =~= seq![
                    crate::summary::NEWLINE,
                ] + with_breaks(text, off, rest));
            },
            Transform::Isomorphic(s) => {
                let e = iso_end(text, off, s);
                lemma_output_round_trip_from(ts, text, i + 1, e);
                lemma_breaks_bounds(ts, text, i + 1, e);
                let rest = breaks_from(ts, text, i + 1, e);
                assert(breaks_from(ts, text, i, off) == rest);
                if rest.len() > 0 {
                    assert(e <= rest[0] <= text.len());
                }
                lemma_with_breaks_split(text, off, e, rest);
            },
        }
    }
}

/// Round-trip coverage: a snapshot's output text is its input text with
/// one line break inserted at each wrap point and nothing else changed.
/// Together with the chunk iterator's contract — opened at the zero
/// position it yields the whole output, chunk by chunk — this says that
/// concatenating the chunks reproduces the input text with the computed
/// breaks spliced in.
pub proof fn lemma_snapshot_round_trip(s: Snapshot)
    requires
        s.wf(),
    ensures
        s.output() == with_breaks(s.input.text@, 0, breaks_from(s.transforms@, s.input.text@, 0, 0)),
{
    lemma_output_round_trip_from(s.transforms@, s.input.text@, 0, 0);
}

/// A snapshot whose wrap points sit at the canonical offsets — as
/// `BackgroundWrapper::sync` ensures for a whole-document re-wrap of a
/// break-free snapshot — shows exactly the canonical wrapped text: the
/// input with one line break at each greedy wrap boundary.
pub proof fn lemma_canonical_output(s: Snapshot, width: int)
    requires
        s.wf(),
        breaks_from(s.transforms@, s.input.text@, 0, 0) == full_wrap_breaks(s.input.text@, width),
    ensures
        s.output() == with_breaks(s.input.text@, 0, full_wrap_breaks(s.input.text@, width)),
{
    lemma_output_round_trip_from(s.transforms@, s.input.text@, 0, 0);
}

/// Summary additivity: over a whole snapshot, the sum of the input-side
/// transform summaries is exactly the input text's summary, and the sum
/// of the output-side summaries is exactly the output text's summary —
/// no span is lost or counted twice.
pub proof fn lemma_snapshot_summary_additivity(s: Snapshot)
    requires
        s.wf(),
    ensures
        input_summary_from(s.transforms@, 0) == summary_of(s.input.text@),
        output_summary_from(s.transforms@, 0) == summary_of(s.output()),
{
    lemma_summary_additivity_from(s.transforms@, s.input.text@, 0, 0);
    assert(s.input.text@.skip(0) =~= s.input.text@);
}

} // verus!
