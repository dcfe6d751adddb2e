use vstd::prelude::*;
use crate::point::Point;
use crate::summary::{
    SummaryModel, TextSummary, combine, models, summary_of, wf_model, zero_model,
};

verus! {

/// One node of the input-to-output mapping.  An isomorphic transform
/// copies a non-empty input span verbatim to the output; a wrap point
/// consumes no input and contributes exactly one synthetic line break.
#[derive(Copy, Clone, Debug, PartialEq, Eq, Structural)]
pub enum Transform {
    Isomorphic(TextSummary),
    Newline,
}

/// The aggregate a wrap point contributes on the output side: one line
/// break and nothing else.
pub open spec fn newline_model() -> SummaryModel {
    SummaryModel { rows: 1, first: 0, last: 0, longest_row: 0, longest: 0 }
}

impl Transform {
    /// The extent a transform covers in the input space.
    pub open spec fn input_extent(self) -> Point {
        match self {
            Transform::Isomorphic(s) => s.lines,
            Transform::Newline => Point { row: 0, column: 0 },
        }
    }

    /// The extent a transform covers in the output space.
    pub open spec fn output_extent(self) -> Point {
        match self {
            Transform::Isomorphic(s) => s.lines,
            Transform::Newline => Point { row: 1, column: 0 },
        }
    }

    /// A transform that copies an input span with aggregate `summary`
    /// verbatim.  A zero-extent span is a contract violation in the
    /// caller, never a recoverable condition, so it is ruled out here.
    pub fn isomorphic(summary: TextSummary) -> (r: Transform)
        requires
            summary.lines.row > 0 || summary.lines.column > 0,
        ensures
            r == Transform::Isomorphic(summary),
    {
        Transform::Isomorphic(summary)
    }

    /// A wrap point: a synthetic line break spliced into the output.
    pub fn newline() -> (r: Transform)
        ensures
            r == Transform::Newline,
    {
        Transform::Newline
    }

    /// The pair of aggregates this transform contributes to a sequence.
    pub fn summary(&self) -> (r: TransformSummary)
        ensures
            match *self {
                Transform::Isomorphic(s) => r.input == s && r.output == s,
                Transform::Newline => models(r.input, zero_model()) && models(
                    r.output,
                    newline_model(),
                ),
            },
    {
        match self {
            Transform::Isomorphic(s) => TransformSummary { input: *s, output: *s },
            Transform::Newline => TransformSummary {
                input: TextSummary::zero(),
                output: TextSummary {
                    lines: Point::new(1, 0),
                    first_line_chars: 0,
                    last_line_chars: 0,
                    longest_row: 0,
                    longest_row_chars: 0,
                },
            },
        }
    }
}

/// Aggregate of a span of transforms: the joined aggregate of the input
/// text it consumes and of the output text it produces.  Both sides are
/// additive, which is what lets a tree of transforms be projected to
/// either coordinate space.
#[derive(Copy, Clone, Debug, PartialEq, Eq, Structural)]
pub struct TransformSummary {
    pub input: TextSummary,
    pub output: TextSummary,
}

impl TransformSummary {
    pub fn zero() -> (r: TransformSummary)
        ensures
            models(r.input, zero_model()),
            models(r.output, zero_model()),
    {
        TransformSummary { input: TextSummary::zero(), output: TextSummary::zero() }
    }

    /// Extends both sides with the aggregates of the span that follows.
    pub fn add_summary(
        &mut self,
        other: &TransformSummary,
        Ghost(ia): Ghost<SummaryModel>,
        Ghost(ib): Ghost<SummaryModel>,
        Ghost(oa): Ghost<SummaryModel>,
        Ghost(ob): Ghost<SummaryModel>,
    )
        requires
            models(old(self).input, ia),
            models(old(self).output, oa),
            models(other.input, ib),
            models(other.output, ob),
            wf_model(ia),
            wf_model(ib),
            wf_model(oa),
            wf_model(ob),
            ia.rows + ib.rows <= u32::MAX,
            ia.last + ib.last <= u32::MAX,
            ia.first + ib.first <= u32::MAX,
            ia.last + ib.first <= u32::MAX,
            oa.rows + ob.rows <= u32::MAX,
            oa.last + ob.last <= u32::MAX,
            oa.first + ob.first <= u32::MAX,
            oa.last + ob.first <= u32::MAX,
        ensures
            models(final(self).input, combine(ia, ib)),
            models(final(self).output, combine(oa, ob)),
    {
        self.input.add_summary(&other.input, Ghost(ia), Ghost(ib));
        self.output.add_summary(&other.output, Ghost(oa), Ghost(ob));
    }
}

/// The aggregate of a single line break equals its model.
pub proof fn lemma_newline_summary()
    ensures
        summary_of(seq![crate::summary::NEWLINE]) == newline_model(),
{
    let s = seq![crate::summary::NEWLINE];
    assert(s.len() == 1);
    assert(s.last() == crate::summary::NEWLINE);
    assert(s.drop_last() =~= Seq::<u8>::empty());
    assert(summary_of(s.drop_last()) == zero_model());
    assert(summary_of(s) == crate::summary::step_byte(summary_of(s.drop_last()), s.last()));
}

} // verus!
