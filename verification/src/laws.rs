//! Global properties of the scan, stated and proved against the ghost model.
//!
//! Two laws hold of every scan: the consumed spans tile the input exactly
//! ([`lemma_total_coverage`]), and the scanner's contract admits only one
//! outcome per input ([`lemma_deterministic`]).

use vstd::prelude::*;

use crate::lexer::tokenize_post;
use crate::model::{
    lemma_step_at_bounds, scan_from, step_at, LexErrorModel, Step, TokenModel,
};

verus! {

/// The consumed spans of a scan from position `i`: one `(start, end)` pair
/// per step — token emissions and skipped whitespace/comment stretches alike
/// — in scan order.  A failing scan has no span sequence of interest, so the
/// sequence is cut off at the failing step.
pub open spec fn scan_spans(s: Seq<char>, i: int) -> Seq<(int, int)>
    decreases s.len() - i
        when 0 <= i <= s.len()
        via scan_spans_decreases
{
    if i >= s.len() {
        Seq::empty()
    } else {
        match step_at(s, i) {
            Step::Emit { t, next } => seq![(i, next)] + scan_spans(s, next),
            Step::Skip { next } => seq![(i, next)] + scan_spans(s, next),
            Step::Fail { err } => Seq::empty(),
        }
    }
}

#[via_fn]
proof fn scan_spans_decreases(s: Seq<char>, i: int) {
    if i < s.len() {
        lemma_step_at_bounds(s, i);
    }
}

proof fn lemma_coverage_from(s: Seq<char>, i: int)
    requires
        0 <= i <= s.len(),
        scan_from(s, i) is Ok,
    ensures
        i == s.len() ==> scan_spans(s, i).len() == 0,
        i < s.len() ==> scan_spans(s, i).len() > 0 && scan_spans(s, i)[0].0 == i && scan_spans(
            s,
            i,
        ).last().1 == s.len(),
        forall|k: int|
            0 <= k < scan_spans(s, i).len() ==> i <= (#[trigger] scan_spans(s, i)[k]).0
                < scan_spans(s, i)[k].1 <= s.len(),
        forall|k: int|
            0 <= k && k + 1 < scan_spans(s, i).len() ==> (#[trigger] scan_spans(s, i)[k]).1
                == scan_spans(s, i)[k + 1].0,
    decreases s.len() - i,
{
    if i < s.len() {
        lemma_step_at_bounds(s, i);
        match step_at(s, i) {
            Step::Emit { t, next } => {
                lemma_coverage_from(s, next);
                assert(scan_spans(s, i) == seq![(i, next)] + scan_spans(s, next));
            },
            Step::Skip { next } => {
                lemma_coverage_from(s, next);
                assert(scan_spans(s, i) == seq![(i, next)] + scan_spans(s, next));
            },
            Step::Fail { err } => {
                assert(false);
            },
        }
    }
}

/// Total coverage: on any input the scan accepts, the consumed spans cover
/// the entire input exactly once, in order — the first span starts at the
/// beginning, each span is nonempty and starts where the previous one ended,
/// and the last one ends at the input's end.  No gaps, no overlaps.
pub proof fn lemma_total_coverage(s: Seq<char>)
    requires
        scan_from(s, 0) is Ok,
    ensures
        s.len() == 0 ==> scan_spans(s, 0).len() == 0,
        s.len() > 0 ==> scan_spans(s, 0).len() > 0 && scan_spans(s, 0)[0].0 == 0 && scan_spans(
            s,
            0,
        ).last().1 == s.len(),
        forall|k: int|
            0 <= k < scan_spans(s, 0).len() ==> 0 <= (#[trigger] scan_spans(s, 0)[k]).0
                < scan_spans(s, 0)[k].1 <= s.len(),
        forall|k: int|
            0 <= k && k + 1 < scan_spans(s, 0).len() ==> (#[trigger] scan_spans(s, 0)[k]).1
                == scan_spans(s, 0)[k + 1].0,
{
    lemma_coverage_from(s, 0);
}

/// Determinism: tokenizing the same input twice yields identical token
/// sequences.  The scanner's contract [`tokenize_post`] admits exactly one
/// outcome per input, so any two results it allows for equal inputs carry
/// equal token models — and on failure, equal errors.
pub proof fn lemma_deterministic(
    input: Seq<char>,
    r1: Result<Seq<TokenModel>, LexErrorModel>,
    r2: Result<Seq<TokenModel>, LexErrorModel>,
)
    requires
        tokenize_post(input, r1),
        tokenize_post(input, r2),
    ensures
        r1 == r2,
{
}

} // verus!
