//! Choices of the mask decoder: which candidates to hand on, and when the single mask is stable
//! enough to be preferred.
use super::util::{argmax_f32, is_argmax};
use crate::binary32::{count_ratio, ratio, Binary32};
use crate::collect::{tally, tally_bounds, tally_monotone, tally_push};
use crate::sam3::masks::{running_best, running_best_dominates, NEGATIVE_INFINITY};
use vstd::prelude::*;

verus! {

/// The margin around zero within which a logit counts as uncertain: five hundredths.
pub const STABILITY_DELTA: u32 = 0x3d4c_cccd;

/// The margin below zero.
pub const NEGATIVE_STABILITY_DELTA: u32 = 0xbd4c_cccd;

/// The share of the area that has to be certain: ninety-eight hundredths.
pub const STABILITY_THRESH: u32 = 0x3f7a_e148;

/// The logit of a mask without an object: minus one thousand and twenty-four.
pub const NO_OBJECT_LOGIT: u32 = 0xc480_0000;

/// The label of the upper left corner of a box.
pub const BOX_FIRST_CORNER: i32 = 2;

/// The label of the lower right corner of a box.
pub const BOX_SECOND_CORNER: i32 = 3;

/// The label of a point that pads the prompt.
pub const NOT_A_POINT: i32 = -1;

/// The candidates `start..end` of the four masks.
#[derive(Clone, Copy, Debug, PartialEq, Eq, Structural)]
pub struct Candidates {
    pub start: usize,
    pub end: usize,
}

/// The candidates to hand on: the three alternatives, or the single mask.
pub fn candidates(multimask_output: bool) -> (r: Candidates)
    ensures
        r == (if multimask_output {
            Candidates { start: 1, end: 4 }
        } else {
            Candidates { start: 0, end: 1 }
        }),
{
    if multimask_output {
        Candidates { start: 1, end: 4 }
    } else {
        Candidates { start: 0, end: 1 }
    }
}

/// Where a value exceeds a threshold.
pub open spec fn above(m: Seq<Binary32>, threshold: Binary32) -> Seq<bool> {
    Seq::new(m.len(), |i: int| threshold.less(m[i]))
}

/// The share of the generously thresholded area that the strict threshold keeps; one where there
/// is no area.
pub open spec fn stability(m: Seq<Binary32>) -> Binary32 {
    let strict = tally(above(m, Binary32 { bits: STABILITY_DELTA }));
    let generous = tally(above(m, Binary32 { bits: NEGATIVE_STABILITY_DELTA }));
    if generous == 0 {
        Binary32 { bits: 0x3f80_0000 }
    } else {
        ratio(strict as int, generous as int)
    }
}

/// Count the values above a threshold.
fn count_above(m: &[Binary32], threshold: Binary32) -> (r: u64)
    ensures
        r == tally(above(m@, threshold)),
        r <= m@.len(),
{
    let ghost s = above(m@, threshold);
    assert(s.take(0) =~= Seq::<bool>::empty());
    let mut r: u64 = 0;
    let mut i: usize = 0;
    while i < m.len()
        invariant
            i <= m@.len(),
            s == above(m@, threshold),
            r == tally(s.take(i as int)),
            r <= i,
        decreases m@.len() - i,
    {
        proof {
            tally_push(s, i as int);
        }
        if m[i].gt(&threshold) {
            r = r + 1;
        }
        i = i + 1;
    }
    assert(s.take(m@.len() as int) =~= s);
    r
}

/// The stability of a mask.
pub fn stability_score(m: &[Binary32]) -> (r: Binary32)
    ensures
        r == stability(m@),
{
    let strict: u64 = count_above(m, Binary32 { bits: STABILITY_DELTA });
    let generous: u64 = count_above(m, Binary32 { bits: NEGATIVE_STABILITY_DELTA });
    proof {
        tally_monotone(
            above(m@, Binary32 { bits: STABILITY_DELTA }),
            above(m@, Binary32 { bits: NEGATIVE_STABILITY_DELTA }),
        );
    }
    if generous == 0 {
        Binary32 { bits: 0x3f80_0000 }
    } else {
        count_ratio(strict, generous)
    }
}

/// The values by position.
pub open spec fn nth(values: Seq<Binary32>) -> spec_fn(int) -> Binary32 {
    |i: int| values[i]
}

/// The candidate that stands for the single mask: the single mask itself where it is stable,
/// otherwise the best alternative.
pub open spec fn stable_candidate(single: Seq<Binary32>, best: int) -> int {
    if (Binary32 { bits: STABILITY_THRESH }).at_most(stability(single)) {
        0
    } else {
        1 + best
    }
}

/// The alternative with the greatest predicted overlap, the first of equals.
pub open spec fn best_alternative(alternatives: Seq<Binary32>) -> int {
    running_best(
        nth(alternatives),
        Binary32 { bits: NEGATIVE_INFINITY },
        alternatives.len(),
    ).0
}

/// The candidate that stands for the single mask, by the predicted overlaps of the alternatives.
pub open spec fn single_candidate(single: Seq<Binary32>, alternatives: Seq<Binary32>) -> int {
    stable_candidate(single, best_alternative(alternatives))
}

/// Choose the candidate for the single mask, given its logits and which alternative is best.
pub fn fall_back_to(single: &[Binary32], best: usize) -> (r: usize)
    requires
        best < usize::MAX,
    ensures
        r == stable_candidate(single@, best as int),
{
    if stability_score(single).ge(&Binary32 { bits: STABILITY_THRESH }) {
        0
    } else {
        best + 1
    }
}

/// Choose the candidate for the single mask, given the logits of the single mask and the predicted
/// overlaps of the alternatives.
pub fn dynamic_multimask(single: &[Binary32], alternatives: &[Binary32]) -> (r: usize)
    requires
        0 < alternatives@.len() < usize::MAX,
        forall|i: int| 0 <= i < alternatives@.len() ==> !(#[trigger] alternatives@[i]).nan(),
    ensures
        r == single_candidate(single@, alternatives@),
        r <= alternatives@.len(),
{
    let mut best: usize = 0;
    let mut value = Binary32 { bits: NEGATIVE_INFINITY };
    let mut i: usize = 0;
    while i < alternatives.len()
        invariant
            i <= alternatives@.len() < usize::MAX,
            best == 0 || best < i,
            (best as int, value) == running_best(
                nth(alternatives@),
                Binary32 { bits: NEGATIVE_INFINITY },
                i as nat,
            ),
        decreases alternatives@.len() - i,
    {
        if alternatives[i].gt(&value) {
            best = i;
            value = alternatives[i];
        }
        i = i + 1;
    }
    fall_back_to(single, best)
}

/// The rows of the tokens that the decoder reads back: the object score, the predicted overlaps,
/// then one token per mask; the prompt follows.
#[derive(Clone, Copy, Debug, PartialEq, Eq, Structural)]
pub struct TokenRows {
    pub object_score: usize,
    pub overlaps: usize,
    pub masks: Candidates,
    pub total: usize,
}

/// The rows of a decoder run with this many prompt tokens.
pub fn token_rows(prompt_tokens: usize) -> (r: TokenRows)
    requires
        prompt_tokens + 6 <= usize::MAX,
    ensures
        r.object_score == 0,
        r.overlaps == 1,
        r.masks == (Candidates { start: 2, end: 6 }),
        r.total == prompt_tokens + 6,
{
    TokenRows {
        object_score: 0,
        overlaps: 1,
        masks: Candidates { start: 2, end: 6 },
        total: prompt_tokens + 6,
    }
}

/// What the decoder hands on.
#[derive(Debug)]
pub struct Prediction {
    /// The object is present; otherwise every mask is a uniform no-object mask.
    pub present: bool,
    /// The candidates whose masks and predicted overlaps are handed on.
    pub kept: Vec<usize>,
    /// The mask tokens that are handed on.
    pub tokens: Candidates,
}

/// The single mask as it is judged: uniform where the object is absent.
pub open spec fn gated(score: Binary32, mask: Seq<Binary32>) -> Seq<Binary32> {
    if (Binary32 { bits: 0 }).less(score) {
        mask
    } else {
        Seq::new(mask.len(), |i: int| Binary32 { bits: NO_OBJECT_LOGIT })
    }
}

/// The candidates that are handed on, given which alternative is best: the alternatives, or the one
/// that stands for the single mask.
pub open spec fn kept_given_best(
    score: Binary32,
    single: Seq<Binary32>,
    best: int,
    multimask_output: bool,
) -> Seq<usize> {
    if multimask_output {
        seq![1usize, 2usize, 3usize]
    } else {
        seq![stable_candidate(gated(score, single), best) as usize]
    }
}

/// The candidates that are handed on, by the predicted overlaps.
pub open spec fn kept_candidates(
    score: Binary32,
    single: Seq<Binary32>,
    ious: Seq<Binary32>,
    multimask_output: bool,
) -> Seq<usize> {
    kept_given_best(score, single, best_alternative(ious.skip(1)), multimask_output)
}

/// Decide what the decoder hands on, given the object score, the logits of the single mask, and
/// which of the three alternatives is best.
pub fn predict_given_best(
    score: &Binary32,
    single: &[Binary32],
    best: usize,
    multimask_output: bool,
) -> (r: Prediction)
    requires
        best < 3,
    ensures
        r.present == (Binary32 { bits: 0 }).less(*score),
        r.kept@ == kept_given_best(*score, single@, best as int, multimask_output),
        r.tokens == (if multimask_output {
            Candidates { start: 1, end: 4 }
        } else {
            Candidates { start: 0, end: 1 }
        }),
{
    let present: bool = is_object(score);
    let tokens: Candidates = candidates(multimask_output);
    let mut kept: Vec<usize> = Vec::new();
    if multimask_output {
        kept.push(1);
        kept.push(2);
        kept.push(3);
    } else {
        let judged: Vec<Binary32> = gate_masks(score, single);
        kept.push(fall_back_to(&judged, best));
    }
    assert(kept@ =~= kept_given_best(*score, single@, best as int, multimask_output));
    Prediction { present, kept, tokens }
}

/// Decide what the decoder hands on, given the object score, the logits of the single mask, and
/// the predicted overlaps of the single mask and its three alternatives.
pub fn predict(
    score: &Binary32,
    single: &[Binary32],
    ious: &[Binary32],
    multimask_output: bool,
) -> (r: Prediction)
    requires
        ious@.len() == 4,
        !multimask_output ==> forall|i: int| 1 <= i < 4 ==> !(#[trigger] ious@[i]).nan(),
    ensures
        r.present == (Binary32 { bits: 0 }).less(*score),
        r.kept@ == kept_candidates(*score, single@, ious@, multimask_output),
        r.tokens == (if multimask_output {
            Candidates { start: 1, end: 4 }
        } else {
            Candidates { start: 0, end: 1 }
        }),
{
    if multimask_output {
        return predict_given_best(score, single, 0, true);
    }
    let mut kept: Vec<usize> = Vec::new();
    let judged: Vec<Binary32> = gate_masks(score, single);
    let mut alternatives: Vec<Binary32> = Vec::new();
    alternatives.push(ious[1]);
    alternatives.push(ious[2]);
    alternatives.push(ious[3]);
    assert(alternatives@ =~= ious@.skip(1));
    assert forall|i: int| 0 <= i < 3 implies !(#[trigger] alternatives@[i]).nan() by {
        assert(alternatives@[i] == ious@[i + 1]);
    }
    kept.push(dynamic_multimask(&judged, &alternatives));
    assert(kept@ =~= kept_candidates(*score, single@, ious@, multimask_output));
    Prediction { present: is_object(score), kept, tokens: candidates(false) }
}

/// Without an object the single mask is handed on, and it is uniform: no alternative stands in.
pub proof fn absent_objects_keep_the_single_mask(
    score: Binary32,
    single: Seq<Binary32>,
    ious: Seq<Binary32>,
)
    requires
        !(Binary32 { bits: 0 }).less(score),
    ensures
        kept_candidates(score, single, ious, false) == seq![0usize],
{
    let blank = gated(score, single);
    let generous = above(blank, Binary32 { bits: NEGATIVE_STABILITY_DELTA });
    assert forall|i: int| 0 <= i < generous.len() implies !generous[i] by {}
    tally_bounds(generous);
    assert(tally(generous) == 0);
}

/// The chosen alternative has the greatest predicted overlap.
pub proof fn unstable_masks_yield_to_the_best(single: Seq<Binary32>, alternatives: Seq<Binary32>)
    requires
        alternatives.len() > 0,
        !(Binary32 { bits: STABILITY_THRESH }).at_most(stability(single)),
    ensures
        ({
            let r = single_candidate(single, alternatives) - 1;
            &&& 0 <= r < alternatives.len()
            &&& forall|i: int|
                0 <= i < alternatives.len() && !alternatives[r].nan() ==> !alternatives[r].less(
                    #[trigger] alternatives[i],
                )
        }),
{
    let floor = Binary32 { bits: NEGATIVE_INFINITY };
    let values = nth(alternatives);
    running_best_dominates(values, floor, alternatives.len());
    let (r, value) = running_best(values, floor, alternatives.len());
    assert forall|i: int|
        0 <= i < alternatives.len() && !alternatives[r].nan() implies !alternatives[r].less(
        #[trigger] alternatives[i],
    ) by {
        assert(!value.less(values(i)));
        if value == floor {
            assert(!floor.less(values(i)));
            assert(alternatives[i].nan() || alternatives[i].rank() <= floor.rank());
        }
    }
}

/// The object is present: its score is positive.
pub fn is_object(score: &Binary32) -> (r: bool)
    ensures
        r == (Binary32 { bits: 0 }).less(*score),
{
    score.gt(&Binary32 { bits: 0 })
}

/// The masks of an object that is present; a uniform no-object mask otherwise.
pub fn gate_masks(score: &Binary32, masks: &[Binary32]) -> (r: Vec<Binary32>)
    ensures
        r@ == (if (Binary32 { bits: 0 }).less(*score) {
            masks@
        } else {
            Seq::new(masks@.len(), |i: int| Binary32 { bits: NO_OBJECT_LOGIT })
        }),
        r@.len() == masks@.len(),
        forall|i: int|
            0 <= i < masks@.len() ==> #[trigger] r@[i] == if 0 < score.bits <= 0x7f80_0000 {
                masks@[i]
            } else {
                Binary32 { bits: 0xc480_0000 }
            },
{
    let keep = is_object(score);
    let mut r: Vec<Binary32> = Vec::new();
    let mut i: usize = 0;
    while i < masks.len()
        invariant
            i <= masks@.len(),
            r@.len() == i,
            forall|j: int|
                0 <= j < i ==> #[trigger] r@[j] == if keep {
                    masks@[j]
                } else {
                    Binary32 { bits: NO_OBJECT_LOGIT }
                },
        decreases masks@.len() - i,
    {
        if keep {
            r.push(masks[i]);
        } else {
            r.push(Binary32 { bits: NO_OBJECT_LOGIT });
        }
        i = i + 1;
    }
    assert(r@ =~= (if keep {
        masks@
    } else {
        Seq::new(masks@.len(), |i: int| Binary32 { bits: NO_OBJECT_LOGIT })
    }));
    r
}

/// The token that the object pointer comes from: the first where there is one candidate or one
/// token, otherwise that of the candidate with the greatest predicted overlap.
pub fn select_obj_ptr_token(tokens: usize, ious: &[Binary32], multimask_output: bool) -> (r: usize)
    ensures
        if !multimask_output || tokens == 1 {
            r == 0
        } else {
            is_argmax(ious@, r as int)
        },
{
    if !multimask_output || tokens == 1 {
        0
    } else {
        argmax_f32(ious)
    }
}

/// The candidate with the greatest predicted overlap; the only one where there is one.
pub fn best_low_mask(masks: usize, ious: &[Binary32]) -> (r: usize)
    ensures
        if masks == 1 {
            r == 0
        } else {
            is_argmax(ious@, r as int)
        },
{
    if masks == 1 {
        0
    } else {
        argmax_f32(ious)
    }
}

/// What a point contributes to the sparse prompt.
#[derive(Clone, Copy, Debug, PartialEq, Eq, Structural)]
pub enum PointToken {
    /// The embedding of a padding point, in place of the position.
    NotAPoint,
    /// The position plus the embedding of the label.
    Labelled { embedding: usize },
    /// The position alone.
    Position,
}

/// The contribution of a point with a label.
pub fn point_token(label: i32) -> (r: PointToken)
    ensures
        r == (if label == NOT_A_POINT {
            PointToken::NotAPoint
        } else if 0 <= label < 4 {
            PointToken::Labelled { embedding: label as usize }
        } else {
            PointToken::Position
        }),
        label == -1 <==> r == PointToken::NotAPoint,
{
    if label == NOT_A_POINT {
        PointToken::NotAPoint
    } else if 0 <= label && label < 4 {
        PointToken::Labelled { embedding: label as usize }
    } else {
        PointToken::Position
    }
}

/// The stability of a mask is the share of the pixels above minus a twentieth that are above a
/// twentieth, and one where there are none.
pub proof fn stability_is_a_share(m: Seq<Binary32>)
    ensures
        ({
            let strict = tally(
                Seq::new(m.len(), |i: int| (Binary32 { bits: 0x3d4c_cccd }).less(m[i])),
            );
            let generous = tally(
                Seq::new(m.len(), |i: int| (Binary32 { bits: 0xbd4c_cccd }).less(m[i])),
            );
            stability(m) == if generous == 0 {
                Binary32 { bits: 0x3f80_0000 }
            } else {
                ratio(strict as int, generous as int)
            }
        }),
{
    assert(above(m, Binary32 { bits: 0x3d4c_cccd }) =~= Seq::new(
        m.len(),
        |i: int| (Binary32 { bits: 0x3d4c_cccd }).less(m[i]),
    ));
    assert(above(m, Binary32 { bits: 0xbd4c_cccd }) =~= Seq::new(
        m.len(),
        |i: int| (Binary32 { bits: 0xbd4c_cccd }).less(m[i]),
    ));
}

/// A single mask whose stability is ninety-eight hundredths or more is kept; otherwise the
/// alternative with the greatest predicted overlap is taken, the first of equals.
pub proof fn stable_masks_are_kept(single: Seq<Binary32>, alternatives: Seq<Binary32>)
    requires
        alternatives.len() > 0,
        forall|i: int| 0 <= i < alternatives.len() ==> !(#[trigger] alternatives[i]).nan(),
    ensures
        ({
            let r = single_candidate(single, alternatives);
            let stable = (Binary32 { bits: 0x3f7a_e148 }).at_most(stability(single));
            &&& stable ==> r == 0
            &&& !stable ==> 1 <= r <= alternatives.len()
            &&& !stable ==> forall|i: int|
                0 <= i < alternatives.len() ==> (#[trigger] alternatives[i]).at_most(
                    alternatives[r - 1],
                )
            &&& !stable ==> forall|i: int|
                0 <= i < r - 1 ==> (#[trigger] alternatives[i]).less(alternatives[r - 1])
        }),
{
    let values = nth(alternatives);
    let floor = Binary32 { bits: NEGATIVE_INFINITY };
    crate::sam3::masks::running_best_dominates(values, floor, alternatives.len());
    let best = best_alternative(alternatives);
    assert(values(best) == alternatives[best]);
    assert(!alternatives[best].nan());
    assert forall|i: int| 0 <= i < alternatives.len() implies (#[trigger] alternatives[i]).at_most(
        alternatives[best],
    ) by {
        assert(values(i) == alternatives[i]);
        assert(!alternatives[i].nan());
    }
    assert forall|i: int| 0 <= i < best implies (#[trigger] alternatives[i]).less(
        alternatives[best],
    ) by {
        assert(values(i) == alternatives[i]);
        assert(!alternatives[i].nan());
    }
}

/// A mask is kept where an object is seen and is minus one thousand and twenty-four throughout where
/// none is; of several candidates all but the single mask are kept.
pub proof fn absent_objects_have_no_mask(
    score: Binary32,
    mask: Seq<Binary32>,
    best: int,
)
    ensures
        0 < score.bits <= 0x7f80_0000 ==> gated(score, mask) == mask,
        !(0 < score.bits <= 0x7f80_0000) ==> gated(score, mask).len() == mask.len() && forall|i: int|
            0 <= i < mask.len() ==> (#[trigger] gated(score, mask)[i]).bits == 0xc480_0000,
        kept_given_best(score, mask, best, true) == seq![1usize, 2usize, 3usize],
        kept_given_best(score, mask, best, false).len() == 1,
        0 < score.bits <= 0x7f80_0000 && (Binary32 { bits: 0x3f7a_e148 }).at_most(stability(mask))
            ==> kept_given_best(score, mask, best, false)[0] == 0,
        0 < score.bits <= 0x7f80_0000 && !(Binary32 { bits: 0x3f7a_e148 }).at_most(stability(mask))
            && 0 <= best < usize::MAX ==> kept_given_best(score, mask, best, false)[0] == best + 1,
{
}

} // verus!
